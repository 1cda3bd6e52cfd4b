//! End-to-end exercises of the index, the sync decisions and the query
//! engine on concrete chains, mempools and descriptor pages.

use waterfall::index::{Block, BlockTx, MempoolTx, ScriptIndex};
use waterfall::query::{derivation_indices, parse_page, waterfall};
use waterfall::script_hash::script_hash;
use waterfall::state::State;
use waterfall::sync::{diverged, next_action, next_phase, SyncAction, SyncPhase};
use waterfall::types::{BlockRef, Hash256, TxEntry};
use waterfall::Error;

fn h256(n: u64) -> Hash256 {
    Hash256 { w0: n, w1: 0, w2: 0, w3: 0 }
}

fn genesis() -> BlockRef {
    BlockRef { height: 0, block_id: h256(1000), timestamp: 0 }
}

fn block(height: u32, id: u64, txs: Vec<BlockTx>) -> Block {
    Block {
        header: BlockRef { height, block_id: h256(id), timestamp: 1_700_000_000 + height },
        txs,
    }
}

fn tx(txid: u64, scripts: Vec<Vec<u8>>) -> BlockTx {
    BlockTx { txid: h256(txid), output_scripts: scripts }
}

#[test]
fn unseen_script_has_empty_history() {
    let idx = ScriptIndex::new(genesis());
    assert_eq!(idx.get_history(12345).len(), 0);
    assert_eq!(idx.get_history(0).len(), 0);
    assert_eq!(idx.get_tip().height, 0);
}

#[test]
fn apply_block_confirms_entries() {
    let mut idx = ScriptIndex::new(genesis());
    let script = vec![0x51u8, 0x21];
    let b = block(1, 1, vec![tx(7, vec![script.clone()])]);
    idx.apply_block(&b);
    let hist = idx.get_history(script_hash(&script));
    assert_eq!(hist.len(), 1);
    assert_eq!(hist[0].txid, h256(7));
    assert_eq!(hist[0].height, 1);
    assert_eq!(hist[0].block_hash, Some(h256(1)));
    assert_eq!(hist[0].block_timestamp, Some(1_700_000_001));
    assert_eq!(idx.get_tip().height, 1);
    assert_eq!(idx.get_tip().block_id, h256(1));
}

#[test]
fn reapplying_a_block_changes_nothing() {
    let script_a = vec![0x01u8];
    let script_b = vec![0x02u8, 0x03];
    let b = block(1, 1, vec![tx(7, vec![script_a.clone(), script_b.clone()]), tx(
        8,
        vec![script_a.clone()],
    )]);
    let mut once = ScriptIndex::new(genesis());
    once.apply_block(&b);
    let mut twice = ScriptIndex::new(genesis());
    twice.apply_block(&b);
    // replay every upsert of the same block a second time
    for t in &b.txs {
        for s in &t.output_scripts {
            let entry = TxEntry {
                txid: t.txid,
                height: b.header.height,
                block_hash: Some(b.header.block_id),
                block_timestamp: Some(b.header.timestamp),
            };
            twice.upsert(script_hash(s), entry);
        }
    }
    for s in [&script_a, &script_b] {
        assert_eq!(once.get_history(script_hash(s)), twice.get_history(script_hash(s)));
    }
    assert_eq!(once.get_history(script_hash(&script_a)).len(), 2);
    assert_eq!(once.get_history(script_hash(&script_b)).len(), 1);
}

#[test]
fn mempool_entry_is_promoted_in_place() {
    let mut idx = ScriptIndex::new(genesis());
    let script = vec![0xaau8, 0xbb];
    let k = script_hash(&script);
    idx.apply_mempool(&vec![MempoolTx { txid: h256(9), output_scripts: vec![script.clone()] }]);
    let hist = idx.get_history(k);
    assert_eq!(hist.len(), 1);
    assert_eq!(hist[0].height, 0);
    assert_eq!(hist[0].block_hash, None);
    assert_eq!(hist[0].block_timestamp, None);
    // the confirming block replaces the unconfirmed entry, no duplicate
    idx.apply_block(&block(1, 1, vec![tx(9, vec![script.clone()])]));
    let hist = idx.get_history(k);
    assert_eq!(hist.len(), 1);
    assert_eq!(hist[0].txid, h256(9));
    assert_eq!(hist[0].height, 1);
    assert!(hist[0].block_hash.is_some());
    assert!(hist[0].block_timestamp.is_some());
    // a later mempool sighting of the same tx must not demote it
    idx.apply_mempool(&vec![MempoolTx { txid: h256(9), output_scripts: vec![script.clone()] }]);
    let hist = idx.get_history(k);
    assert_eq!(hist.len(), 1);
    assert_eq!(hist[0].height, 1);
}

#[test]
fn rollback_demotes_observed_and_drops_the_rest() {
    let script_a = vec![0x01u8];
    let script_b = vec![0x02u8];
    let script_c = vec![0x03u8];
    let mut idx = ScriptIndex::new(genesis());
    idx.apply_block(&block(1, 1, vec![tx(7, vec![script_a.clone()])]));
    idx.apply_block(&block(2, 2, vec![
        tx(8, vec![script_b.clone()]),
        tx(9, vec![script_c.clone()]),
    ]));
    assert_eq!(idx.get_tip().height, 2);
    // reorg away block 2; tx 8 is still in the mempool, tx 9 is gone
    idx.rollback_to(1, &vec![h256(8)]);
    assert_eq!(idx.get_tip().height, 1);
    assert_eq!(idx.get_tip().block_id, h256(1));
    let ha = idx.get_history(script_hash(&script_a));
    assert_eq!(ha.len(), 1);
    assert_eq!(ha[0].height, 1);
    let hb = idx.get_history(script_hash(&script_b));
    assert_eq!(hb.len(), 1);
    assert_eq!(hb[0].txid, h256(8));
    assert_eq!(hb[0].height, 0);
    assert_eq!(hb[0].block_hash, None);
    let hc = idx.get_history(script_hash(&script_c));
    assert_eq!(hc.len(), 0);
}

#[test]
fn fork_search_stops_at_matching_height_and_at_genesis() {
    let mut idx = ScriptIndex::new(genesis());
    idx.apply_block(&block(1, 1, vec![]));
    idx.apply_block(&block(2, 2, vec![]));
    assert!(idx.fork_found(2, &Some(h256(2))));
    assert!(!idx.fork_found(2, &Some(h256(99))));
    assert!(!idx.fork_found(2, &None));
    assert!(idx.fork_found(1, &Some(h256(1))));
    assert!(idx.fork_found(0, &None));
    assert_eq!(idx.block_id_at(0), Some(h256(1000)));
    assert_eq!(idx.block_id_at(2), Some(h256(2)));
    assert_eq!(idx.block_id_at(3), None);
}

#[test]
fn pagination_pages_tile_the_index_space() {
    let p0 = derivation_indices(0, 3).unwrap();
    let p1 = derivation_indices(1, 3).unwrap();
    let p2 = derivation_indices(2, 3).unwrap();
    let mut all: Vec<u32> = Vec::new();
    all.extend(&p0);
    all.extend(&p1);
    all.extend(&p2);
    assert_eq!(all, vec![0, 1, 2, 3, 4, 5, 6, 7, 8]);
    assert_eq!(derivation_indices(5, 0).unwrap(), Vec::<u32>::new());
    match derivation_indices(u32::MAX, 2) {
        Err(Error::PageOverflow) => {}
        _ => panic!("expected a page overflow"),
    }
    // the last page that still fits
    let last = derivation_indices(u32::MAX / 2, 2).unwrap();
    assert_eq!(last, vec![u32::MAX - 1, u32::MAX]);
}

#[test]
fn waterfall_scenario_no_activity() {
    let state = State::new(h256(1000), 0);
    // two branches (receive and change), two derived scripts each
    let branches = vec![
        (0u32, vec![vec![0x10u8], vec![0x11u8]]),
        (1u32, vec![vec![0x20u8], vec![0x21u8]]),
    ];
    let r = waterfall(&state.index, &branches, 0);
    assert_eq!(r.page, 0);
    assert_eq!(r.txs_seen.len(), 2);
    assert!(r.is_empty());
    assert_eq!(r.count_non_empty(), 0);
}

#[test]
fn waterfall_scenario_unconfirmed_then_confirmed_then_reorged() {
    let mut state = State::new(h256(1000), 0);
    let receive0 = vec![0x10u8];
    let branches = vec![
        (0u32, vec![receive0.clone(), vec![0x11u8]]),
        (1u32, vec![vec![0x20u8], vec![0x21u8]]),
    ];
    // funds sent to branch 0, derivation index 0, still unconfirmed
    state.index.apply_mempool(&vec![MempoolTx {
        txid: h256(42),
        output_scripts: vec![receive0.clone()],
    }]);
    let r = waterfall(&state.index, &branches, 0);
    assert!(!r.is_empty());
    assert_eq!(r.count_non_empty(), 1);
    let first = &r.txs_seen[0].1[0][0];
    assert_eq!(first.txid, h256(42));
    assert_eq!(first.height, 0);
    assert_eq!(first.block_hash, None);
    assert_eq!(first.block_timestamp, None);
    // one block confirms it
    state.index.apply_block(&block(1, 1, vec![tx(42, vec![receive0.clone()])]));
    let r = waterfall(&state.index, &branches, 0);
    assert_eq!(r.count_non_empty(), 1);
    assert_eq!(r.txs_seen[0].1[0].len(), 1);
    let first = &r.txs_seen[0].1[0][0];
    assert_eq!(first.txid, h256(42));
    assert_eq!(first.height, 1);
    assert_eq!(first.block_hash, Some(h256(1)));
    assert_eq!(first.block_timestamp, Some(1_700_000_001));
    // a reorg removes the confirming block while the tx is back in the mempool
    state.index.rollback_to(0, &vec![h256(42)]);
    let r = waterfall(&state.index, &branches, 0);
    let first = &r.txs_seen[0].1[0][0];
    assert_eq!(first.height, 0);
    assert_eq!(first.block_hash, None);
    // and a reorg where the tx vanished entirely
    state.index.rollback_to(0, &vec![]);
    // note: the entry was already unconfirmed, so it survives at height 0
    let r = waterfall(&state.index, &branches, 0);
    assert_eq!(r.txs_seen[0].1[0][0].height, 0);
    // a fresh confirmed-only entry disappears instead
    let mut other = State::new(h256(1000), 0);
    other.index.apply_block(&block(1, 9, vec![tx(43, vec![receive0.clone()])]));
    other.index.rollback_to(0, &vec![]);
    let r = waterfall(&other.index, &branches, 0);
    assert!(r.is_empty());
}

#[test]
fn sync_decisions_follow_the_observation() {
    let tip = BlockRef { height: 5, block_id: h256(5), timestamp: 0 };
    assert!(!diverged(&tip, 5, &Some(h256(5))));
    assert!(!diverged(&tip, 9, &Some(h256(5))));
    assert!(diverged(&tip, 4, &Some(h256(5))));
    assert!(diverged(&tip, 5, &Some(h256(6))));
    assert!(diverged(&tip, 5, &None));
    assert_eq!(next_action(5, 5, true), SyncAction::Rollback);
    assert_eq!(next_action(5, 9, false), SyncAction::ApplyBlock(6));
    assert_eq!(next_action(5, 5, false), SyncAction::PollMempool);
    assert_eq!(next_phase(5, 5, true), SyncPhase::RollingBack);
    assert_eq!(next_phase(5, 9, false), SyncPhase::Behind);
    assert_eq!(next_phase(5, 5, false), SyncPhase::Synced);
    assert_ne!(SyncPhase::Syncing, SyncPhase::Behind);
}

#[test]
fn parse_page_accepts_exactly_32_bit_decimals() {
    assert_eq!(parse_page(&b"0".to_vec()), Some(0));
    assert_eq!(parse_page(&b"123".to_vec()), Some(123));
    assert_eq!(parse_page(&b"007".to_vec()), Some(7));
    assert_eq!(parse_page(&b"4294967295".to_vec()), Some(u32::MAX));
    assert_eq!(parse_page(&b"4294967296".to_vec()), None);
    assert_eq!(parse_page(&b"".to_vec()), None);
    assert_eq!(parse_page(&b"12a".to_vec()), None);
    assert_eq!(parse_page(&b"-1".to_vec()), None);
}

#[test]
fn script_hash_matches_the_fnv_reference_values() {
    assert_eq!(script_hash(&vec![]), 0xcbf29ce484222325);
    assert_eq!(script_hash(&vec![0x61]), 0xaf63dc4c8601ec8c);
    assert_eq!(script_hash(&vec![0x61]), script_hash(&vec![0x61]));
    assert_ne!(script_hash(&vec![0x61]), script_hash(&vec![0x62]));
}

#[test]
fn upsert_replaces_by_txid_and_appends_otherwise() {
    let mut idx = ScriptIndex::new(genesis());
    let e1 = TxEntry { txid: h256(1), height: 0, block_hash: None, block_timestamp: None };
    let e2 = TxEntry { txid: h256(2), height: 0, block_hash: None, block_timestamp: None };
    idx.upsert(77, e1);
    idx.upsert(77, e2);
    idx.upsert(77, e1);
    let hist = idx.get_history(77);
    assert_eq!(hist.len(), 2);
    assert_eq!(hist[0], e1);
    assert_eq!(hist[1], e2);
}
