//! The script index: a mapping from script hash to transaction history,
//! together with the chain of block references it was built from. The
//! indexer is its only writer; queries only read.

use vstd::prelude::*;

use crate::script_hash::{fnv1a, script_hash};
use crate::types::{
    conf_entry, find_txid, has_confirmed, history_wf, lemma_find_txid, lemma_find_txid_first,
    lemma_rollback_properties, lemma_upsert_absorbed, lemma_upsert_keeps_entry,
    lemma_upsert_present, lemma_upsert_wf, rollback_entry, rollback_seq, seq_has_hash,
    unconf_entry, upsert_seq, BlockRef, Hash256, TxEntry,
};

verus! {

/// One transaction of a block, reduced to what the index reads: its id and
/// the scripts of its outputs.
pub struct BlockTx {
    pub txid: Hash256,
    pub output_scripts: Vec<Vec<u8>>,
}

/// A block reduced to what the index reads.
pub struct Block {
    pub header: BlockRef,
    pub txs: Vec<BlockTx>,
}

/// The (script hash, confirmed entry) pairs one transaction contributes.
pub open spec fn tx_entries(t: BlockTx, header: BlockRef) -> Seq<(u64, TxEntry)> {
    Seq::new(
        t.output_scripts@.len(),
        |j: int| (fnv1a(t.output_scripts@[j]@), conf_entry(t.txid, header)),
    )
}

/// All pairs a block contributes, transaction by transaction, in order.
pub open spec fn block_entries(txs: Seq<BlockTx>, header: BlockRef) -> Seq<(u64, TxEntry)>
    decreases txs.len(),
{
    if txs.len() == 0 {
        Seq::empty()
    } else {
        block_entries(txs.drop_last(), header) + tx_entries(txs.last(), header)
    }
}

/// Folding a list of upserts over the index contents, left to right.
pub open spec fn apply_entries(m: Map<u64, Seq<TxEntry>>, es: Seq<(u64, TxEntry)>) -> Map<
    u64,
    Seq<TxEntry>,
>
    decreases es.len(),
{
    if es.len() == 0 {
        m
    } else {
        let m2 = apply_entries(m, es.drop_last());
        m2.insert(es.last().0, upsert_seq(map_hist_or_empty(m2, es.last().0), es.last().1))
    }
}

/// Some pair of `s` carries key `k`.
pub open spec fn assoc_has(s: Seq<(u64, Vec<TxEntry>)>, k: u64) -> bool {
    exists|i: int| 0 <= i < s.len() && s[i].0 == k
}

/// The history stored under key `k` (meaningful only when `assoc_has`).
pub open spec fn assoc_val(s: Seq<(u64, Vec<TxEntry>)>, k: u64) -> Seq<TxEntry> {
    s[choose|i: int| 0 <= i < s.len() && s[i].0 == k].1@
}

/// No key appears twice.
pub open spec fn unique_keys(s: Seq<(u64, Vec<TxEntry>)>) -> bool {
    forall|i: int, j: int| 0 <= i < j < s.len() ==> s[i].0 != s[j].0
}

/// The history `m` holds for `k`, or the empty history when `k` is unknown.
pub open spec fn map_hist_or_empty(m: Map<u64, Seq<TxEntry>>, k: u64) -> Seq<TxEntry> {
    if m.contains_key(k) {
        m[k]
    } else {
        Seq::empty()
    }
}

/// Every history of `m` is well formed.
pub open spec fn map_wf(m: Map<u64, Seq<TxEntry>>) -> bool {
    forall|k: u64| m.contains_key(k) ==> history_wf(#[trigger] m[k])
}

proof fn lemma_assoc_at(s: Seq<(u64, Vec<TxEntry>)>, i: int)
    requires
        unique_keys(s),
        0 <= i < s.len(),
    ensures
        assoc_has(s, s[i].0),
        assoc_val(s, s[i].0) == s[i].1@,
{
    assert(assoc_has(s, s[i].0));
    let j = choose|j: int| 0 <= j < s.len() && s[j].0 == s[i].0;
    if j < i {
        assert(s[j].0 != s[i].0);
    } else if j > i {
        assert(s[i].0 != s[j].0);
    }
}

/// `m` holds the exact entry `e` somewhere in the history of `k`.
pub open spec fn entry_present(m: Map<u64, Seq<TxEntry>>, k: u64, e: TxEntry) -> bool {
    exists|i: int|
        0 <= i < map_hist_or_empty(m, k).len() && map_hist_or_empty(m, k)[i] == e
}

/// Every pair of `es` is already present in `m`.
pub open spec fn all_absorbed(m: Map<u64, Seq<TxEntry>>, es: Seq<(u64, TxEntry)>) -> bool {
    forall|l: int| 0 <= l < es.len() ==> entry_present(m, (#[trigger] es[l]).0, es[l].1)
}

/// Two pairs of `es` for the same transaction carry the same entry (true of
/// any one block: the entry is determined by the txid and the header).
pub open spec fn coherent(es: Seq<(u64, TxEntry)>) -> bool {
    forall|a: int, b: int|
        0 <= a < es.len() && 0 <= b < es.len() && (#[trigger] es[a]).1.txid
            == (#[trigger] es[b]).1.txid ==> es[a].1 == es[b].1
}

/// Every entry of `es` is well formed.
pub open spec fn entries_wf(es: Seq<(u64, TxEntry)>) -> bool {
    forall|l: int| 0 <= l < es.len() ==> (#[trigger] es[l]).1.wf()
}

proof fn lemma_apply_entries_wf(m: Map<u64, Seq<TxEntry>>, es: Seq<(u64, TxEntry)>)
    requires
        map_wf(m),
        entries_wf(es),
    ensures
        map_wf(apply_entries(m, es)),
    decreases es.len(),
{
    if es.len() > 0 {
        let es0 = es.drop_last();
        assert(entries_wf(es0)) by {
            assert(forall|l: int| 0 <= l < es0.len() ==> es0[l] == es[l]);
        }
        lemma_apply_entries_wf(m, es0);
        let m2 = apply_entries(m, es0);
        lemma_upsert_wf(map_hist_or_empty(m2, es.last().0), es.last().1);
    }
}

proof fn lemma_apply_entries_absorbs(m: Map<u64, Seq<TxEntry>>, es: Seq<(u64, TxEntry)>)
    requires
        map_wf(m),
        entries_wf(es),
        coherent(es),
    ensures
        all_absorbed(apply_entries(m, es), es),
    decreases es.len(),
{
    if es.len() > 0 {
        let es0 = es.drop_last();
        assert(forall|l: int| 0 <= l < es0.len() ==> es0[l] == es[l]);
        lemma_apply_entries_absorbs(m, es0);
        lemma_apply_entries_wf(m, es0);
        let m2 = apply_entries(m, es0);
        let k = es.last().0;
        let e = es.last().1;
        let m3 = apply_entries(m, es);
        assert(m3 == m2.insert(k, upsert_seq(map_hist_or_empty(m2, k), e)));
        assert forall|l: int| 0 <= l < es.len() implies entry_present(
            m3,
            (#[trigger] es[l]).0,
            es[l].1,
        ) by {
            if l == es.len() - 1 {
                lemma_upsert_present(map_hist_or_empty(m2, k), e);
                assert(map_hist_or_empty(m3, k) == upsert_seq(map_hist_or_empty(m2, k), e));
            } else {
                assert(entry_present(m2, es[l].0, es[l].1));
                if es[l].0 == k {
                    assert(history_wf(map_hist_or_empty(m2, k))) by {
                        if m2.contains_key(k) {
                            assert(history_wf(m2[k]));
                        }
                    }
                    assert(es[l].1.txid == e.txid ==> es[l].1 == e);
                    lemma_upsert_keeps_entry(map_hist_or_empty(m2, k), e, es[l].1);
                    assert(map_hist_or_empty(m3, k) == upsert_seq(map_hist_or_empty(m2, k), e));
                } else {
                    assert(map_hist_or_empty(m3, es[l].0) == map_hist_or_empty(m2, es[l].0));
                }
            }
        }
    }
}

proof fn lemma_apply_entries_noop(m: Map<u64, Seq<TxEntry>>, es: Seq<(u64, TxEntry)>)
    requires
        map_wf(m),
        all_absorbed(m, es),
    ensures
        apply_entries(m, es) == m,
    decreases es.len(),
{
    if es.len() > 0 {
        let es0 = es.drop_last();
        assert(all_absorbed(m, es0)) by {
            assert(forall|l: int| 0 <= l < es0.len() ==> es0[l] == es[l]);
        }
        lemma_apply_entries_noop(m, es0);
        let k = es.last().0;
        let e = es.last().1;
        assert(entry_present(m, k, e));
        assert(m.contains_key(k)) by {
            if !m.contains_key(k) {
                assert(map_hist_or_empty(m, k).len() == 0);
            }
        }
        lemma_upsert_absorbed(m[k], e);
        assert(m.insert(k, upsert_seq(map_hist_or_empty(m, k), e)) =~= m);
    }
}

/// Replaying a list of upserts whose entries agree per txid (as one block's
/// do) is a no-op: the second application changes nothing.
pub proof fn lemma_apply_entries_idempotent(m: Map<u64, Seq<TxEntry>>, es: Seq<(u64, TxEntry)>)
    requires
        map_wf(m),
        entries_wf(es),
        coherent(es),
    ensures
        apply_entries(apply_entries(m, es), es) == apply_entries(m, es),
{
    lemma_apply_entries_absorbs(m, es);
    lemma_apply_entries_wf(m, es);
    lemma_apply_entries_noop(apply_entries(m, es), es);
}

/// The frame law of block application: a script hash none of the entries
/// name keeps its history — in particular, a script never seen stays at
/// the empty history.
pub proof fn lemma_apply_entries_frame(m: Map<u64, Seq<TxEntry>>, es: Seq<(u64, TxEntry)>, k: u64)
    requires
        forall|l: int| 0 <= l < es.len() ==> (#[trigger] es[l]).0 != k,
    ensures
        map_hist_or_empty(apply_entries(m, es), k) == map_hist_or_empty(m, k),
    decreases es.len(),
{
    if es.len() > 0 {
        let es0 = es.drop_last();
        assert(forall|l: int| 0 <= l < es0.len() ==> es0[l] == es[l]);
        lemma_apply_entries_frame(m, es0, k);
    }
}

/// The frame law of mempool application: a script hash no mempool output
/// maps to keeps its history.
pub proof fn lemma_mem_apply_frame(m: Map<u64, Seq<TxEntry>>, es: Seq<(u64, Hash256)>, k: u64)
    requires
        forall|l: int| 0 <= l < es.len() ==> (#[trigger] es[l]).0 != k,
    ensures
        map_hist_or_empty(mem_apply(m, es), k) == map_hist_or_empty(m, k),
    decreases es.len(),
{
    if es.len() > 0 {
        let es0 = es.drop_last();
        assert(forall|l: int| 0 <= l < es0.len() ==> es0[l] == es[l]);
        lemma_mem_apply_frame(m, es0, k);
    }
}

proof fn lemma_block_entries_shape(txs: Seq<BlockTx>, header: BlockRef)
    ensures
        forall|l: int|
            0 <= l < block_entries(txs, header).len() ==> (#[trigger] block_entries(txs, header)[l]).1
                == conf_entry(block_entries(txs, header)[l].1.txid, header),
    decreases txs.len(),
{
    if txs.len() > 0 {
        lemma_block_entries_shape(txs.drop_last(), header);
        let es = block_entries(txs, header);
        let es0 = block_entries(txs.drop_last(), header);
        let te = tx_entries(txs.last(), header);
        assert forall|l: int| 0 <= l < es.len() implies (#[trigger] es[l]).1 == conf_entry(
            es[l].1.txid,
            header,
        ) by {
            if l < es0.len() {
                assert(es[l] == es0[l]);
            } else {
                assert(es[l] == te[l - es0.len()]);
            }
        }
    }
}

/// Applying the same block's entries twice leaves the index contents as a
/// single application does: block application is idempotent.
pub proof fn lemma_apply_block_idempotent(
    m: Map<u64, Seq<TxEntry>>,
    txs: Seq<BlockTx>,
    header: BlockRef,
)
    requires
        map_wf(m),
        header.height > 0,
    ensures
        apply_entries(apply_entries(m, block_entries(txs, header)), block_entries(txs, header))
            == apply_entries(m, block_entries(txs, header)),
{
    let es = block_entries(txs, header);
    lemma_block_entries_shape(txs, header);
    assert(entries_wf(es)) by {
        assert forall|l: int| 0 <= l < es.len() implies (#[trigger] es[l]).1.wf() by {
            assert(es[l].1 == conf_entry(es[l].1.txid, header));
        }
    }
    assert(coherent(es)) by {
        assert forall|a: int, b: int|
            0 <= a < es.len() && 0 <= b < es.len() && (#[trigger] es[a]).1.txid
                == (#[trigger] es[b]).1.txid implies es[a].1 == es[b].1 by {
            assert(es[a].1 == conf_entry(es[a].1.txid, header));
            assert(es[b].1 == conf_entry(es[b].1.txid, header));
        }
    }
    lemma_apply_entries_idempotent(m, es);
}

/// A mempool transaction reduced to what the index reads: its id and the
/// scripts of its outputs.
pub struct MempoolTx {
    pub txid: Hash256,
    pub output_scripts: Vec<Vec<u8>>,
}

/// One mempool upsert: record `txid` as unconfirmed under `k`, unless the
/// history already shows it confirmed, which a mempool sighting must not
/// undo.
pub open spec fn mem_apply_one(m: Map<u64, Seq<TxEntry>>, k: u64, txid: Hash256) -> Map<
    u64,
    Seq<TxEntry>,
> {
    if has_confirmed(map_hist_or_empty(m, k), txid) {
        m
    } else {
        m.insert(k, upsert_seq(map_hist_or_empty(m, k), unconf_entry(txid)))
    }
}

/// The (script hash, txid) pairs one mempool transaction contributes.
pub open spec fn mem_tx_keys(t: MempoolTx) -> Seq<(u64, Hash256)> {
    Seq::new(t.output_scripts@.len(), |j: int| (fnv1a(t.output_scripts@[j]@), t.txid))
}

/// All pairs a mempool snapshot contributes, in order.
pub open spec fn mem_entries(txs: Seq<MempoolTx>) -> Seq<(u64, Hash256)>
    decreases txs.len(),
{
    if txs.len() == 0 {
        Seq::empty()
    } else {
        mem_entries(txs.drop_last()) + mem_tx_keys(txs.last())
    }
}

/// Folding mempool upserts over the index contents, left to right.
pub open spec fn mem_apply(m: Map<u64, Seq<TxEntry>>, es: Seq<(u64, Hash256)>) -> Map<
    u64,
    Seq<TxEntry>,
>
    decreases es.len(),
{
    if es.len() == 0 {
        m
    } else {
        mem_apply_one(mem_apply(m, es.drop_last()), es.last().0, es.last().1)
    }
}

/// The script index. `entries` associates each known script hash with its
/// history; `chain` records, height by height, the block references already
/// applied, so that a reorg can be located and undone. The last element of
/// `chain` is the index tip.
pub struct ScriptIndex {
    entries: Vec<(u64, Vec<TxEntry>)>,
    chain: Vec<BlockRef>,
}

impl ScriptIndex {
    /// Mathematical contents: script hash -> history.
    pub closed spec fn histories(self) -> Map<u64, Seq<TxEntry>> {
        Map::new(|k: u64| assoc_has(self.entries@, k), |k: u64| assoc_val(self.entries@, k))
    }

    /// The applied chain, genesis first.
    pub closed spec fn chain_spec(self) -> Seq<BlockRef> {
        self.chain@
    }

    /// The most recently applied block: the index tip.
    pub open spec fn tip_spec(self) -> BlockRef {
        self.chain_spec().last()
    }

    /// The stored history for `k`, empty when `k` was never seen.
    pub open spec fn hist_or_empty(self, k: u64) -> Seq<TxEntry> {
        map_hist_or_empty(self.histories(), k)
    }

    pub closed spec fn wf(self) -> bool {
        &&& unique_keys(self.entries@)
        &&& forall|i: int|
            0 <= i < self.entries@.len() ==> history_wf((#[trigger] self.entries@[i]).1@)
        &&& 1 <= self.chain@.len() <= 0x1_0000_0000
        &&& forall|h: int| 0 <= h < self.chain@.len() ==> (#[trigger] self.chain@[h]).height == h
    }

    /// Whatever the index holds under any key is a well-formed history.
    pub proof fn lemma_wf_histories(self)
        requires
            self.wf(),
        ensures
            map_wf(self.histories()),
            self.tip_spec().height + 1 == self.chain_spec().len(),
            self.chain_spec().len() >= 1,
    {
        assert forall|k: u64| self.histories().contains_key(k) implies history_wf(
            #[trigger] self.histories()[k],
        ) by {
            let i = choose|i: int| 0 <= i < self.entries@.len() && self.entries@[i].0 == k;
            lemma_assoc_at(self.entries@, i);
        }
        assert(self.chain@[self.chain@.len() - 1].height == self.chain@.len() - 1);
    }

    /// An empty index: no history at all, the chain holding only `genesis`.
    pub fn new(genesis: BlockRef) -> (r: ScriptIndex)
        requires
            genesis.height == 0,
        ensures
            r.wf(),
            r.histories() == Map::<u64, Seq<TxEntry>>::empty(),
            r.chain_spec() == seq![genesis],
    {
        let mut chain: Vec<BlockRef> = Vec::new();
        chain.push(genesis);
        let r = ScriptIndex { entries: Vec::new(), chain };
        proof {
            assert(r.histories() =~= Map::<u64, Seq<TxEntry>>::empty());
            assert(r.chain@ =~= seq![genesis]);
        }
        r
    }

    /// The current tip.
    pub fn get_tip(&self) -> (r: BlockRef)
        requires
            self.wf(),
        ensures
            r == self.tip_spec(),
    {
        self.chain[self.chain.len() - 1]
    }

    /// The block id this index applied at height `h`, if `h` is covered.
    pub fn block_id_at(&self, h: u32) -> (r: Option<Hash256>)
        requires
            self.wf(),
        ensures
            r == if (h as int) < self.chain_spec().len() {
                Some(self.chain_spec()[h as int].block_id)
            } else {
                None::<Hash256>
            },
    {
        if (h as usize) < self.chain.len() {
            Some(self.chain[h as usize].block_id)
        } else {
            None
        }
    }

    fn find_entry(&self, k: u64) -> (r: Option<usize>)
        ensures
            match r {
                Some(p) => p < self.entries@.len() && self.entries@[p as int].0 == k,
                None => !assoc_has(self.entries@, k),
            },
    {
        let mut i: usize = 0;
        while i < self.entries.len()
            invariant
                i <= self.entries@.len(),
                forall|j: int| 0 <= j < i ==> (#[trigger] self.entries@[j]).0 != k,
            decreases self.entries@.len() - i,
        {
            if self.entries[i].0 == k {
                return Some(i);
            }
            i += 1;
        }
        None
    }

    /// Look a script's history up; scripts never seen on-chain or in the
    /// mempool get the empty history. Read-only: the index is untouched.
    pub fn get_history(&self, script: u64) -> (r: Vec<TxEntry>)
        requires
            self.wf(),
        ensures
            r@ == self.hist_or_empty(script),
            history_wf(r@),
    {
        let mut out: Vec<TxEntry> = Vec::new();
        match self.find_entry(script) {
            Some(p) => {
                proof {
                    lemma_assoc_at(self.entries@, p as int);
                }
                let h = &self.entries[p].1;
                let mut i: usize = 0;
                while i < h.len()
                    invariant
                        i <= h@.len(),
                        out@ == h@.take(i as int),
                    decreases h@.len() - i,
                {
                    out.push(h[i]);
                    proof {
                        assert(h@.take(i + 1 as int) =~= h@.take(i as int).push(h@[i as int]));
                    }
                    i += 1;
                }
                proof {
                    assert(h@.take(h@.len() as int) =~= h@);
                }
            },
            None => {
            },
        }
        out
    }

    /// Insert or update the entry for `e.txid` in `script`'s history. All
    /// other histories and the chain stay as they were.
    pub fn upsert(&mut self, script: u64, e: TxEntry)
        requires
            old(self).wf(),
            e.wf(),
        ensures
            final(self).wf(),
            final(self).histories() == old(self).histories().insert(
                script,
                upsert_seq(old(self).hist_or_empty(script), e),
            ),
            final(self).chain_spec() == old(self).chain_spec(),
    {
        let ghost target = upsert_seq(old(self).hist_or_empty(script), e);
        match self.find_entry(script) {
            Some(p) => {
                proof {
                    lemma_assoc_at(self.entries@, p as int);
                }
                let (k, mut hist) = self.entries.remove(p);
                proof {
                    lemma_upsert_wf(hist@, e);
                }
                upsert_vec(&mut hist, e);
                self.entries.push((k, hist));
                proof {
                    lemma_assoc_remove_push(old(self).entries@, p as int, (k, hist));
                    assert(final(self).histories() =~= old(self).histories().insert(
                        script,
                        target,
                    ));
                }
            },
            None => {
                let mut hist: Vec<TxEntry> = Vec::new();
                hist.push(e);
                proof {
                    assert(old(self).hist_or_empty(script) =~= Seq::<TxEntry>::empty());
                    lemma_upsert_wf(Seq::<TxEntry>::empty(), e);
                    assert(target =~= seq![e]);
                    assert(hist@ =~= Seq::<TxEntry>::empty().push(e));
                }
                self.entries.push((script, hist));
                proof {
                    lemma_assoc_push_new(old(self).entries@, (script, hist));
                    assert(final(self).histories() =~= old(self).histories().insert(
                        script,
                        target,
                    ));
                }
            },
        }
    }

    /// Apply the next block: every output of every transaction is upserted
    /// as a confirmed entry, and only then does the tip advance to the new
    /// block, so a reader never sees the new tip before the whole block.
    pub fn apply_block(&mut self, block: &Block)
        requires
            old(self).wf(),
            block.header.height == old(self).chain_spec().len(),
            old(self).chain_spec().len() < 0x1_0000_0000,
        ensures
            final(self).wf(),
            final(self).histories() == apply_entries(
                old(self).histories(),
                block_entries(block.txs@, block.header),
            ),
            final(self).chain_spec() == old(self).chain_spec().push(block.header),
    {
        let ghost m0 = old(self).histories();
        let mut i: usize = 0;
        proof {
            assert(block_entries(block.txs@.take(0), block.header) =~= Seq::<(
                u64,
                TxEntry,
            )>::empty());
        }
        while i < block.txs.len()
            invariant
                self.wf(),
                i <= block.txs@.len(),
                block.header.height == self.chain_spec().len(),
                self.histories() == apply_entries(
                    m0,
                    block_entries(block.txs@.take(i as int), block.header),
                ),
                self.chain_spec() == old(self).chain_spec(),
            decreases block.txs@.len() - i,
        {
            let tx = &block.txs[i];
            let entry = TxEntry::confirmed(tx.txid, block.header);
            let ghost done = block_entries(block.txs@.take(i as int), block.header);
            let mut j: usize = 0;
            proof {
                assert(done + tx_entries(*tx, block.header).take(0) =~= done);
            }
            while j < tx.output_scripts.len()
                invariant
                    self.wf(),
                    j <= tx.output_scripts@.len(),
                    entry == conf_entry(tx.txid, block.header),
                    entry.wf(),
                    block.header.height == self.chain_spec().len(),
                    self.histories() == apply_entries(
                        m0,
                        done + tx_entries(*tx, block.header).take(j as int),
                    ),
                    self.chain_spec() == old(self).chain_spec(),
                    done == block_entries(block.txs@.take(i as int), block.header),
                decreases tx.output_scripts@.len() - j,
            {
                let k = script_hash(&tx.output_scripts[j]);
                self.upsert(k, entry);
                proof {
                    let es = done + tx_entries(*tx, block.header).take(j as int);
                    let es2 = done + tx_entries(*tx, block.header).take(j + 1 as int);
                    assert(es2.drop_last() =~= es);
                    assert(es2.last() == (k, entry));
                }
                j += 1;
            }
            proof {
                let te = tx_entries(*tx, block.header);
                assert(te.take(te.len() as int) =~= te);
                assert(block.txs@.take(i + 1 as int).drop_last() =~= block.txs@.take(i as int));
                assert(block.txs@.take(i + 1 as int).last() == block.txs@[i as int]);
            }
            i += 1;
        }
        proof {
            assert(block.txs@.take(block.txs@.len() as int) =~= block.txs@);
        }
        self.chain.push(block.header);
    }

    /// Record one mempool sighting of `txid` under `script`: an unconfirmed
    /// entry is inserted or refreshed, unless the transaction is already
    /// confirmed there, in which case nothing changes.
    pub fn upsert_unconfirmed(&mut self, script: u64, txid: Hash256)
        requires
            old(self).wf(),
        ensures
            final(self).wf(),
            final(self).histories() == mem_apply_one(old(self).histories(), script, txid),
            final(self).chain_spec() == old(self).chain_spec(),
    {
        let hist = self.get_history(script);
        let mut i: usize = 0;
        while i < hist.len()
            invariant
                old(self).wf(),
                self == old(self),
                i <= hist@.len(),
                hist@ == old(self).hist_or_empty(script),
                forall|j: int|
                    0 <= j < i ==> !((#[trigger] hist@[j]).txid == txid && hist@[j].height > 0),
            decreases hist@.len() - i,
        {
            if hist[i].txid == txid && hist[i].height > 0 {
                return ;
            }
            i += 1;
        }
        proof {
            if has_confirmed(hist@, txid) {
                let j = choose|j: int|
                    0 <= j < hist@.len() && hist@[j].txid == txid && hist@[j].height > 0;
                assert(false);
            }
        }
        self.upsert(script, TxEntry::unconfirmed(txid));
    }

    /// Apply a mempool snapshot: every output script of every mempool
    /// transaction gets an unconfirmed entry, except where the index already
    /// shows the transaction confirmed. The chain and tip stay as they were.
    pub fn apply_mempool(&mut self, txs: &Vec<MempoolTx>)
        requires
            old(self).wf(),
        ensures
            final(self).wf(),
            final(self).histories() == mem_apply(old(self).histories(), mem_entries(txs@)),
            final(self).chain_spec() == old(self).chain_spec(),
    {
        let ghost m0 = old(self).histories();
        let mut i: usize = 0;
        proof {
            assert(mem_entries(txs@.take(0)) =~= Seq::<(u64, Hash256)>::empty());
        }
        while i < txs.len()
            invariant
                self.wf(),
                i <= txs@.len(),
                self.histories() == mem_apply(m0, mem_entries(txs@.take(i as int))),
                self.chain_spec() == old(self).chain_spec(),
            decreases txs@.len() - i,
        {
            let tx = &txs[i];
            let ghost done = mem_entries(txs@.take(i as int));
            let mut j: usize = 0;
            proof {
                assert(done + mem_tx_keys(*tx).take(0) =~= done);
            }
            while j < tx.output_scripts.len()
                invariant
                    self.wf(),
                    j <= tx.output_scripts@.len(),
                    self.histories() == mem_apply(m0, done + mem_tx_keys(*tx).take(j as int)),
                    self.chain_spec() == old(self).chain_spec(),
                    done == mem_entries(txs@.take(i as int)),
                decreases tx.output_scripts@.len() - j,
            {
                let k = script_hash(&tx.output_scripts[j]);
                self.upsert_unconfirmed(k, tx.txid);
                proof {
                    let es = done + mem_tx_keys(*tx).take(j as int);
                    let es2 = done + mem_tx_keys(*tx).take(j + 1 as int);
                    assert(es2.drop_last() =~= es);
                    assert(es2.last() == (k, tx.txid));
                }
                j += 1;
            }
            proof {
                let te = mem_tx_keys(*tx);
                assert(te.take(te.len() as int) =~= te);
                assert(txs@.take(i + 1 as int).drop_last() =~= txs@.take(i as int));
                assert(txs@.take(i + 1 as int).last() == txs@[i as int]);
            }
            i += 1;
        }
        proof {
            assert(txs@.take(txs@.len() as int) =~= txs@);
        }
    }

    /// Roll every history back to height `h`: entries confirmed above `h`
    /// are deleted, unless their transaction is in `observed` (still in the
    /// new chain or the mempool), in which case they are demoted to
    /// unconfirmed. The set of known scripts and the chain are unchanged.
    pub fn remove_after(&mut self, h: u32, observed: &Vec<Hash256>)
        requires
            old(self).wf(),
        ensures
            final(self).wf(),
            final(self).histories().dom() == old(self).histories().dom(),
            forall|k: u64|
                old(self).histories().contains_key(k) ==> final(self).histories()[k]
                    == rollback_seq(old(self).histories()[k], h, observed@),
            final(self).chain_spec() == old(self).chain_spec(),
    {
        let mut new_entries: Vec<(u64, Vec<TxEntry>)> = Vec::new();
        let mut i: usize = 0;
        while i < self.entries.len()
            invariant
                self == old(self),
                i <= self.entries@.len(),
                new_entries@.len() == i,
                forall|p: int|
                    0 <= p < i ==> (#[trigger] new_entries@[p]).0 == self.entries@[p].0,
                forall|p: int|
                    0 <= p < i ==> (#[trigger] new_entries@[p]).1@ == rollback_seq(
                        self.entries@[p].1@,
                        h,
                        observed@,
                    ),
            decreases self.entries@.len() - i,
        {
            let k = self.entries[i].0;
            let hist = &self.entries[i].1;
            let mut nh: Vec<TxEntry> = Vec::new();
            let mut j: usize = 0;
            proof {
                assert(rollback_seq(hist@.take(0), h, observed@) =~= Seq::<TxEntry>::empty());
            }
            while j < hist.len()
                invariant
                    j <= hist@.len(),
                    nh@ == rollback_seq(hist@.take(j as int), h, observed@),
                decreases hist@.len() - j,
            {
                let e = hist[j];
                let ghost prev = nh@;
                if e.height <= h {
                    nh.push(e);
                } else if contains_hash(observed, e.txid) {
                    nh.push(TxEntry::unconfirmed(e.txid));
                }
                proof {
                    assert(hist@.take(j + 1 as int).drop_last() =~= hist@.take(j as int));
                    assert(hist@.take(j + 1 as int).last() == hist@[j as int]);
                    assert(nh@ =~= prev + rollback_entry(e, h, observed@));
                }
                j += 1;
            }
            proof {
                assert(hist@.take(hist@.len() as int) =~= hist@);
            }
            new_entries.push((k, nh));
            i += 1;
        }
        self.entries = new_entries;
        proof {
            let so = old(self).entries@;
            let sn = self.entries@;
            assert(sn.len() == so.len());
            assert forall|a: int, b: int| 0 <= a < b < sn.len() implies sn[a].0 != sn[b].0 by {
                assert(sn[a].0 == so[a].0);
                assert(sn[b].0 == so[b].0);
            }
            assert forall|p: int|
                0 <= p < sn.len() implies history_wf((#[trigger] sn[p]).1@) by {
                lemma_rollback_properties(so[p].1@, h, observed@);
            }
            assert forall|q: u64| assoc_has(sn, q) <==> assoc_has(so, q) by {
                if assoc_has(sn, q) {
                    let p = choose|p: int| 0 <= p < sn.len() && sn[p].0 == q;
                    assert(so[p].0 == q);
                }
                if assoc_has(so, q) {
                    let p = choose|p: int| 0 <= p < so.len() && so[p].0 == q;
                    assert(sn[p].0 == q);
                }
            }
            assert(final(self).histories().dom() =~= old(self).histories().dom());
            assert forall|k: u64|
                old(self).histories().contains_key(k) implies final(self).histories()[k]
                == rollback_seq(old(self).histories()[k], h, observed@) by {
                let p = choose|p: int| 0 <= p < so.len() && so[p].0 == k;
                lemma_assoc_at(so, p);
                lemma_assoc_at(sn, p);
            }
        }
    }

    /// One step of the fork-point search: does the search stop at `probe`?
    /// The genesis height always matches; above it the stored and the
    /// reported block id must agree.
    pub fn fork_found(&self, probe: u32, source_id: &Option<Hash256>) -> (r: bool)
        requires
            self.wf(),
            (probe as int) < self.chain_spec().len(),
        ensures
            r == (probe == 0 || *source_id == Some(self.chain_spec()[probe as int].block_id)),
    {
        if probe == 0 {
            return true;
        }
        match source_id {
            Some(id) => *id == self.chain[probe as usize].block_id,
            None => false,
        }
    }

    /// Undo a reorg: roll the histories back to the fork height and shrink
    /// the chain so that the fork block becomes the tip.
    pub fn rollback_to(&mut self, fork_h: u32, observed: &Vec<Hash256>)
        requires
            old(self).wf(),
            (fork_h as int) < old(self).chain_spec().len(),
        ensures
            final(self).wf(),
            final(self).chain_spec() == old(self).chain_spec().take(fork_h + 1),
            final(self).tip_spec() == old(self).chain_spec()[fork_h as int],
            final(self).tip_spec().height == fork_h,
            final(self).histories().dom() == old(self).histories().dom(),
            forall|k: u64|
                old(self).histories().contains_key(k) ==> final(self).histories()[k]
                    == rollback_seq(old(self).histories()[k], fork_h, observed@),
    {
        self.remove_after(fork_h, observed);
        let keep = fork_h as usize;
        let n = self.chain.len();
        assert(keep < n);
        self.chain.truncate(keep + 1);
        proof {
            assert(self.chain@ =~= old(self).chain_spec().take(fork_h + 1));
            assert(self.chain@[fork_h as int].height == fork_h);
        }
    }
}

fn contains_hash(v: &Vec<Hash256>, t: Hash256) -> (r: bool)
    ensures
        r == seq_has_hash(v@, t),
{
    let mut i: usize = 0;
    while i < v.len()
        invariant
            i <= v@.len(),
            forall|j: int| 0 <= j < i ==> v@[j] != t,
        decreases v@.len() - i,
    {
        if v[i] == t {
            return true;
        }
        i += 1;
    }
    false
}

fn upsert_vec(hist: &mut Vec<TxEntry>, e: TxEntry)
    ensures
        final(hist)@ == upsert_seq(old(hist)@, e),
{
    let n = hist.len();
    let mut i: usize = 0;
    while i < n
        invariant
            n == hist@.len(),
            i <= n,
            hist@ == old(hist)@,
            forall|j: int| 0 <= j < i ==> (#[trigger] hist@[j]).txid != e.txid,
        decreases n - i,
    {
        if hist[i].txid == e.txid {
            proof {
                lemma_find_txid_first(hist@, e.txid, i as int);
            }
            hist[i] = e;
            return ;
        }
        i += 1;
    }
    proof {
        lemma_find_txid(hist@, e.txid);
        if find_txid(hist@, e.txid) >= 0 {
            assert(hist@[find_txid(hist@, e.txid)].txid == e.txid);
        }
    }
    hist.push(e);
}

proof fn lemma_assoc_remove_push(s: Seq<(u64, Vec<TxEntry>)>, p: int, kv: (u64, Vec<TxEntry>))
    requires
        unique_keys(s),
        0 <= p < s.len(),
        s[p].0 == kv.0,
    ensures
        unique_keys(s.remove(p).push(kv)),
        forall|q: u64| assoc_has(#[trigger] s.remove(p).push(kv), q) <==> assoc_has(s, q),
        assoc_val(s.remove(p).push(kv), kv.0) == kv.1@,
        forall|q: u64|
            q != kv.0 && assoc_has(s, q) ==> assoc_val(#[trigger] s.remove(p).push(kv), q)
                == assoc_val(s, q),
{
    let s2 = s.remove(p).push(kv);
    assert forall|i: int, j: int| 0 <= i < j < s2.len() implies s2[i].0 != s2[j].0 by {
        let oi = if i < p {
            i
        } else {
            i + 1
        };
        if j == s2.len() - 1 {
            assert(s2[i] == s[oi]);
            assert(oi != p);
            if oi < p {
                assert(s[oi].0 != s[p].0);
            } else {
                assert(s[p].0 != s[oi].0);
            }
        } else {
            let oj = if j < p {
                j
            } else {
                j + 1
            };
            assert(s2[i] == s[oi]);
            assert(s2[j] == s[oj]);
        }
    }
    assert forall|q: u64| assoc_has(s2, q) implies assoc_has(s, q) by {
        let i = choose|i: int| 0 <= i < s2.len() && s2[i].0 == q;
        if i == s2.len() - 1 {
            assert(s[p].0 == q);
        } else {
            let oi = if i < p {
                i
            } else {
                i + 1
            };
            assert(s2[i] == s[oi]);
        }
    }
    assert forall|q: u64| assoc_has(s, q) implies assoc_has(s2, q) by {
        let i = choose|i: int| 0 <= i < s.len() && s[i].0 == q;
        if i == p {
            assert(s2[s2.len() - 1].0 == q);
        } else {
            let ni = if i < p {
                i
            } else {
                i - 1
            };
            assert(s2[ni] == s[i]);
        }
    }
    assert(s2[s2.len() - 1] == kv);
    lemma_assoc_at(s2, s2.len() - 1);
    assert forall|q: u64| q != kv.0 && assoc_has(s, q) implies assoc_val(s2, q) == assoc_val(
        s,
        q,
    ) by {
        let i = choose|i: int| 0 <= i < s.len() && s[i].0 == q;
        lemma_assoc_at(s, i);
        assert(i != p);
        let ni = if i < p {
            i
        } else {
            i - 1
        };
        assert(s2[ni] == s[i]);
        lemma_assoc_at(s2, ni);
    }
}

proof fn lemma_assoc_push_new(s: Seq<(u64, Vec<TxEntry>)>, kv: (u64, Vec<TxEntry>))
    requires
        unique_keys(s),
        !assoc_has(s, kv.0),
    ensures
        unique_keys(s.push(kv)),
        forall|q: u64| assoc_has(#[trigger] s.push(kv), q) <==> (assoc_has(s, q) || q == kv.0),
        assoc_val(s.push(kv), kv.0) == kv.1@,
        forall|q: u64|
            q != kv.0 && assoc_has(s, q) ==> assoc_val(#[trigger] s.push(kv), q) == assoc_val(
                s,
                q,
            ),
{
    let s2 = s.push(kv);
    assert forall|i: int, j: int| 0 <= i < j < s2.len() implies s2[i].0 != s2[j].0 by {
        if j == s2.len() - 1 {
            assert(s2[i] == s[i]);
            assert(!(0 <= i < s.len() && s[i].0 == kv.0));
        } else {
            assert(s2[i] == s[i]);
            assert(s2[j] == s[j]);
        }
    }
    assert forall|q: u64| assoc_has(s2, q) implies (assoc_has(s, q) || q == kv.0) by {
        let i = choose|i: int| 0 <= i < s2.len() && s2[i].0 == q;
        if i < s2.len() - 1 {
            assert(s2[i] == s[i]);
        }
    }
    assert forall|q: u64| assoc_has(s, q) implies assoc_has(s2, q) by {
        let i = choose|i: int| 0 <= i < s.len() && s[i].0 == q;
        assert(s2[i] == s[i]);
    }
    assert(s2[s2.len() - 1] == kv);
    lemma_assoc_at(s2, s2.len() - 1);
    assert forall|q: u64| q != kv.0 && assoc_has(s, q) implies assoc_val(s2, q) == assoc_val(
        s,
        q,
    ) by {
        let i = choose|i: int| 0 <= i < s.len() && s[i].0 == q;
        lemma_assoc_at(s, i);
        assert(s2[i] == s[i]);
        lemma_assoc_at(s2, i);
    }
}

} // verus!
