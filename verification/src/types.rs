//! Plain-value data model: block references, transaction entries and the
//! per-script history they form.

use vstd::prelude::*;

verus! {

/// A 256-bit identifier (a transaction id or a block id) held as four
/// 64-bit words, most significant first.
#[derive(Clone, Copy, PartialEq, Eq, Structural, Debug, Hash)]
pub struct Hash256 {
    pub w0: u64,
    pub w1: u64,
    pub w2: u64,
    pub w3: u64,
}

/// Identifies one block unambiguously for reorg comparison.
#[derive(Clone, Copy, PartialEq, Eq, Structural, Debug)]
pub struct BlockRef {
    pub height: u32,
    pub block_id: Hash256,
    pub timestamp: u32,
}

/// One transaction's appearance in a script's history. Height 0 means
/// unconfirmed (mempool); a positive height carries the confirming block's
/// id and timestamp.
#[derive(Clone, Copy, PartialEq, Eq, Debug)]
pub struct TxEntry {
    pub txid: Hash256,
    pub height: u32,
    pub block_hash: Option<Hash256>,
    pub block_timestamp: Option<u32>,
}

impl TxEntry {
    /// The confirmation fields are present exactly when the entry is confirmed.
    pub open spec fn wf(self) -> bool {
        (self.height > 0) <==> (self.block_hash is Some && self.block_timestamp is Some)
    }

    /// Build the entry recording `txid` confirmed in the block `b`.
    pub fn confirmed(txid: Hash256, b: BlockRef) -> (r: TxEntry)
        requires
            b.height > 0,
        ensures
            r == conf_entry(txid, b),
    {
        TxEntry {
            txid,
            height: b.height,
            block_hash: Some(b.block_id),
            block_timestamp: Some(b.timestamp),
        }
    }

    /// Build the entry recording `txid` as seen only in the mempool.
    pub fn unconfirmed(txid: Hash256) -> (r: TxEntry)
        ensures
            r == unconf_entry(txid),
    {
        TxEntry { txid, height: 0, block_hash: None, block_timestamp: None }
    }
}

/// The entry for `txid` confirmed in block `b`.
pub open spec fn conf_entry(txid: Hash256, b: BlockRef) -> TxEntry {
    TxEntry {
        txid,
        height: b.height,
        block_hash: Some(b.block_id),
        block_timestamp: Some(b.timestamp),
    }
}

/// The entry for `txid` while it sits in the mempool.
pub open spec fn unconf_entry(txid: Hash256) -> TxEntry {
    TxEntry { txid, height: 0, block_hash: None, block_timestamp: None }
}

/// `e` stripped of its confirmation: the same transaction, unconfirmed.
pub open spec fn demote(e: TxEntry) -> TxEntry {
    unconf_entry(e.txid)
}

/// Some entry of `s` is for transaction `t`.
pub open spec fn has_txid(s: Seq<TxEntry>, t: Hash256) -> bool {
    exists|i: int| 0 <= i < s.len() && s[i].txid == t
}

/// Some entry of `s` records `t` as confirmed.
pub open spec fn has_confirmed(s: Seq<TxEntry>, t: Hash256) -> bool {
    exists|i: int| 0 <= i < s.len() && s[i].txid == t && s[i].height > 0
}

/// Index of the first entry for `t` in `s`, or -1 when there is none.
pub open spec fn find_txid(s: Seq<TxEntry>, t: Hash256) -> int
    decreases s.len(),
{
    if s.len() == 0 {
        -1
    } else if s[0].txid == t {
        0
    } else {
        let r = find_txid(s.drop_first(), t);
        if r < 0 {
            -1
        } else {
            r + 1
        }
    }
}

/// A history after inserting or updating the entry for `e.txid`: the
/// existing entry for that transaction is replaced in place, otherwise `e`
/// is appended. This is the index's single write primitive.
pub open spec fn upsert_seq(s: Seq<TxEntry>, e: TxEntry) -> Seq<TxEntry> {
    let i = find_txid(s, e.txid);
    if i >= 0 {
        s.update(i, e)
    } else {
        s.push(e)
    }
}

/// A well-formed history: every entry well formed, one entry per txid.
pub open spec fn history_wf(s: Seq<TxEntry>) -> bool {
    &&& forall|i: int| 0 <= i < s.len() ==> (#[trigger] s[i]).wf()
    &&& forall|i: int, j: int| 0 <= i < j < s.len() ==> s[i].txid != s[j].txid
}

pub proof fn lemma_find_txid(s: Seq<TxEntry>, t: Hash256)
    ensures
        find_txid(s, t) >= 0 ==> 0 <= find_txid(s, t) < s.len() && s[find_txid(s, t)].txid == t,
        find_txid(s, t) < 0 ==> !has_txid(s, t),
        find_txid(s, t) >= 0 ==> forall|j: int| 0 <= j < find_txid(s, t) ==> s[j].txid != t,
    decreases s.len(),
{
    if s.len() == 0 {
    } else if s[0].txid == t {
    } else {
        lemma_find_txid(s.drop_first(), t);
        let r = find_txid(s.drop_first(), t);
        if r < 0 {
            assert forall|i: int| 0 <= i < s.len() implies s[i].txid != t by {
                if i > 0 {
                    assert(s.drop_first()[i - 1] == s[i]);
                    assert(!has_txid(s.drop_first(), t));
                }
            }
        } else {
            assert(s.drop_first()[r] == s[r + 1]);
            assert forall|j: int| 0 <= j < r + 1 implies s[j].txid != t by {
                if j > 0 {
                    assert(s.drop_first()[j - 1] == s[j]);
                }
            }
        }
    }
}

/// `t` occurs in `obs`.
pub open spec fn seq_has_hash(obs: Seq<Hash256>, t: Hash256) -> bool {
    exists|i: int| 0 <= i < obs.len() && obs[i] == t
}

/// What one entry becomes when the chain is rolled back to height `h`:
/// entries at or below `h` are untouched; an entry confirmed above `h` sat
/// in a reorged-away block, and survives as unconfirmed only if its
/// transaction is still observed (in the new chain or the mempool),
/// otherwise it disappears.
pub open spec fn rollback_entry(e: TxEntry, h: u32, obs: Seq<Hash256>) -> Seq<TxEntry> {
    if e.height <= h {
        seq![e]
    } else if seq_has_hash(obs, e.txid) {
        seq![demote(e)]
    } else {
        Seq::empty()
    }
}

/// A whole history rolled back to height `h`, order preserved.
pub open spec fn rollback_seq(s: Seq<TxEntry>, h: u32, obs: Seq<Hash256>) -> Seq<TxEntry>
    decreases s.len(),
{
    if s.len() == 0 {
        Seq::empty()
    } else {
        rollback_seq(s.drop_last(), h, obs) + rollback_entry(s.last(), h, obs)
    }
}

/// The reorg law, per history: after a rollback to fork height `h` no entry
/// confirmed above `h` remains; entries at or below `h` are preserved; a
/// reorged entry whose transaction is still observed survives, demoted to
/// unconfirmed; and no transaction appears that was not there before.
pub proof fn lemma_rollback_properties(s: Seq<TxEntry>, h: u32, obs: Seq<Hash256>)
    requires
        history_wf(s),
    ensures
        history_wf(rollback_seq(s, h, obs)),
        forall|i: int|
            0 <= i < rollback_seq(s, h, obs).len() ==> (#[trigger] rollback_seq(s, h, obs)[i]).height
                <= h,
        forall|i: int|
            0 <= i < s.len() && (#[trigger] s[i]).height <= h ==> rollback_seq(s, h, obs).contains(
                s[i],
            ),
        forall|i: int|
            0 <= i < s.len() && (#[trigger] s[i]).height > h && seq_has_hash(obs, s[i].txid)
                ==> rollback_seq(s, h, obs).contains(demote(s[i])),
        forall|t: Hash256| has_txid(rollback_seq(s, h, obs), t) ==> has_txid(s, t),
    decreases s.len(),
{
    let r = rollback_seq(s, h, obs);
    if s.len() == 0 {
    } else {
        let s0 = s.drop_last();
        let e = s.last();
        assert(history_wf(s0)) by {
            assert(forall|i: int| 0 <= i < s0.len() ==> s0[i] == s[i]);
        }
        lemma_rollback_properties(s0, h, obs);
        let r0 = rollback_seq(s0, h, obs);
        let c = rollback_entry(e, h, obs);
        assert(r == r0 + c);
        assert forall|t: Hash256| has_txid(r, t) implies has_txid(s, t) by {
            let i = choose|i: int| 0 <= i < r.len() && r[i].txid == t;
            if i < r0.len() {
                assert(r0[i] == r[i]);
                assert(has_txid(s0, t));
                let j = choose|j: int| 0 <= j < s0.len() && s0[j].txid == t;
                assert(s[j].txid == t);
            } else {
                assert(r[i].txid == e.txid);
                assert(s[s.len() - 1].txid == t);
            }
        }
        assert(history_wf(r)) by {
            assert forall|a: int, b: int| 0 <= a < b < r.len() implies r[a].txid != r[b].txid by {
                if b < r0.len() {
                } else {
                    assert(b >= r0.len());
                    assert(r[b].txid == e.txid);
                    if a < r0.len() {
                        if r[a].txid == e.txid {
                            assert(has_txid(r0, e.txid));
                            assert(has_txid(s0, e.txid));
                            let j = choose|j: int| 0 <= j < s0.len() && s0[j].txid == e.txid;
                            assert(s[j].txid == s[s.len() - 1].txid);
                            assert(false);
                        }
                    } else {
                        assert(c.len() >= 2);
                        assert(false);
                    }
                }
            }
            assert forall|i: int| 0 <= i < r.len() implies (#[trigger] r[i]).wf() by {
                if i >= r0.len() {
                    assert(r[i] == c[i - r0.len()]);
                    assert(s[s.len() - 1].wf());
                }
            }
        }
        assert forall|i: int|
            0 <= i < s.len() && (#[trigger] s[i]).height <= h implies r.contains(s[i]) by {
            if i < s.len() - 1 {
                assert(s0[i] == s[i]);
                assert(r0.contains(s[i]));
                let j = choose|j: int| 0 <= j < r0.len() && r0[j] == s[i];
                assert(r[j] == s[i]);
            } else {
                assert(c[0] == e);
                assert(r[r0.len() as int] == e);
            }
        }
        assert forall|i: int|
            0 <= i < s.len() && (#[trigger] s[i]).height > h && seq_has_hash(
                obs,
                s[i].txid,
            ) implies r.contains(demote(s[i])) by {
            if i < s.len() - 1 {
                assert(s0[i] == s[i]);
                assert(r0.contains(demote(s[i])));
                let j = choose|j: int| 0 <= j < r0.len() && r0[j] == demote(s[i]);
                assert(r[j] == demote(s[i]));
            } else {
                assert(c[0] == demote(e));
                assert(r[r0.len() as int] == demote(e));
            }
        }
    }
}

/// Upserting a well-formed entry keeps a history well formed: replacement
/// leaves the txids as they were, appending adds a txid not yet present.
pub proof fn lemma_upsert_wf(s: Seq<TxEntry>, e: TxEntry)
    requires
        history_wf(s),
        e.wf(),
    ensures
        history_wf(upsert_seq(s, e)),
{
    lemma_find_txid(s, e.txid);
    let i = find_txid(s, e.txid);
    if i >= 0 {
        let s2 = s.update(i, e);
        assert forall|a: int, b: int| 0 <= a < b < s2.len() implies s2[a].txid != s2[b].txid by {
            assert(s2[a].txid == s[a].txid);
            assert(s2[b].txid == s[b].txid);
        }
    } else {
        let s2 = s.push(e);
        assert forall|a: int, b: int| 0 <= a < b < s2.len() implies s2[a].txid != s2[b].txid by {
            if b == s2.len() - 1 {
                assert(s2[a] == s[a]);
                assert(!has_txid(s, e.txid));
            }
        }
    }
}

/// An upsert leaves its entry in the history.
pub proof fn lemma_upsert_present(s: Seq<TxEntry>, e: TxEntry)
    ensures
        exists|i: int| 0 <= i < upsert_seq(s, e).len() && upsert_seq(s, e)[i] == e,
        has_txid(upsert_seq(s, e), e.txid),
{
    lemma_find_txid(s, e.txid);
    let i = find_txid(s, e.txid);
    if i >= 0 {
        assert(upsert_seq(s, e)[i] == e);
    } else {
        assert(upsert_seq(s, e)[s.len() as int] == e);
    }
}

/// Upserting an entry the history already holds, at its first position for
/// that txid, changes nothing.
pub proof fn lemma_upsert_noop(s: Seq<TxEntry>, e: TxEntry, i: int)
    requires
        0 <= i < s.len(),
        s[i] == e,
        forall|j: int| 0 <= j < i ==> s[j].txid != e.txid,
    ensures
        upsert_seq(s, e) == s,
{
    lemma_find_txid_first(s, e.txid, i);
    assert(upsert_seq(s, e) =~= s);
}

/// In a history with unique txids, upserting any entry already present is
/// a no-op.
pub proof fn lemma_upsert_absorbed(s: Seq<TxEntry>, e: TxEntry)
    requires
        history_wf(s),
        exists|i: int| 0 <= i < s.len() && s[i] == e,
    ensures
        upsert_seq(s, e) == s,
{
    let i = choose|i: int| 0 <= i < s.len() && s[i] == e;
    assert forall|j: int| 0 <= j < i implies s[j].txid != e.txid by {
        assert(s[j].txid != s[i].txid);
    }
    lemma_upsert_noop(s, e, i);
}

/// An upsert keeps every entry that either has another txid or equals the
/// upserted entry itself.
pub proof fn lemma_upsert_keeps_entry(s: Seq<TxEntry>, e: TxEntry, x: TxEntry)
    requires
        history_wf(s),
        exists|i: int| 0 <= i < s.len() && s[i] == x,
        x.txid == e.txid ==> x == e,
    ensures
        exists|i: int| 0 <= i < upsert_seq(s, e).len() && upsert_seq(s, e)[i] == x,
{
    let i = choose|i: int| 0 <= i < s.len() && s[i] == x;
    lemma_find_txid(s, e.txid);
    let p = find_txid(s, e.txid);
    if p >= 0 {
        if i == p {
            assert(s[p].txid == e.txid);
            assert(upsert_seq(s, e)[p] == e);
        } else {
            assert(upsert_seq(s, e)[i] == x);
        }
    } else {
        assert(upsert_seq(s, e)[i] == x);
    }
}

/// The mempool-to-block promotion law: recording a transaction unconfirmed
/// and then confirmed replaces the entry in place. The history stays well
/// formed, holds the confirmed entry, and the confirmation adds nothing:
/// there is never a second entry for the txid.
pub proof fn lemma_confirm_replaces_unconfirmed(s: Seq<TxEntry>, txid: Hash256, b: BlockRef)
    requires
        history_wf(s),
        b.height > 0,
    ensures
        ({
            let s1 = upsert_seq(s, unconf_entry(txid));
            let s2 = upsert_seq(s1, conf_entry(txid, b));
            &&& history_wf(s2)
            &&& exists|i: int| 0 <= i < s2.len() && s2[i] == conf_entry(txid, b)
            &&& s2.len() == s1.len()
        }),
{
    let e1 = unconf_entry(txid);
    let e2 = conf_entry(txid, b);
    let s1 = upsert_seq(s, e1);
    let s2 = upsert_seq(s1, e2);
    lemma_upsert_wf(s, e1);
    lemma_upsert_wf(s1, e2);
    lemma_upsert_present(s1, e2);
    lemma_upsert_present(s, e1);
    lemma_find_txid(s1, txid);
    assert(find_txid(s1, txid) >= 0);
}

/// The first occurrence is pinned by its witnesses: if `s[i]` is for `t` and
/// nothing before it is, then `find_txid` lands on `i`.
pub proof fn lemma_find_txid_first(s: Seq<TxEntry>, t: Hash256, i: int)
    requires
        0 <= i < s.len(),
        s[i].txid == t,
        forall|j: int| 0 <= j < i ==> s[j].txid != t,
    ensures
        find_txid(s, t) == i,
    decreases s.len(),
{
    if i == 0 {
    } else {
        assert(s[0].txid != t);
        assert(s.drop_first()[i - 1] == s[i]);
        assert forall|j: int| 0 <= j < i - 1 implies s.drop_first()[j].txid != t by {
            assert(s.drop_first()[j] == s[j + 1]);
        }
        lemma_find_txid_first(s.drop_first(), t, i - 1);
    }
}

} // verus!
