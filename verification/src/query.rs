//! The query engine: page a descriptor's derivation indices, look every
//! derived script's history up, and assemble the per-branch waterfall
//! response. Queries only read the index; identical requests against the
//! same index state give identical responses.

use vstd::prelude::*;

use crate::index::ScriptIndex;
use crate::script_hash::{fnv1a, script_hash};
use crate::types::TxEntry;
use crate::Error;

verus! {

/// The derivation indices of page `p` with batch size `b`: the `b` indices
/// starting at `p * b`, in order.
pub open spec fn page_indices(p: int, b: int) -> Seq<int> {
    Seq::new(b as nat, |i: int| p * b + i)
}

/// Pages 0 through `k` concatenated.
pub open spec fn pages_concat(k: int, b: int) -> Seq<int>
    decreases k + 1,
{
    if k < 0 {
        Seq::empty()
    } else {
        pages_concat(k - 1, b) + page_indices(k, b)
    }
}

/// The pagination law: the concatenation of pages 0..=k is exactly the
/// first (k+1)*b derivation indices, in order — no gap, no duplicate.
pub proof fn lemma_pagination_exact(k: int, b: int)
    requires
        k >= -1,
        b >= 0,
    ensures
        pages_concat(k, b) == Seq::new(((k + 1) * b) as nat, |j: int| j),
    decreases k + 1,
{
    if k < 0 {
        assert((k + 1) * b == 0);
        assert(pages_concat(k, b) =~= Seq::new(((k + 1) * b) as nat, |j: int| j));
    } else {
        lemma_pagination_exact(k - 1, b);
        assert((k + 1) * b == k * b + b) by (nonlinear_arith);
        assert(k * b >= 0) by (nonlinear_arith)
            requires
                k >= 0,
                b >= 0,
        ;
        assert(pages_concat(k, b) =~= Seq::new(((k + 1) * b) as nat, |j: int| j));
    }
}

/// Compute one page of derivation indices, `[page*batch, page*batch + batch)`.
/// Fails exactly when the page would run past the 32-bit derivation space.
pub fn derivation_indices(page: u32, batch: u32) -> (r: Result<Vec<u32>, Error>)
    ensures
        match r {
            Ok(v) => {
                &&& (page as int) * (batch as int) + (batch as int) <= u32::MAX as int + 1
                &&& v@.len() == batch as int
                &&& forall|i: int|
                    0 <= i < batch as int ==> (#[trigger] v@[i]) as int == (page as int) * (
                    batch as int) + i
            },
            Err(e) => {
                &&& e == Error::PageOverflow
                &&& (page as int) * (batch as int) + (batch as int) > u32::MAX as int + 1
            },
        },
{
    proof {
        let p = page as int;
        let b = batch as int;
        assert(p * b + b <= 0xffffffff * 0xffffffff + 0xffffffff) by (nonlinear_arith)
            requires
                0 <= p <= 0xffffffff,
                0 <= b <= 0xffffffff,
        ;
    }
    let start: u64 = (page as u64) * (batch as u64);
    let end: u64 = start + (batch as u64);
    if end > (u32::MAX as u64) + 1 {
        return Err(Error::PageOverflow);
    }
    let mut v: Vec<u32> = Vec::new();
    let mut i: u32 = 0;
    while i < batch
        invariant
            start == (page as u64) * (batch as u64),
            start + (batch as u64) <= u32::MAX as u64 + 1,
            i <= batch,
            v@.len() == i as int,
            forall|j: int| 0 <= j < i as int ==> (#[trigger] v@[j]) as int == start as int + j,
        decreases batch - i,
    {
        assert(start + (i as u64) <= u32::MAX as u64);
        v.push((start as u32) + i);
        i += 1;
    }
    Ok(v)
}

/// One branch's row holds a non-empty history somewhere.
pub open spec fn branch_non_empty(row: Seq<Vec<TxEntry>>) -> bool {
    exists|i: int| 0 <= i < row.len() && row[i]@.len() > 0
}

/// How many branches hold at least one non-empty history.
pub open spec fn count_non_empty_spec(rows: Seq<(u32, Vec<Vec<TxEntry>>)>) -> int
    decreases rows.len(),
{
    if rows.len() == 0 {
        0
    } else {
        count_non_empty_spec(rows.drop_last()) + if branch_non_empty(rows.last().1@) {
            1int
        } else {
            0int
        }
    }
}

/// The paginated answer to one descriptor query: for every derivation
/// branch, the history of each derived script of the requested page, in
/// derivation order.
pub struct WaterfallResponse {
    pub page: u32,
    pub txs_seen: Vec<(u32, Vec<Vec<TxEntry>>)>,
}

impl WaterfallResponse {
    /// Every history of every branch is empty.
    pub open spec fn spec_is_empty(self) -> bool {
        forall|b: int, i: int|
            0 <= b < self.txs_seen@.len() && 0 <= i < self.txs_seen@[b].1@.len() ==> (
            #[trigger] self.txs_seen@[b].1@[i])@.len() == 0
    }

    /// True exactly when no branch saw any transaction.
    pub fn is_empty(&self) -> (r: bool)
        ensures
            r == self.spec_is_empty(),
    {
        let mut b: usize = 0;
        while b < self.txs_seen.len()
            invariant
                b <= self.txs_seen@.len(),
                forall|p: int, i: int|
                    0 <= p < b as int && 0 <= i < self.txs_seen@[p].1@.len() ==> (
                    #[trigger] self.txs_seen@[p].1@[i])@.len() == 0,
            decreases self.txs_seen@.len() - b,
        {
            if row_non_empty(&self.txs_seen[b].1) {
                return false;
            }
            b += 1;
        }
        true
    }

    /// How many branches hold at least one non-empty history.
    pub fn count_non_empty(&self) -> (r: usize)
        ensures
            r as int == count_non_empty_spec(self.txs_seen@),
    {
        let mut count: usize = 0;
        let mut b: usize = 0;
        proof {
            assert(self.txs_seen@.take(0) =~= Seq::<(u32, Vec<Vec<TxEntry>>)>::empty());
        }
        while b < self.txs_seen.len()
            invariant
                b <= self.txs_seen@.len(),
                count as int == count_non_empty_spec(self.txs_seen@.take(b as int)),
                count <= b,
            decreases self.txs_seen@.len() - b,
        {
            let add = row_non_empty(&self.txs_seen[b].1);
            if add {
                count += 1;
            }
            proof {
                assert(self.txs_seen@.take(b + 1 as int).drop_last() =~= self.txs_seen@.take(
                    b as int,
                ));
                assert(self.txs_seen@.take(b + 1 as int).last() == self.txs_seen@[b as int]);
            }
            b += 1;
        }
        proof {
            assert(self.txs_seen@.take(self.txs_seen@.len() as int) =~= self.txs_seen@);
        }
        count
    }
}

fn row_non_empty(row: &Vec<Vec<TxEntry>>) -> (r: bool)
    ensures
        r == branch_non_empty(row@),
{
    let mut i: usize = 0;
    while i < row.len()
        invariant
            i <= row@.len(),
            forall|j: int| 0 <= j < i ==> (#[trigger] row@[j])@.len() == 0,
        decreases row@.len() - i,
    {
        if row[i].len() > 0 {
            return true;
        }
        i += 1;
    }
    false
}

/// Assemble the waterfall for `page`: `branches` carries, per branch, the
/// scripts derived for this page's indices, in derivation order; the
/// response pairs every branch with the stored history of each script.
pub fn waterfall(index: &ScriptIndex, branches: &Vec<(u32, Vec<Vec<u8>>)>, page: u32) -> (r:
    WaterfallResponse)
    requires
        index.wf(),
    ensures
        r.page == page,
        r.txs_seen@.len() == branches@.len(),
        forall|b: int|
            0 <= b < branches@.len() ==> (#[trigger] r.txs_seen@[b]).0 == branches@[b].0,
        forall|b: int|
            0 <= b < branches@.len() ==> (#[trigger] r.txs_seen@[b]).1@.len()
                == branches@[b].1@.len(),
        forall|b: int, i: int|
            0 <= b < branches@.len() && 0 <= i < branches@[b].1@.len() ==> (
            #[trigger] r.txs_seen@[b].1@[i])@ == index.hist_or_empty(fnv1a(branches@[b].1@[i]@)),
{
    let mut txs_seen: Vec<(u32, Vec<Vec<TxEntry>>)> = Vec::new();
    let mut b: usize = 0;
    while b < branches.len()
        invariant
            index.wf(),
            b <= branches@.len(),
            txs_seen@.len() == b as int,
            forall|p: int| 0 <= p < b as int ==> (#[trigger] txs_seen@[p]).0 == branches@[p].0,
            forall|p: int|
                0 <= p < b as int ==> (#[trigger] txs_seen@[p]).1@.len() == branches@[p].1@.len(),
            forall|p: int, i: int|
                0 <= p < b as int && 0 <= i < branches@[p].1@.len() ==> (
                #[trigger] txs_seen@[p].1@[i])@ == index.hist_or_empty(fnv1a(branches@[p].1@[i]@)),
        decreases branches@.len() - b,
    {
        let branch = &branches[b];
        let mut row: Vec<Vec<TxEntry>> = Vec::new();
        let mut i: usize = 0;
        while i < branch.1.len()
            invariant
                index.wf(),
                b < branches@.len(),
                branch == &branches@[b as int],
                i <= branch.1@.len(),
                row@.len() == i as int,
                forall|j: int|
                    0 <= j < i as int ==> (#[trigger] row@[j])@ == index.hist_or_empty(
                        fnv1a(branch.1@[j]@),
                    ),
            decreases branch.1@.len() - i,
        {
            let h = index.get_history(script_hash(&branch.1[i]));
            row.push(h);
            i += 1;
        }
        txs_seen.push((branch.0, row));
        b += 1;
    }
    WaterfallResponse { page, txs_seen }
}

/// The numeric value of a decimal digit string, most significant first.
pub open spec fn dec_val(s: Seq<u8>) -> int
    decreases s.len(),
{
    if s.len() == 0 {
        0
    } else {
        dec_val(s.drop_last()) * 10 + (s.last() - 48)
    }
}

/// Every byte is an ASCII digit.
pub open spec fn all_digits(s: Seq<u8>) -> bool {
    forall|i: int| 0 <= i < s.len() ==> 48 <= #[trigger] s[i] <= 57
}

proof fn lemma_dec_val_nonneg(s: Seq<u8>)
    requires
        all_digits(s),
    ensures
        dec_val(s) >= 0,
    decreases s.len(),
{
    if s.len() > 0 {
        assert(all_digits(s.drop_last())) by {
            assert(forall|i: int| 0 <= i < s.len() - 1 ==> s.drop_last()[i] == s[i]);
        }
        lemma_dec_val_nonneg(s.drop_last());
    }
}

proof fn lemma_dec_val_prefix(s: Seq<u8>, i: int)
    requires
        all_digits(s),
        0 <= i <= s.len(),
    ensures
        dec_val(s.take(i)) <= dec_val(s),
    decreases s.len() - i,
{
    if i == s.len() {
        assert(s.take(i) =~= s);
    } else {
        assert(s.take(i + 1).drop_last() =~= s.take(i));
        assert(s.take(i + 1).last() == s[i]);
        assert(all_digits(s.take(i))) by {
            assert(forall|j: int| 0 <= j < i ==> s.take(i)[j] == s[j]);
        }
        lemma_dec_val_nonneg(s.take(i));
        assert(dec_val(s.take(i)) <= dec_val(s.take(i + 1)));
        lemma_dec_val_prefix(s, i + 1);
    }
}

/// Parse a page parameter: a nonempty decimal string whose value fits in
/// 32 bits. Anything else is rejected.
pub fn parse_page(s: &Vec<u8>) -> (r: Option<u32>)
    ensures
        match r {
            Some(v) => s@.len() > 0 && all_digits(s@) && dec_val(s@) == v as int,
            None => s@.len() == 0 || !all_digits(s@) || dec_val(s@) > u32::MAX as int,
        },
{
    if s.len() == 0 {
        return None;
    }
    let mut acc: u64 = 0;
    let mut i: usize = 0;
    proof {
        assert(s@.take(0) =~= Seq::<u8>::empty());
    }
    while i < s.len()
        invariant
            i <= s@.len(),
            s@.len() > 0,
            all_digits(s@.take(i as int)),
            acc as int == dec_val(s@.take(i as int)),
            acc <= u32::MAX as u64,
        decreases s@.len() - i,
    {
        let c = s[i];
        if c < 48 || c > 57 {
            return None;
        }
        let next = acc * 10 + ((c - 48) as u64);
        proof {
            assert(s@.take(i + 1 as int).drop_last() =~= s@.take(i as int));
            assert(s@.take(i + 1 as int).last() == s@[i as int]);
            assert(all_digits(s@.take(i + 1 as int))) by {
                assert(forall|j: int|
                    0 <= j < i + 1 ==> s@.take(i + 1 as int)[j] == s@[j]);
            }
        }
        if next > u32::MAX as u64 {
            proof {
                if all_digits(s@) {
                    lemma_dec_val_prefix(s@, i + 1);
                }
            }
            return None;
        }
        acc = next;
        i += 1;
    }
    proof {
        assert(s@.take(s@.len() as int) =~= s@);
    }
    Some(acc as u32)
}

} // verus!
