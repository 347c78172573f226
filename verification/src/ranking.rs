//! The short list of the most promising moves, kept in a `smallvec::SmallVec`.
//!
//! Verus cannot look inside a `SmallVec`. What the list holds is named by
//! [`ranked_view`], and each method of `SmallVec` that the ranking calls is
//! reached through one function here whose contract is taken on trust from
//! the `smallvec` crate.

use vstd::prelude::*;
use smallvec::SmallVec;
use crate::compact_board::CompactMove;

verus! {

/// How many moves the search keeps for a closer look.
pub const TOP_N: usize = 14;

/// A list of scored moves in a `SmallVec` with room for fifteen before it
/// spills to the heap. Its entries are hidden from the verifier and spoken
/// of through [`ranked_view`] alone.
#[verifier::external_body]
#[derive(Debug)]
pub struct Ranked {
    items: SmallVec<[(i64, CompactMove); 15]>,
}

/// The entries of the list, first entry first.
pub uninterp spec fn ranked_view(r: Ranked) -> Seq<(i64, CompactMove)>;

/// `SmallVec::new`: an empty list.
#[verifier::external_body]
pub(crate) fn ranked_new() -> (r: Ranked)
    ensures
        ranked_view(r) == Seq::<(i64, CompactMove)>::empty(),
{
    Ranked { items: SmallVec::new() }
}

/// `SmallVec::len`: the number of entries.
#[verifier::external_body]
pub(crate) fn ranked_len(r: &Ranked) -> (n: usize)
    ensures
        n == ranked_view(*r).len(),
{
    r.items.len()
}

/// Indexing a `SmallVec`: a copy of the entry at `i`. The crate panics on
/// an index that is not below the length.
#[verifier::external_body]
pub(crate) fn ranked_get(r: &Ranked, i: usize) -> (e: (i64, CompactMove))
    requires
        i < ranked_view(*r).len(),
    ensures
        e == ranked_view(*r)[i as int],
{
    r.items[i]
}

/// `SmallVec::insert(index, element)`: puts the element at `index` and
/// moves every entry from there on one place back. The crate panics on an
/// index above the length.
#[verifier::external_body]
pub(crate) fn ranked_insert(r: &mut Ranked, index: usize, element: (i64, CompactMove))
    requires
        index <= ranked_view(*old(r)).len(),
    ensures
        ranked_view(*final(r)) == ranked_view(*old(r)).insert(index as int, element),
{
    r.items.insert(index, element)
}

/// `SmallVec::truncate(len)`: keeps the first `len` entries and drops the
/// rest; a list that is no longer than `len` stays as it is.
#[verifier::external_body]
pub(crate) fn ranked_truncate(r: &mut Ranked, len: usize)
    ensures
        ranked_view(*final(r)) == if len < ranked_view(*old(r)).len() {
            ranked_view(*old(r)).subrange(0, len as int)
        } else {
            ranked_view(*old(r))
        },
{
    r.items.truncate(len)
}

/// Whether the scores never rise along the list.
pub open spec fn sorted_desc(s: Seq<(i64, CompactMove)>) -> bool {
    forall|i: int, j: int| 0 <= i <= j < s.len() ==> (#[trigger] s[i]).0 >= (#[trigger] s[j]).0
}

/// The first index from `k` on whose entry scores below `score`, or the
/// length if there is none.
pub open spec fn first_below(s: Seq<(i64, CompactMove)>, score: i64, k: int) -> int
    decreases s.len() - k,
{
    if k < 0 || k >= s.len() || s[k].0 < score {
        k
    } else {
        first_below(s, score, k + 1)
    }
}

/// Where a new entry with `score` goes: behind every entry that scores at
/// least as much, so that among equal scores the earlier entry stays in front.
pub open spec fn rank_pos(s: Seq<(i64, CompactMove)>, score: i64) -> int {
    first_below(s, score, 0)
}

/// The list with `item` put in its place and cut back to the best fourteen.
pub open spec fn rank_insert(s: Seq<(i64, CompactMove)>, item: (i64, CompactMove)) -> Seq<
    (i64, CompactMove),
> {
    let t = s.insert(rank_pos(s, item.0), item);
    if t.len() > TOP_N {
        t.subrange(0, TOP_N as int)
    } else {
        t
    }
}

/// The best fourteen of the first `n` items, best first; among equal scores
/// the item that came first stays in front.
pub open spec fn top_n_spec(items: Seq<(i64, CompactMove)>, n: int) -> Seq<(i64, CompactMove)>
    decreases n,
{
    if n <= 0 {
        Seq::empty()
    } else {
        rank_insert(top_n_spec(items, n - 1), items[n - 1])
    }
}

proof fn lemma_first_below(s: Seq<(i64, CompactMove)>, score: i64, k: int, i: int)
    requires
        0 <= k <= i <= s.len(),
        forall|j: int| k <= j < i ==> (#[trigger] s[j]).0 >= score,
        i == s.len() || s[i].0 < score,
    ensures
        first_below(s, score, k) == i,
    decreases i - k,
{
    if k < i {
        assert(s[k].0 >= score);
        lemma_first_below(s, score, k + 1, i);
    }
}

proof fn lemma_rank_pos(s: Seq<(i64, CompactMove)>, score: i64)
    requires
        sorted_desc(s),
    ensures
        0 <= rank_pos(s, score) <= s.len(),
        forall|j: int| 0 <= j < rank_pos(s, score) ==> (#[trigger] s[j]).0 >= score,
        forall|j: int| rank_pos(s, score) <= j < s.len() ==> (#[trigger] s[j]).0 < score,
{
    lemma_first_below_range(s, score, 0);
    let p = rank_pos(s, score);
    assert forall|j: int| p <= j < s.len() implies (#[trigger] s[j]).0 < score by {
        assert(s[p].0 >= s[j].0);
    }
}

proof fn lemma_first_below_range(s: Seq<(i64, CompactMove)>, score: i64, k: int)
    requires
        0 <= k <= s.len(),
    ensures
        k <= first_below(s, score, k) <= s.len(),
        forall|j: int| k <= j < first_below(s, score, k) ==> (#[trigger] s[j]).0 >= score,
        first_below(s, score, k) == s.len() || s[first_below(s, score, k)].0 < score,
    decreases s.len() - k,
{
    if k < s.len() && s[k].0 >= score {
        lemma_first_below_range(s, score, k + 1);
    }
}

/// Whether the ranking has kept `x`, or is full of entries that score at
/// least as much as `x`.
pub open spec fn kept_or_beaten(r: Seq<(i64, CompactMove)>, x: (i64, CompactMove)) -> bool {
    r.contains(x) || (r.len() == TOP_N && x.0 <= r.last().0)
}

proof fn lemma_insert_sorted(s: Seq<(i64, CompactMove)>, item: (i64, CompactMove))
    requires
        sorted_desc(s),
    ensures
        0 <= rank_pos(s, item.0) <= s.len(),
        sorted_desc(s.insert(rank_pos(s, item.0), item)),
        s.insert(rank_pos(s, item.0), item)[rank_pos(s, item.0)] == item,
        forall|k: int|
            0 <= k < rank_pos(s, item.0) ==> #[trigger] s.insert(rank_pos(s, item.0), item)[k]
                == s[k],
        forall|k: int|
            rank_pos(s, item.0) < k <= s.len() ==> #[trigger] s.insert(rank_pos(s, item.0), item)[k]
                == s[k - 1],
{
    lemma_rank_pos(s, item.0);
    let p = rank_pos(s, item.0);
    let t = s.insert(p, item);
    assert forall|i: int, j: int| 0 <= i <= j < t.len() implies (#[trigger] t[i]).0 >= (
    #[trigger] t[j]).0 by {
        if i < p {
            assert(t[i] == s[i]);
        } else if i > p {
            assert(t[i] == s[i - 1]);
        }
        if j < p {
            assert(t[j] == s[j]);
        } else if j > p {
            assert(t[j] == s[j - 1]);
        }
    }
}

/// Putting an item in its place keeps the list sorted and within its limit,
/// and every entry of the new list is the item or an entry of the old one.
pub proof fn lemma_rank_insert(s: Seq<(i64, CompactMove)>, item: (i64, CompactMove))
    requires
        sorted_desc(s),
    ensures
        sorted_desc(rank_insert(s, item)),
        rank_insert(s, item).len() <= TOP_N,
        rank_insert(s, item).len() <= s.len() + 1,
        forall|k: int|
            0 <= k < rank_insert(s, item).len() ==> #[trigger] rank_insert(s, item)[k] == item
                || s.contains(rank_insert(s, item)[k]),
{
    lemma_insert_sorted(s, item);
    let p = rank_pos(s, item.0);
    let t = s.insert(p, item);
    let r = rank_insert(s, item);
    assert forall|k: int| 0 <= k < r.len() implies #[trigger] r[k] == item || s.contains(r[k]) by {
        assert(r[k] == t[k]);
        if k < p {
            assert(t[k] == s[k]);
        } else if k > p {
            assert(t[k] == s[k - 1]);
        }
    }
    assert forall|i: int, j: int| 0 <= i <= j < r.len() implies (#[trigger] r[i]).0 >= (
    #[trigger] r[j]).0 by {
        assert(r[i] == t[i]);
        assert(r[j] == t[j]);
    }
}

/// Putting an item in its place in a ranking within its limit makes the
/// ranking one longer, up to the limit. The item and every old entry are
/// kept, or the new ranking is full of entries that score at least as
/// much; and the last entry of a full ranking never scores less afterwards.
pub proof fn lemma_rank_insert_keeps(s: Seq<(i64, CompactMove)>, item: (i64, CompactMove))
    requires
        sorted_desc(s),
        s.len() <= TOP_N,
    ensures
        rank_insert(s, item).len() == if s.len() < TOP_N {
            s.len() + 1
        } else {
            TOP_N as nat
        },
        kept_or_beaten(rank_insert(s, item), item),
        forall|j: int| 0 <= j < s.len() ==> kept_or_beaten(rank_insert(s, item), #[trigger] s[j]),
        s.len() == TOP_N ==> rank_insert(s, item).last().0 >= s.last().0,
{
    lemma_insert_sorted(s, item);
    let p = rank_pos(s, item.0);
    let t = s.insert(p, item);
    let r = rank_insert(s, item);
    let last = r.len() - 1;
    assert forall|k: int| 0 <= k < t.len() implies kept_or_beaten(r, #[trigger] t[k]) by {
        if k < r.len() {
            assert(r[k] == t[k]);
        } else {
            assert(r[last] == t[last]);
            assert(t[last].0 >= t[k].0);
        }
    }
    assert(t[p] == item);
    assert forall|j: int| 0 <= j < s.len() implies kept_or_beaten(r, #[trigger] s[j]) by {
        if j < p {
            assert(t[j] == s[j]);
        } else {
            assert(t[j + 1] == s[j]);
        }
    }
    if s.len() == TOP_N {
        assert(r[last] == t[last]);
        lemma_rank_pos(s, item.0);
        if p > last {
            assert(t[last] == s[last]);
            assert(s[last].0 >= s[s.len() - 1].0);
        } else if p == last {
            assert(t[last] == item);
        } else {
            assert(t[last] == s[last - 1]);
            assert(s[last - 1].0 >= s[s.len() - 1].0);
        }
    }
}

/// The ranking is sorted and each of its entries is one of the items. It
/// holds fourteen entries, or all the items if they are fewer. Every item
/// is kept unless the ranking is full of entries that score at least as
/// much.
pub proof fn lemma_top_n(items: Seq<(i64, CompactMove)>, n: int)
    requires
        0 <= n <= items.len(),
    ensures
        sorted_desc(top_n_spec(items, n)),
        top_n_spec(items, n).len() <= TOP_N,
        top_n_spec(items, n).len() <= n,
        top_n_spec(items, n).len() == if n < TOP_N {
            n
        } else {
            TOP_N as int
        },
        forall|k: int|
            0 <= k < top_n_spec(items, n).len() ==> exists|i: int|
                0 <= i < n && items[i] == #[trigger] top_n_spec(items, n)[k],
        forall|i: int| 0 <= i < n ==> kept_or_beaten(top_n_spec(items, n), #[trigger] items[i]),
    decreases n,
{
    if n > 0 {
        lemma_top_n(items, n - 1);
        let s = top_n_spec(items, n - 1);
        let item = items[n - 1];
        lemma_rank_insert(s, item);
        lemma_rank_insert_keeps(s, item);
        let r = top_n_spec(items, n);
        assert forall|k: int| 0 <= k < r.len() implies exists|i: int|
            0 <= i < n && items[i] == #[trigger] r[k] by {
            if r[k] == item {
                assert(items[n - 1] == r[k]);
            } else {
                let j = choose|j: int| 0 <= j < s.len() && s[j] == r[k];
                let i = choose|i: int| 0 <= i < n - 1 && items[i] == s[j];
                assert(items[i] == r[k]);
            }
        }
        assert forall|i: int| 0 <= i < n implies kept_or_beaten(r, #[trigger] items[i]) by {
            if i < n - 1 {
                assert(kept_or_beaten(s, items[i]));
                if s.contains(items[i]) {
                    let j = choose|j: int| 0 <= j < s.len() && s[j] == items[i];
                    assert(kept_or_beaten(r, s[j]));
                }
            }
        }
    }
}

/// Where a new entry with `score` goes in a sorted list, found by halving.
fn rank_search(r: &Ranked, score: i64) -> (i: usize)
    requires
        sorted_desc(ranked_view(*r)),
    ensures
        i == rank_pos(ranked_view(*r), score),
{
    let ghost s = ranked_view(*r);
    let mut lo: usize = 0;
    let mut hi: usize = ranked_len(r);
    while lo < hi
        invariant
            lo <= hi <= s.len(),
            s == ranked_view(*r),
            sorted_desc(s),
            forall|j: int| 0 <= j < lo ==> (#[trigger] s[j]).0 >= score,
            forall|j: int| hi <= j < s.len() ==> (#[trigger] s[j]).0 < score,
        decreases hi - lo,
    {
        let mid = lo + (hi - lo) / 2;
        let e = ranked_get(r, mid);
        if e.0 >= score {
            proof {
                assert forall|j: int| 0 <= j < mid + 1 implies (#[trigger] s[j]).0 >= score by {
                    assert(s[j].0 >= s[mid as int].0);
                }
            }
            lo = mid + 1;
        } else {
            proof {
                assert forall|j: int| mid <= j < s.len() implies (#[trigger] s[j]).0 < score by {
                    assert(s[mid as int].0 >= s[j].0);
                }
            }
            hi = mid;
        }
    }
    proof {
        lemma_first_below(s, score, 0, lo as int);
    }
    lo
}

/// Ranks scored moves: the fourteen with the highest scores, highest
/// first. Among equal scores the move that came first stays in front.
pub fn top_n(scored: &Vec<(i64, CompactMove)>) -> (r: Ranked)
    ensures
        ranked_view(r) == top_n_spec(scored@, scored@.len() as int),
{
    let mut r = ranked_new();
    let mut i: usize = 0;
    while i < scored.len()
        invariant
            i <= scored@.len(),
            ranked_view(r) == top_n_spec(scored@, i as int),
        decreases scored@.len() - i,
    {
        proof {
            lemma_top_n(scored@, i as int);
            lemma_rank_pos(ranked_view(r), scored@[i as int].0);
        }
        let item = scored[i];
        let pos = rank_search(&r, item.0);
        ranked_insert(&mut r, pos, item);
        ranked_truncate(&mut r, TOP_N);
        i = i + 1;
    }
    r
}

/// The entries of a ranking, best first.
pub fn ranked_items(r: &Ranked) -> (v: Vec<(i64, CompactMove)>)
    ensures
        v@ == ranked_view(*r),
{
    let mut v: Vec<(i64, CompactMove)> = Vec::new();
    let n = ranked_len(r);
    let mut i: usize = 0;
    while i < n
        invariant
            i <= n,
            n == ranked_view(*r).len(),
            v@ == ranked_view(*r).subrange(0, i as int),
        decreases n - i,
    {
        v.push(ranked_get(r, i));
        i = i + 1;
        proof {
            assert(v@ =~= ranked_view(*r).subrange(0, i as int));
        }
    }
    proof {
        assert(v@ =~= ranked_view(*r));
    }
    v
}

} // verus!
