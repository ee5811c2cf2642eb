//! Which blocks are marked.
use crate::flat_blocks::{are_marked, is_order_statistic, mark, num_below};
use vstd::prelude::*;

verus! {

/// How many of the first `n` keys are above `r`.
pub open spec fn num_above(ranks: Seq<u32>, r: u32, n: int) -> int
    decreases n,
{
    if n <= 0 {
        0
    } else {
        num_above(ranks, r, n - 1) + if ranks[n - 1] > r {
            1int
        } else {
            0
        }
    }
}

/// Every key is above a bound or below the next.
proof fn lemma_above_or_below(ranks: Seq<u32>, r: u32, n: int)
    requires
        0 <= n <= ranks.len(),
    ensures
        num_above(ranks, r, n) + num_below(ranks, r + 1, n) == n,
    decreases n,
{
    if n > 0 {
        lemma_above_or_below(ranks, r, n - 1);
    }
}

/// A larger bound has at least as many keys below it.
proof fn lemma_more_below(ranks: Seq<u32>, s: int, t: int, n: int)
    requires
        s <= t,
        n <= ranks.len(),
    ensures
        num_below(ranks, s, n) <= num_below(ranks, t, n),
    decreases n,
{
    if n > 0 {
        lemma_more_below(ranks, s, t, n - 1);
    }
}

/// A flat block has all bits set in its mark. Any other block is marked by one bit if less than
/// a tenth of the blocks has a higher key, and not marked if not.
pub proof fn law_marked_blocks(
    flats: Seq<bool>,
    ranks: Seq<u32>,
    marks: Seq<u8>,
    num_flat: int,
    i: int,
)
    requires
        are_marked(flats, ranks, marks, num_flat),
        0 <= i < ranks.len(),
    ensures
        flats[i] <==> marks[i] == 255,
        !flats[i] ==> (marks[i] == 1 <==> 10 * num_above(ranks, ranks[i], ranks.len() as int)
            < ranks.len()),
        !flats[i] ==> (marks[i] == 0 <==> 10 * num_above(ranks, ranks[i], ranks.len() as int)
            >= ranks.len()),
{
    let n = ranks.len() as int;
    let t = choose|t: int|
        {
            &&& #[trigger] is_order_statistic(ranks, n * 90 / 100, t)
            &&& forall|i: int|
                0 <= i < n ==> #[trigger] marks[i] == mark(flats[i], ranks[i] >= t)
        };
    assert(marks[i] == mark(flats[i], ranks[i] >= t));
    lemma_above_or_below(ranks, ranks[i], n);
    if ranks[i] >= t {
        lemma_more_below(ranks, t + 1, ranks[i] + 1, n);
    } else {
        lemma_more_below(ranks, ranks[i] + 1, t, n);
    }
}

} // verus!
