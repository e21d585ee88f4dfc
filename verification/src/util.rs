//! Small pure helpers: apportioning an integer across slots and duration
//! formatting.

use vstd::prelude::*;

verus! {

/// The share that slot `i` receives when `to_divvy` is split across
/// `num_items` slots: every slot gets the quotient, and the first
/// `to_divvy % num_items` slots get one extra.
pub open spec fn divvy_share(to_divvy: usize, num_items: usize, i: int) -> int
    recommends
        num_items > 0,
{
    to_divvy as int / num_items as int + if i < to_divvy as int % num_items as int {
        1int
    } else {
        0int
    }
}

/// The full sequence of shares for `divvy`.
pub open spec fn divvy_seq(to_divvy: usize, num_items: usize) -> Seq<int> {
    Seq::new(num_items as nat, |i: int| divvy_share(to_divvy, num_items, i))
}

/// Sum of a sequence of integers.
pub open spec fn sum_int(s: Seq<int>) -> int
    decreases s.len(),
{
    if s.len() == 0 {
        0
    } else {
        s[0] + sum_int(s.drop_first())
    }
}

/// Splits `to_divvy` into `num_items` near-equal non-negative parts, the
/// remainder assigned to the lowest-indexed slots.
pub fn divvy(to_divvy: usize, num_items: usize) -> (r: Vec<usize>)
    requires
        num_items > 0,
    ensures
        r@.len() == num_items,
        forall|i: int| 0 <= i < num_items ==> r@[i] == divvy_share(to_divvy, num_items, i),
{
    let quot: usize = to_divvy / num_items;
    let rem: usize = to_divvy % num_items;
    let mut r: Vec<usize> = Vec::new();
    let mut i: usize = 0;
    while i < num_items
        invariant
            i <= num_items,
            num_items > 0,
            quot == to_divvy as int / num_items as int,
            rem == to_divvy as int % num_items as int,
            r@.len() == i,
            forall|j: int| 0 <= j < i ==> r@[j] == divvy_share(to_divvy, num_items, j),
        decreases num_items - i,
    {
        if i < rem {
            proof {
                // rem > 0 forces at least two slots, so the quotient leaves
                // room for the extra unit.
                vstd::arithmetic::div_mod::lemma_div_is_ordered_by_denominator(
                    to_divvy as int,
                    2,
                    num_items as int,
                );
            }
            r.push(quot + 1);
        } else {
            r.push(quot);
        }
        i += 1;
    }
    r
}

/// The shares of `divvy` are exactly `num_items` values summing to
/// `to_divvy`, each the quotient or one more, with the larger values first.
pub proof fn lemma_divvy_properties(to_divvy: usize, num_items: usize)
    requires
        num_items > 0,
    ensures
        divvy_seq(to_divvy, num_items).len() == num_items,
        sum_int(divvy_seq(to_divvy, num_items)) == to_divvy,
        forall|i: int|
            0 <= i < num_items ==> #[trigger] divvy_seq(to_divvy, num_items)[i]
                == to_divvy as int / num_items as int
                || divvy_seq(to_divvy, num_items)[i] == to_divvy as int / num_items as int + 1,
        forall|i: int, j: int|
            0 <= i <= j < num_items ==> #[trigger] divvy_seq(to_divvy, num_items)[i]
                >= #[trigger] divvy_seq(to_divvy, num_items)[j],
{
    let q = to_divvy as int / num_items as int;
    let m = to_divvy as int % num_items as int;
    let s = divvy_seq(to_divvy, num_items);
    lemma_sum_shares(s, to_divvy, num_items, 0);
    vstd::arithmetic::div_mod::lemma_fundamental_div_mod(to_divvy as int, num_items as int);
    assert(sum_int(s) == num_items as int * q + m);
    assert(num_items as int * q == q * num_items as int) by (nonlinear_arith);
}

/// Sum of the shares for slots `start .. num_items`, by induction over the
/// suffix sequence.
proof fn lemma_sum_shares(s: Seq<int>, to_divvy: usize, num_items: usize, start: int)
    requires
        num_items > 0,
        0 <= start <= num_items as int,
        s.len() == num_items as int - start,
        forall|i: int| 0 <= i < s.len() ==> s[i] == divvy_share(to_divvy, num_items, start + i),
    ensures
        sum_int(s) == (num_items as int - start) * (to_divvy as int / num_items as int) + if start
            < to_divvy as int % num_items as int {
            to_divvy as int % num_items as int - start
        } else {
            0int
        },
    decreases s.len(),
{
    let q = to_divvy as int / num_items as int;
    let n = num_items as int;
    if s.len() == 0 {
        assert((n - start) * q == 0) by (nonlinear_arith)
            requires n == start;
    } else {
        lemma_sum_shares(s.drop_first(), to_divvy, num_items, start + 1);
        assert(s[0] == divvy_share(to_divvy, num_items, start));
        assert((n - start) * q == (n - (start + 1)) * q + q) by (nonlinear_arith);
    }
}

} // verus!
