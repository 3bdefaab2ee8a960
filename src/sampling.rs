use vstd::prelude::*;

use crate::random::random_below;

verus! {

/// The entries of `s` rise strictly from left to right.
pub open spec fn strictly_sorted(s: Seq<u128>) -> bool {
    forall|i: int, j: int| 0 <= i < j < s.len() ==> s[i] < s[j]
}

/// Draws a code uniformly among those of `[0, universe)` that `taken` does not
/// hold yet, and records it in `taken`, which stays sorted.
///
/// Drawing among the free codes gives each of them the same chance as drawing
/// from the whole range again and again until a free one comes up.
pub(crate) fn draw_free_code(taken: &mut Vec<u128>, universe: u128) -> (r: u128)
    requires
        strictly_sorted(old(taken)@),
        forall|i: int| 0 <= i < old(taken)@.len() ==> old(taken)@[i] < universe,
        old(taken)@.len() < universe,
    ensures
        r < universe,
        !old(taken)@.contains(r),
        strictly_sorted(final(taken)@),
        final(taken)@.len() == old(taken)@.len() + 1,
        forall|i: int| 0 <= i < final(taken)@.len() ==> final(taken)@[i] < universe,
        forall|c: u128| final(taken)@.contains(c) <==> (old(taken)@.contains(c) || c == r),
{
    let n = taken.len();
    let k = random_below(universe - n as u128);
    let mut c: u128 = k;
    let mut j: usize = 0;
    while j < n
        invariant
            n == taken@.len(),
            j <= n,
            k < universe - n,
            c <= k + j,
            strictly_sorted(taken@),
            forall|i: int| 0 <= i < j ==> taken@[i] != c,
        decreases n - j,
    {
        if taken[j] <= c {
            c = c + 1;
        }
        j = j + 1;
    }
    let mut p: usize = 0;
    while p < n && taken[p] < c
        invariant
            n == taken@.len(),
            p <= n,
            forall|i: int| 0 <= i < p ==> taken@[i] < c,
        decreases n - p,
    {
        p = p + 1;
    }
    let ghost before = taken@;
    taken.insert(p, c);
    assert forall|i: int| 0 <= i < n implies before[i] != c by {}
    assert(!before.contains(c));
    assert forall|x: u128| taken@.contains(x) <==> (before.contains(x) || x == c) by {
        if taken@.contains(x) {
            let i = choose|i: int| 0 <= i < taken@.len() && taken@[i] == x;
            if i < p {
                assert(before[i] == x);
            } else if i > p {
                assert(before[i - 1] == x);
            }
        }
        if before.contains(x) {
            let i = choose|i: int| 0 <= i < before.len() && before[i] == x;
            if i < p {
                assert(taken@[i] == x);
            } else {
                assert(taken@[i + 1] == x);
            }
        }
        if x == c {
            assert(taken@[p as int] == x);
        }
    }
    c
}

} // verus!
