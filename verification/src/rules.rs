//! What it means to fill the blank cells of a grid, and which of the
//! ways to fill them is the first.
//!
//! A grid is a sequence of 81 cells in reading order. A cell holds 0 when
//! it is blank, else the value that stands in it: a digit 1 to 9, as far
//! as the rules go, but a given cell is taken as it is.

use vstd::prelude::*;
use crate::index::{peers, same_group};

verus! {

/// The digit `n` stands nowhere in the row, the column and the box of
/// position `i`, cell `i` itself included.
pub open spec fn digit_free(g: Seq<u8>, i: int, n: u8) -> bool {
    forall|j: int| 0 <= j < 81 && same_group(i, j) ==> #[trigger] g[j] != n
}

/// Cell `j` holds a digit 1 to 9 that none of its peers holds.
pub open spec fn fits(s: Seq<u8>, j: int) -> bool {
    &&& 1 <= s[j] <= 9
    &&& forall|k: int| 0 <= k < 81 && peers(j, k) ==> #[trigger] s[k] != s[j]
}

/// `s` fills the blank cells of `g` from position `start` on: every cell
/// that is blank in `g` and lies at `start` or after it holds in `s` a
/// digit that fits, and every other cell is as in `g`.
pub open spec fn completes_from(g: Seq<u8>, start: int, s: Seq<u8>) -> bool {
    &&& s.len() == 81
    &&& forall|j: int|
        #![trigger s[j]]
        0 <= j < 81 ==> if j >= start && g[j] == 0 {
            fits(s, j)
        } else {
            s[j] == g[j]
        }
}

/// `s` fills the blank cells of `g`: the given cells stay, and every
/// other cell holds a digit 1 to 9 that none of its peers holds.
pub open spec fn completes(g: Seq<u8>, s: Seq<u8>) -> bool {
    completes_from(g, 0, s)
}

/// `a` and `b` hold the same in all cells before position `p`.
pub open spec fn agree_before(a: Seq<u8>, b: Seq<u8>, p: int) -> bool {
    forall|j: int| 0 <= j < p ==> #[trigger] a[j] == b[j]
}

/// `a` comes no later than `b` when grids are ordered like words, cell by
/// cell in reading order: at the first cell where they differ, if there is
/// one, `a` holds the smaller value.
pub open spec fn no_later(a: Seq<u8>, b: Seq<u8>) -> bool {
    forall|p: int| 0 <= p < 81 && #[trigger] agree_before(a, b, p) ==> a[p] <= b[p]
}

/// `s` is the first of all the grids that fill the blank cells of `g`
/// from `start` on.
pub open spec fn first_from(g: Seq<u8>, start: int, s: Seq<u8>) -> bool {
    &&& completes_from(g, start, s)
    &&& forall|t: Seq<u8>| #[trigger] completes_from(g, start, t) ==> no_later(s, t)
}

/// `s` is the first of all the grids that fill the blank cells of `g`.
pub open spec fn first_completion(g: Seq<u8>, s: Seq<u8>) -> bool {
    first_from(g, 0, s)
}

/// The blank cells of `g` can be filled.
pub open spec fn completable(g: Seq<u8>) -> bool {
    exists|s: Seq<u8>| completes(g, s)
}

/// Past the last position nothing is left to fill: a grid is then its
/// own and only completion.
pub proof fn lemma_nothing_left(g: Seq<u8>, start: int, t: Seq<u8>)
    requires
        g.len() == 81,
        start >= 81,
    ensures
        first_from(g, start, g),
        completes_from(g, start, t) ==> t == g,
{
    if completes_from(g, start, t) {
        assert forall|j: int| 0 <= j < 81 implies t[j] == g[j] by {}
        assert(t =~= g);
    }
    assert forall|u: Seq<u8>| #[trigger] completes_from(g, start, u) implies no_later(g, u) by {
        assert forall|j: int| 0 <= j < 81 implies u[j] == g[j] by {}
    }
}

/// A cell that is not blank is left as it is: to fill the grid from such
/// a cell on is to fill it from the next cell on.
pub proof fn lemma_given_cell(g: Seq<u8>, i: int, t: Seq<u8>)
    requires
        0 <= i < 81,
        g[i] != 0,
    ensures
        completes_from(g, i, t) <==> completes_from(g, i + 1, t),
{
}

/// To fill the grid from a blank cell `i` on with `n` in that cell is to
/// write `n` there and fill the grid from the next cell on, as long as
/// `n` is a digit that no peer of `i` holds in `g`.
pub proof fn lemma_placed_cell(g: Seq<u8>, i: int, n: u8, t: Seq<u8>)
    requires
        g.len() == 81,
        0 <= i < 81,
        g[i] == 0,
        1 <= n <= 9,
        forall|k: int| 0 <= k < 81 && peers(i, k) ==> #[trigger] g[k] != n,
    ensures
        completes_from(g.update(i, n), i + 1, t) <==> completes_from(g, i, t) && t[i] == n,
{
    let h = g.update(i, n);
    if completes_from(h, i + 1, t) {
        assert(t[i] == n);
        assert forall|k: int| 0 <= k < 81 && peers(i, k) implies #[trigger] t[k] != t[i] by {
            if k >= i + 1 && h[k] == 0 {
                assert(fits(t, k));
                assert(peers(k, i));
                assert(t[i] != t[k]);
            } else {
                assert(t[k] == h[k]);
                assert(g[k] != n);
            }
        }
        assert(fits(t, i));
        assert forall|j: int| 0 <= j < 81 implies if j >= i && g[j] == 0 {
            fits(t, j)
        } else {
            #[trigger] t[j] == g[j]
        } by {
            if j != i {
                assert(h[j] == g[j]);
            }
        }
    }
    if completes_from(g, i, t) && t[i] == n {
        assert forall|j: int| 0 <= j < 81 implies if j >= i + 1 && h[j] == 0 {
            fits(t, j)
        } else {
            #[trigger] t[j] == h[j]
        } by {
            if j != i {
                assert(h[j] == g[j]);
            }
        }
    }
}

/// A digit that a peer of the blank cell `i` holds in `g` cannot stand in
/// cell `i` of any grid that fills `g` from `i` on.
pub proof fn lemma_blocked_digit(g: Seq<u8>, i: int, k: int, t: Seq<u8>)
    requires
        0 <= i < 81,
        0 <= k < 81,
        peers(i, k),
        g[i] == 0,
        g[k] != 0,
        completes_from(g, i, t),
    ensures
        t[i] != g[k],
{
    assert(fits(t, i));
    assert(t[k] == g[k]);
}

/// The search order: if no completion of `g` from the blank cell `i` on
/// holds less than `n` in cell `i`, then the first completion that holds
/// `n` there is the first of all.
pub proof fn lemma_first_with_least(g: Seq<u8>, i: int, n: u8, f: Seq<u8>)
    requires
        g.len() == 81,
        0 <= i < 81,
        g[i] == 0,
        1 <= n <= 9,
        forall|k: int| 0 <= k < 81 && peers(i, k) ==> #[trigger] g[k] != n,
        forall|t: Seq<u8>| #[trigger] completes_from(g, i, t) ==> t[i] >= n,
        first_from(g.update(i, n), i + 1, f),
    ensures
        first_from(g, i, f),
{
    lemma_placed_cell(g, i, n, f);
    assert forall|t: Seq<u8>| #[trigger] completes_from(g, i, t) implies no_later(f, t) by {
        lemma_placed_cell(g, i, n, t);
        if t[i] == n {
            assert(completes_from(g.update(i, n), i + 1, t));
        } else {
            assert forall|p: int| 0 <= p < 81 && #[trigger] agree_before(f, t, p) implies f[p]
                <= t[p] by {
                if p < i {
                    assert(f[p] == g[p] && t[p] == g[p]);
                } else if p > i {
                    assert(f[i] == t[i]);
                }
            }
        }
    }
}

/// Two grids of which neither comes later than the other hold the same
/// in their first `p` cells.
proof fn lemma_agree(a: Seq<u8>, b: Seq<u8>, p: int)
    requires
        no_later(a, b),
        no_later(b, a),
        0 <= p <= 81,
    ensures
        agree_before(a, b, p),
        agree_before(b, a, p),
    decreases p,
{
    if p > 0 {
        lemma_agree(a, b, p - 1);
        assert(a[p - 1] <= b[p - 1]);
        assert(b[p - 1] <= a[p - 1]);
    }
}

/// The order of grids has no ties: of two different grids one comes later.
pub proof fn lemma_no_later_antisymmetric(a: Seq<u8>, b: Seq<u8>)
    requires
        a.len() == 81,
        b.len() == 81,
        no_later(a, b),
        no_later(b, a),
    ensures
        a == b,
{
    lemma_agree(a, b, 81);
    assert(a =~= b);
}

/// The blank cells of a grid have at most one first completion: what the
/// search returns is settled by the grid alone.
pub proof fn lemma_first_unique(g: Seq<u8>, start: int, a: Seq<u8>, b: Seq<u8>)
    requires
        first_from(g, start, a),
        first_from(g, start, b),
    ensures
        a == b,
{
    lemma_no_later_antisymmetric(a, b);
}

} // verus!
