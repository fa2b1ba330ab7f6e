//! Solved grids, and what the given cells have to do with them.

use vstd::prelude::*;
use vstd::set_lib::{lemma_int_range, lemma_subset_equality, set_int_range};
use crate::index::{
    cell_at, col_of, group_of, lemma_cell_at, lemma_cell_of_group, lemma_slots, peers, row_of,
    slot, Group,
};
use crate::rules::{completable, completes, completes_from, first_completion, fits, no_later};

verus! {

/// Group `u` of the given kind holds the value `d` in some cell.
pub open spec fn group_has(s: Seq<u8>, kind: Group, u: int, d: u8) -> bool {
    exists|p: int| 0 <= p < 81 && group_of(kind, p) == u && #[trigger] s[p] == d
}

/// The digit `d` stands exactly once in group `u` of the given kind.
pub open spec fn stands_once(s: Seq<u8>, kind: Group, u: int, d: u8) -> bool {
    exists|j: int|
        {
            &&& 0 <= j < 81
            &&& group_of(kind, j) == u
            &&& #[trigger] s[j] == d
            &&& forall|k: int|
                0 <= k < 81 && group_of(kind, k) == u && #[trigger] s[k] == d ==> k == j
        }
}

/// The grid is solved: every row, every column and every box holds each
/// of the digits 1 to 9 exactly once.
pub open spec fn is_solved(s: Seq<u8>) -> bool {
    &&& s.len() == 81
    &&& forall|kind: Group, u: int, d: u8|
        0 <= u < 9 && 1 <= d <= 9 ==> #[trigger] stands_once(s, kind, u, d)
}

/// The given cells of `g` obey the rules among themselves: each holds a
/// digit 1 to 9, and no two of them that are peers hold the same.
pub open spec fn givens_consistent(g: Seq<u8>) -> bool {
    forall|j: int| 0 <= j < 81 && #[trigger] g[j] != 0 ==> fits(g, j)
}

/// Group `u` of the given kind holds the same value in the two given
/// cells `j` and `k`.
pub open spec fn repeats_at(g: Seq<u8>, kind: Group, u: int, j: int, k: int) -> bool {
    &&& 0 <= j < 81 && 0 <= k < 81 && j != k
    &&& group_of(kind, j) == u && group_of(kind, k) == u
    &&& g[j] != 0 && g[j] == g[k]
}

/// Group `u` of the given kind holds some value in two given cells.
pub open spec fn has_repeat(g: Seq<u8>, kind: Group, u: int) -> bool {
    exists|j: int, k: int| repeats_at(g, kind, u, j, k)
}

/// `s` is a solution of the puzzle `g`: a solved grid that holds what `g`
/// holds wherever `g` is not blank.
pub open spec fn is_solution(g: Seq<u8>, s: Seq<u8>) -> bool {
    &&& is_solved(s)
    &&& forall|j: int| 0 <= j < 81 && #[trigger] g[j] != 0 ==> s[j] == g[j]
}

/// The puzzle `g` has a solution.
pub open spec fn solvable(g: Seq<u8>) -> bool {
    exists|s: Seq<u8>| is_solution(g, s)
}

/// The given cells `j` and `k` are peers and hold the same value.
pub open spec fn alike(g: Seq<u8>, j: int, k: int) -> bool {
    0 <= j < 81 && 0 <= k < 81 && peers(j, k) && g[j] != 0 && g[j] == g[k]
}

/// The given cells are digits, and just one pair of them breaks the
/// rules: two peers that hold the same digit.
pub open spec fn one_repeat(g: Seq<u8>) -> bool {
    &&& forall|p: int| 0 <= p < 81 ==> #[trigger] g[p] <= 9
    &&& exists|j: int, k: int|
        {
            &&& #[trigger] alike(g, j, k)
            &&& forall|p: int, q: int|
                #[trigger] alike(g, p, q) ==> (p == j && q == k) || (p == k && q == j)
        }
}

/// Values from 0 to `n - 1`, `n` of them and no two alike, are all of
/// these values.
proof fn lemma_pigeonhole(f: Seq<int>, v: int)
    requires
        forall|k: int| 0 <= k < f.len() ==> 0 <= #[trigger] f[k] < f.len(),
        forall|a: int, b: int| 0 <= a < b < f.len() ==> f[a] != f[b],
        0 <= v < f.len(),
    ensures
        exists|k: int| 0 <= k < f.len() && f[k] == v,
{
    let n = f.len() as int;
    assert(f.no_duplicates());
    f.unique_seq_to_set();
    lemma_int_range(0, n);
    assert(f.to_set().finite()) by {
        vstd::seq_lib::seq_to_set_is_finite(f);
    }
    assert(f.to_set().subset_of(set_int_range(0, n))) by {
        assert forall|x: int| f.to_set().contains(x) implies set_int_range(0, n).contains(x) by {
            let k = choose|k: int| 0 <= k < f.len() && f[k] == x;
            assert(0 <= f[k] < n);
        }
    }
    lemma_subset_equality(f.to_set(), set_int_range(0, n));
    assert(set_int_range(0, n).contains(v));
    assert(f.to_set().contains(v));
    assert(f.contains(v));
}

/// Two different cells of one group are peers.
proof fn lemma_group_peers(kind: Group, i: int, j: int)
    requires
        i != j,
        group_of(kind, i) == group_of(kind, j),
    ensures
        peers(i, j),
{
}

/// A group whose cells hold digits 1 to 9, no two of them the same,
/// holds every digit: `d` in the cell that is returned.
proof fn lemma_group_holds(s: Seq<u8>, kind: Group, u: int, d: u8) -> (j: int)
    requires
        0 <= u < 9,
        1 <= d <= 9,
        forall|p: int| 0 <= p < 81 && group_of(kind, p) == u ==> 1 <= #[trigger] s[p] <= 9,
        forall|p: int, q: int|
            0 <= p < 81 && 0 <= q < 81 && p != q && group_of(kind, p) == u && group_of(kind, q)
                == u ==> #[trigger] s[p] != #[trigger] s[q],
    ensures
        0 <= j < 81,
        group_of(kind, j) == u,
        s[j] == d,
{
    let f = Seq::new(9, |k: int| s[cell_at(kind, u, k)] - 1);
    assert forall|k: int| 0 <= k < 9 implies 0 <= #[trigger] f[k] < 9 by {
        lemma_cell_at(kind, u, k);
        assert(1 <= s[cell_at(kind, u, k)] <= 9);
    }
    assert forall|a: int, b: int| 0 <= a < b < 9 implies f[a] != f[b] by {
        lemma_cell_at(kind, u, a);
        lemma_cell_at(kind, u, b);
        assert(s[cell_at(kind, u, a)] != s[cell_at(kind, u, b)]);
    }
    lemma_pigeonhole(f, d - 1);
    let k = choose|k: int| 0 <= k < 9 && f[k] == d - 1;
    lemma_cell_at(kind, u, k);
    cell_at(kind, u, k)
}

/// Where every cell holds a digit that none of its peers holds, every
/// group holds every digit once.
proof fn lemma_fit_stands_once(s: Seq<u8>, kind: Group, u: int, d: u8)
    requires
        s.len() == 81,
        forall|j: int| 0 <= j < 81 ==> fits(s, j),
        0 <= u < 9,
        1 <= d <= 9,
    ensures
        stands_once(s, kind, u, d),
{
    assert forall|p: int| 0 <= p < 81 && group_of(kind, p) == u implies 1 <= #[trigger] s[p]
        <= 9 by {
        assert(fits(s, p));
    }
    assert forall|p: int, q: int|
        0 <= p < 81 && 0 <= q < 81 && p != q && group_of(kind, p) == u && group_of(kind, q)
            == u implies #[trigger] s[p] != #[trigger] s[q] by {
        lemma_group_peers(kind, p, q);
        assert(fits(s, p));
    }
    let j = lemma_group_holds(s, kind, u, d);
    assert(fits(s, j));
    assert forall|h: int| 0 <= h < 81 && group_of(kind, h) == u && #[trigger] s[h] == d implies h
        == j by {
        if h != j {
            lemma_group_peers(kind, j, h);
        }
    }
}

/// A cell of group `u` that holds `d`, where the group holds it.
spec fn place_of(s: Seq<u8>, kind: Group, u: int, d: u8) -> int {
    choose|p: int| 0 <= p < 81 && group_of(kind, p) == u && #[trigger] s[p] == d
}

/// In a group that holds every digit, every cell holds a digit, and no
/// other cell holds the same.
proof fn lemma_full_group(s: Seq<u8>, kind: Group, u: int, j: int)
    requires
        0 <= u < 9,
        forall|d: u8| 1 <= d <= 9 ==> #[trigger] group_has(s, kind, u, d),
        0 <= j < 81,
        group_of(kind, j) == u,
    ensures
        1 <= s[j] <= 9,
        place_of(s, kind, u, s[j]) == j,
{
    // the digits have nine places in the group, no two the same place:
    // these are all its cells, and `j` is one of them
    let f = Seq::new(9, |m: int| slot(kind, place_of(s, kind, u, (m + 1) as u8)) - 9 * u);
    assert forall|m: int| 0 <= m < 9 implies {
        &&& 0 <= #[trigger] f[m] < 9
        &&& s[cell_at(kind, u, f[m])] == m + 1
        &&& cell_at(kind, u, f[m]) == place_of(s, kind, u, (m + 1) as u8)
    } by {
        assert(group_has(s, kind, u, (m + 1) as u8));
        lemma_cell_of_group(kind, place_of(s, kind, u, (m + 1) as u8));
    }
    assert forall|a: int, b: int| 0 <= a < b < 9 implies f[a] != f[b] by {
        assert(s[cell_at(kind, u, f[a])] == a + 1);
        assert(s[cell_at(kind, u, f[b])] == b + 1);
    }
    lemma_cell_of_group(kind, j);
    lemma_pigeonhole(f, slot(kind, j) - 9 * u);
    let m = choose|m: int| 0 <= m < 9 && f[m] == slot(kind, j) - 9 * u;
    assert(cell_at(kind, u, f[m]) == j);
}

/// A grid is solved just when each of its cells holds a digit 1 to 9 that
/// none of its peers holds.
pub proof fn lemma_solved_iff_all_fit(s: Seq<u8>)
    requires
        s.len() == 81,
    ensures
        is_solved(s) <==> forall|j: int| 0 <= j < 81 ==> fits(s, j),
{
    if forall|j: int| 0 <= j < 81 ==> fits(s, j) {
        assert forall|kind: Group, u: int, d: u8| 0 <= u < 9 && 1 <= d <= 9 implies #[trigger]
            stands_once(s, kind, u, d) by {
            lemma_fit_stands_once(s, kind, u, d);
        }
    }
    if is_solved(s) {
        assert forall|j: int| 0 <= j < 81 implies fits(s, j) by {
            assert forall|d: u8| 1 <= d <= 9 implies #[trigger] group_has(
                s,
                Group::Row,
                row_of(j),
                d,
            ) by {
                assert(stands_once(s, Group::Row, row_of(j), d));
            }
            lemma_slots(Group::Row, j);
            lemma_full_group(s, Group::Row, row_of(j), j);
            assert forall|k: int| 0 <= k < 81 && peers(j, k) implies #[trigger] s[k] != s[j] by {
                let kind = if row_of(j) == row_of(k) {
                    Group::Row
                } else if group_of(Group::Column, j) == group_of(Group::Column, k) {
                    Group::Column
                } else {
                    Group::Block
                };
                lemma_slots(kind, j);
                assert(stands_once(s, kind, group_of(kind, j), s[j]));
            }
        }
    }
}

/// What comes of a puzzle whose blank cells have been filled: the grid is
/// solved just when the given cells obeyed the rules among themselves.
/// Given cells that break them stay as they are and leave the grid
/// unsolved, however the blank cells are filled.
pub proof fn lemma_completion_solved(g: Seq<u8>, s: Seq<u8>)
    requires
        g.len() == 81,
        completes(g, s),
    ensures
        is_solved(s) <==> givens_consistent(g),
{
    lemma_solved_iff_all_fit(s);
    if givens_consistent(g) {
        assert forall|j: int| 0 <= j < 81 implies fits(s, j) by {
            if g[j] != 0 {
                assert(fits(g, j));
                assert(s[j] == g[j]);
                assert forall|k: int| 0 <= k < 81 && peers(j, k) implies #[trigger] s[k]
                    != s[j] by {
                    if g[k] == 0 {
                        assert(fits(s, k));
                        assert(peers(k, j));
                    } else {
                        assert(s[k] == g[k]);
                    }
                }
            } else {
                assert(fits(s, j));
            }
        }
    }
    if is_solved(s) {
        assert forall|j: int| 0 <= j < 81 && #[trigger] g[j] != 0 implies fits(g, j) by {
            assert(fits(s, j));
            assert(s[j] == g[j]);
            assert forall|k: int| 0 <= k < 81 && peers(j, k) implies #[trigger] g[k] != g[j] by {
                if g[k] != 0 {
                    assert(s[k] == g[k]);
                }
            }
        }
    }
}

/// The solutions of a puzzle are the solved grids among those that fill
/// its blank cells.
pub proof fn lemma_solution(g: Seq<u8>, s: Seq<u8>)
    requires
        g.len() == 81,
    ensures
        is_solution(g, s) <==> completes(g, s) && is_solved(s),
{
    if is_solution(g, s) {
        lemma_solved_iff_all_fit(s);
        assert forall|j: int| 0 <= j < 81 implies if j >= 0 && g[j] == 0 {
            fits(s, j)
        } else {
            #[trigger] s[j] == g[j]
        } by {
            assert(fits(s, j));
        }
    }
}

/// A puzzle has a solution just when its blank cells can be filled and
/// its given cells obey the rules among themselves.
pub proof fn lemma_solvable(g: Seq<u8>)
    requires
        g.len() == 81,
    ensures
        solvable(g) <==> completable(g) && givens_consistent(g),
{
    if solvable(g) {
        let s = choose|s: Seq<u8>| is_solution(g, s);
        lemma_solution(g, s);
        lemma_completion_solved(g, s);
    }
    if completable(g) && givens_consistent(g) {
        let s = choose|s: Seq<u8>| completes(g, s);
        lemma_completion_solved(g, s);
        lemma_solution(g, s);
    }
}

/// A grid without blank cells is its own and only completion, whatever
/// its cells hold.
pub proof fn lemma_full_grid(g: Seq<u8>, s: Seq<u8>)
    requires
        g.len() == 81,
        forall|j: int| 0 <= j < 81 ==> g[j] != 0,
    ensures
        first_completion(g, g),
        completes(g, s) ==> s == g,
{
    if completes(g, s) {
        assert forall|j: int| 0 <= j < 81 implies s[j] == g[j] by {}
        assert(s =~= g);
    }
    assert forall|t: Seq<u8>| #[trigger] completes_from(g, 0, t) implies no_later(g, t) by {
        assert forall|j: int| 0 <= j < 81 implies t[j] == g[j] by {}
    }
}

/// A solved grid has no blank cell, so it is its own and only completion.
pub proof fn lemma_solved_grid(g: Seq<u8>, s: Seq<u8>)
    requires
        is_solved(g),
    ensures
        first_completion(g, g),
        completes(g, s) ==> s == g,
{
    lemma_solved_iff_all_fit(g);
    assert forall|j: int| 0 <= j < 81 implies g[j] != 0 by {
        assert(fits(g, j));
    }
    lemma_full_grid(g, s);
}

/// Two given cells that are peers and hold the same value are never
/// mended: however the blank cells are filled, the grid is not solved.
pub proof fn lemma_repeated_given(g: Seq<u8>, j: int, k: int, s: Seq<u8>)
    requires
        g.len() == 81,
        0 <= j < 81,
        0 <= k < 81,
        peers(j, k),
        g[j] != 0,
        g[j] == g[k],
        completes(g, s),
    ensures
        !is_solved(s),
{
    lemma_completion_solved(g, s);
    if givens_consistent(g) {
        assert(fits(g, j));
    }
}

/// A group that holds a value twice lacks a digit: the one returned
/// stands in none of its cells.
proof fn lemma_repeat_leaves_gap(s: Seq<u8>, kind: Group, u: int, j: int, k: int) -> (e: u8)
    requires
        0 <= u < 9,
        0 <= j < 81,
        0 <= k < 81,
        j != k,
        group_of(kind, j) == u,
        group_of(kind, k) == u,
        s[j] == s[k],
    ensures
        1 <= e <= 9,
        !group_has(s, kind, u, e),
{
    if forall|d: u8| 1 <= d <= 9 ==> #[trigger] group_has(s, kind, u, d) {
        lemma_full_group(s, kind, u, j);
        lemma_full_group(s, kind, u, k);
    }
    choose|d: u8| 1 <= d <= 9 && !#[trigger] group_has(s, kind, u, d)
}

/// When the blank cells have been filled, two cells of one group that
/// hold the same value are both given cells.
proof fn lemma_alike_are_given(g: Seq<u8>, s: Seq<u8>, kind: Group, p: int, q: int)
    requires
        completes(g, s),
        0 <= p < 81,
        0 <= q < 81,
        p != q,
        group_of(kind, p) == group_of(kind, q),
        s[p] == s[q],
    ensures
        repeats_at(g, kind, group_of(kind, p), p, q),
{
    lemma_group_peers(kind, p, q);
    lemma_group_peers(kind, q, p);
    if g[p] == 0 {
        assert(fits(s, p));
        assert(s[q] != s[p]);
    }
    if g[q] == 0 {
        assert(fits(s, q));
        assert(s[p] != s[q]);
    }
    assert(s[p] == g[p]);
    assert(s[q] == g[q]);
}

/// No grid fills the blank cells of `g` under the conditions of
/// `lemma_lone_repeat`.
proof fn lemma_lone_repeat_blocks(g: Seq<u8>, kind: Group, u: int, clean: Group, s: Seq<u8>)
    requires
        g.len() == 81,
        forall|j: int| 0 <= j < 81 ==> #[trigger] g[j] <= 9,
        0 <= u < 9,
        has_repeat(g, kind, u),
        forall|v: int| 0 <= v < 9 && v != u ==> !#[trigger] has_repeat(g, kind, v),
        forall|v: int| 0 <= v < 9 ==> !#[trigger] has_repeat(g, clean, v),
    ensures
        !completes(g, s),
{
    if completes(g, s) {
        let (j, k) = choose|j: int, k: int| repeats_at(g, kind, u, j, k);
        assert(s[j] == g[j] && s[k] == g[k]);
        // a digit that the flawed group lacks
        let e = lemma_repeat_leaves_gap(s, kind, u, j, k);
        assert forall|p: int| 0 <= p < 81 implies 1 <= #[trigger] s[p] <= 9 by {
            if g[p] == 0 {
                assert(fits(s, p));
            } else {
                assert(s[p] == g[p]);
                assert(g[p] <= 9);
            }
        }
        // every group of the flawless kind holds that digit
        let pos = |v: int|
            choose|p: int| 0 <= p < 81 && group_of(clean, p) == v && #[trigger] s[p] == e;
        assert forall|v: int| 0 <= v < 9 implies {
            &&& 0 <= pos(v) < 81
            &&& group_of(clean, pos(v)) == v
            &&& #[trigger] s[pos(v)] == e
        } by {
            assert forall|p: int, q: int|
                0 <= p < 81 && 0 <= q < 81 && p != q && group_of(clean, p) == v && group_of(
                    clean,
                    q,
                ) == v implies #[trigger] s[p] != #[trigger] s[q] by {
                if s[p] == s[q] {
                    lemma_alike_are_given(g, s, clean, p, q);
                    assert(has_repeat(g, clean, v));
                }
            }
            let p = lemma_group_holds(s, clean, v, e);
        }
        // nine cells with that digit, none of them in the flawed group:
        // two of them share one of the eight other groups of its kind
        let h = Seq::new(9, |v: int| group_of(kind, pos(v)));
        assert forall|v: int| 0 <= v < 9 implies 0 <= #[trigger] h[v] < 9 && h[v] != u by {
            assert(s[pos(v)] == e);
            lemma_slots(kind, pos(v));
            if h[v] == u {
                assert(group_has(s, kind, u, e));
            }
        }
        if forall|a: int, b: int| 0 <= a < b < 9 ==> h[a] != h[b] {
            lemma_pigeonhole(h, u);
            assert(false);
        } else {
            let (a, b) = choose|a: int, b: int| 0 <= a < b < 9 && h[a] == h[b];
            assert(s[pos(a)] == e);
            assert(s[pos(b)] == e);
            lemma_alike_are_given(g, s, kind, pos(a), pos(b));
            assert(h[a] != u);
            assert(has_repeat(g, kind, h[a]));
            assert(false);
        }
    }
}

/// One flaw cannot be filled around. If the given cells are digits, one
/// group holds a digit twice among them, no other group of its kind does,
/// and of some other kind no group at all does, then the blank cells
/// cannot be filled.
pub proof fn lemma_lone_repeat(g: Seq<u8>, kind: Group, u: int, clean: Group)
    requires
        g.len() == 81,
        forall|j: int| 0 <= j < 81 ==> #[trigger] g[j] <= 9,
        0 <= u < 9,
        has_repeat(g, kind, u),
        forall|v: int| 0 <= v < 9 && v != u ==> !#[trigger] has_repeat(g, kind, v),
        forall|v: int| 0 <= v < 9 ==> !#[trigger] has_repeat(g, clean, v),
    ensures
        !completable(g),
{
    assert forall|s: Seq<u8>| !completes(g, s) by {
        lemma_lone_repeat_blocks(g, kind, u, clean, s);
    }
}

/// A puzzle with one flaw is rejected: where just one pair of given peers
/// holds the same digit, the blank cells cannot be filled.
pub proof fn lemma_one_repeat(g: Seq<u8>)
    requires
        g.len() == 81,
        one_repeat(g),
    ensures
        !completable(g),
{
    let (j, k) = choose|j: int, k: int|
        {
            &&& #[trigger] alike(g, j, k)
            &&& forall|p: int, q: int|
                #[trigger] alike(g, p, q) ==> (p == j && q == k) || (p == k && q == j)
        };
    // a kind of group that the two cells share, and one that they do not
    let kind = if row_of(j) == row_of(k) {
        Group::Row
    } else if col_of(j) == col_of(k) {
        Group::Column
    } else {
        Group::Block
    };
    let clean = if row_of(j) == row_of(k) {
        Group::Column
    } else {
        Group::Row
    };
    let u = group_of(kind, j);
    lemma_slots(kind, j);
    assert(repeats_at(g, kind, u, j, k));
    assert forall|v: int| 0 <= v < 9 && v != u implies !#[trigger] has_repeat(g, kind, v) by {
        if has_repeat(g, kind, v) {
            let (p, q) = choose|p: int, q: int| repeats_at(g, kind, v, p, q);
            lemma_group_peers(kind, p, q);
            assert(alike(g, p, q));
        }
    }
    assert forall|v: int| 0 <= v < 9 implies !#[trigger] has_repeat(g, clean, v) by {
        if has_repeat(g, clean, v) {
            let (p, q) = choose|p: int, q: int| repeats_at(g, clean, v, p, q);
            lemma_group_peers(clean, p, q);
            assert(alike(g, p, q));
        }
    }
    lemma_lone_repeat(g, kind, u, clean);
}

} // verus!
