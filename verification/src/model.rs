//! Mathematical model of the puzzle: cyclic cell tokens, the effect of
//! placing or removing a pattern on a grid of tokens, and the counting
//! arguments that connect the slack budget of the search to the sum of the
//! grid. Everything here is specification and proof; the executable solver
//! lives in `crate::solver`.

use vstd::prelude::*;

verus! {

use vstd::arithmetic::div_mod::{lemma_small_mod, lemma_mod_add_multiples_vanish};

/// One decrement of a cyclic token: 0 wraps to `mt - 1`.
pub open spec fn dec_tok(v: int, mt: int) -> int {
    if v == 0 {
        mt - 1
    } else {
        v - 1
    }
}

/// One increment of a cyclic token: `mt - 1` wraps to 0.
pub open spec fn inc_tok(v: int, mt: int) -> int {
    if v == mt - 1 {
        0
    } else {
        v + 1
    }
}

/// The goal-relative token of a raw cell value: how many unit decrements
/// remain before the cell reaches the goal, i.e. `(goal - v) mod mt`.
pub open spec fn normal_token(goal: int, v: int, mt: int) -> int {
    (goal - v) % mt
}

/// The branch form of `normal_token` on in-range arguments, which is how the
/// executable normalizer computes it.
pub proof fn lemma_normal_token_branches(goal: int, v: int, mt: int)
    requires
        0 < mt,
        0 <= v < mt,
        0 <= goal < mt,
    ensures
        normal_token(goal, v, mt) == if v <= goal {
            goal - v
        } else {
            goal + mt - v
        },
        0 <= normal_token(goal, v, mt) < mt,
{
    if v <= goal {
        lemma_small_mod((goal - v) as nat, mt as nat);
    } else {
        lemma_mod_add_multiples_vanish(goal - v, mt);
        lemma_small_mod((goal + mt - v) as nat, mt as nat);
    }
}

/// Sum of all tokens of a grid.
pub open spec fn grid_sum(s: Seq<u8>) -> int
    decreases s.len(),
{
    if s.len() == 0 {
        0
    } else {
        grid_sum(s.drop_last()) + s.last()
    }
}

/// Sum of a sequence of point counts.
pub open spec fn usum(s: Seq<usize>) -> int
    decreases s.len(),
{
    if s.len() == 0 {
        0
    } else {
        usum(s.drop_last()) + s.last()
    }
}

/// Every token lies below the cycle length.
pub open spec fn tokens_lt(s: Seq<u8>, mt: int) -> bool {
    forall|c: int| 0 <= c < s.len() ==> (s[c] as int) < mt
}

/// Every cell is at the goal.
pub open spec fn all_zero(s: Seq<u8>) -> bool {
    forall|c: int| 0 <= c < s.len() ==> s[c] == 0
}

/// Every listed cell is a valid index of a grid with `n` cells.
pub open spec fn cells_in_range(cells: Seq<usize>, n: int) -> bool {
    forall|l: int| 0 <= l < cells.len() ==> (cells[l] as int) < n
}

pub open spec fn strictly_increasing(cells: Seq<usize>) -> bool {
    forall|a: int, b: int| 0 <= a < b < cells.len() ==> cells[a] < cells[b]
}

/// Whether cell `c` occurs in the pattern.
pub open spec fn covered(cells: Seq<usize>, c: int) -> bool {
    exists|l: int| 0 <= l < cells.len() && cells[l] as int == c
}

/// The grid after placing a pattern: every listed cell decremented once.
pub open spec fn apply_cells(m: Seq<u8>, cells: Seq<usize>, mt: int) -> Seq<u8>
    decreases cells.len(),
{
    if cells.len() == 0 {
        m
    } else {
        let prev = apply_cells(m, cells.drop_last(), mt);
        let c = cells.last() as int;
        prev.update(c, dec_tok(prev[c] as int, mt) as u8)
    }
}

/// The grid after removing a placed pattern: every listed cell incremented once.
pub open spec fn undo_cells(m: Seq<u8>, cells: Seq<usize>, mt: int) -> Seq<u8>
    decreases cells.len(),
{
    if cells.len() == 0 {
        m
    } else {
        let prev = undo_cells(m, cells.drop_last(), mt);
        let c = cells.last() as int;
        prev.update(c, inc_tok(prev[c] as int, mt) as u8)
    }
}

/// How many of the listed cells are currently at the goal. Placing the
/// pattern wraps exactly these cells, so this is the slack the placement
/// consumes.
pub open spec fn zero_hits(m: Seq<u8>, cells: Seq<usize>) -> int
    decreases cells.len(),
{
    if cells.len() == 0 {
        0
    } else {
        zero_hits(m, cells.drop_last()) + if m[cells.last() as int] == 0 {
            1int
        } else {
            0int
        }
    }
}

pub proof fn lemma_zero_hits_bounds(m: Seq<u8>, cells: Seq<usize>)
    ensures
        0 <= zero_hits(m, cells) <= cells.len(),
    decreases cells.len(),
{
    if cells.len() > 0 {
        lemma_zero_hits_bounds(m, cells.drop_last());
    }
}

pub proof fn lemma_grid_sum_update(s: Seq<u8>, c: int, v: u8)
    requires
        0 <= c < s.len(),
    ensures
        grid_sum(s.update(c, v)) == grid_sum(s) - s[c] + v,
    decreases s.len(),
{
    let t = s.update(c, v);
    if c == s.len() - 1 {
        assert(t.drop_last() =~= s.drop_last());
    } else {
        assert(t.drop_last() =~= s.drop_last().update(c, v));
        lemma_grid_sum_update(s.drop_last(), c, v);
    }
}

pub proof fn lemma_grid_sum_nonneg(s: Seq<u8>)
    ensures
        grid_sum(s) >= 0,
    decreases s.len(),
{
    if s.len() > 0 {
        lemma_grid_sum_nonneg(s.drop_last());
    }
}

/// A grid of nonnegative tokens whose sum is zero is entirely at the goal.
pub proof fn lemma_grid_sum_zero(s: Seq<u8>)
    requires
        grid_sum(s) == 0,
    ensures
        all_zero(s),
    decreases s.len(),
{
    if s.len() > 0 {
        lemma_grid_sum_nonneg(s.drop_last());
        lemma_grid_sum_zero(s.drop_last());
        assert forall|c: int| 0 <= c < s.len() implies s[c] == 0 by {
            if c < s.len() - 1 {
                assert(s.drop_last()[c] == 0);
            }
        }
    }
}

/// Pointwise description of `apply_cells` for a pattern without repeated
/// cells: covered cells are decremented once, all others are untouched.
pub proof fn lemma_apply_cells_char(m: Seq<u8>, cells: Seq<usize>, mt: int)
    requires
        1 <= mt <= 256,
        tokens_lt(m, mt),
        cells_in_range(cells, m.len() as int),
        strictly_increasing(cells),
    ensures
        apply_cells(m, cells, mt).len() == m.len(),
        tokens_lt(apply_cells(m, cells, mt), mt),
        forall|c: int|
            0 <= c < m.len() ==> (apply_cells(m, cells, mt)[c] as int) == if covered(cells, c) {
                dec_tok(m[c] as int, mt)
            } else {
                m[c] as int
            },
    decreases cells.len(),
{
    if cells.len() > 0 {
        let rest = cells.drop_last();
        let last = cells.last() as int;
        lemma_apply_cells_char(m, rest, mt);
        let prev = apply_cells(m, rest, mt);
        assert(!covered(rest, last));
        assert forall|c: int| 0 <= c < m.len() implies (apply_cells(m, cells, mt)[c] as int)
            == if covered(cells, c) {
                dec_tok(m[c] as int, mt)
            } else {
                m[c] as int
            } by {
            if c == last {
                assert(covered(cells, c));
            } else {
                if covered(cells, c) {
                    let l = choose|l: int| 0 <= l < cells.len() && cells[l] as int == c;
                    assert(rest[l] as int == c);
                    assert(covered(rest, c));
                }
                if covered(rest, c) {
                    let l = choose|l: int| 0 <= l < rest.len() && rest[l] as int == c;
                    assert(cells[l] as int == c);
                    assert(covered(cells, c));
                }
            }
        }
    }
}

/// Pointwise description of `undo_cells`, the mirror image of
/// `lemma_apply_cells_char`.
pub proof fn lemma_undo_cells_char(m: Seq<u8>, cells: Seq<usize>, mt: int)
    requires
        1 <= mt <= 256,
        tokens_lt(m, mt),
        cells_in_range(cells, m.len() as int),
        strictly_increasing(cells),
    ensures
        undo_cells(m, cells, mt).len() == m.len(),
        tokens_lt(undo_cells(m, cells, mt), mt),
        forall|c: int|
            0 <= c < m.len() ==> (undo_cells(m, cells, mt)[c] as int) == if covered(cells, c) {
                inc_tok(m[c] as int, mt)
            } else {
                m[c] as int
            },
    decreases cells.len(),
{
    if cells.len() > 0 {
        let rest = cells.drop_last();
        let last = cells.last() as int;
        lemma_undo_cells_char(m, rest, mt);
        assert(!covered(rest, last));
        assert forall|c: int| 0 <= c < m.len() implies (undo_cells(m, cells, mt)[c] as int)
            == if covered(cells, c) {
                inc_tok(m[c] as int, mt)
            } else {
                m[c] as int
            } by {
            if c == last {
                assert(covered(cells, c));
            } else {
                if covered(cells, c) {
                    let l = choose|l: int| 0 <= l < cells.len() && cells[l] as int == c;
                    assert(rest[l] as int == c);
                }
                if covered(rest, c) {
                    let l = choose|l: int| 0 <= l < rest.len() && rest[l] as int == c;
                    assert(cells[l] as int == c);
                }
            }
        }
    }
}

/// Placing a pattern and then removing it is the identity transform on the
/// grid: apply and undo are exact inverses.
pub proof fn lemma_apply_then_undo_is_identity(m: Seq<u8>, cells: Seq<usize>, mt: int)
    requires
        1 <= mt <= 256,
        tokens_lt(m, mt),
        cells_in_range(cells, m.len() as int),
        strictly_increasing(cells),
    ensures
        undo_cells(apply_cells(m, cells, mt), cells, mt) == m,
{
    lemma_apply_cells_char(m, cells, mt);
    let a = apply_cells(m, cells, mt);
    lemma_undo_cells_char(a, cells, mt);
    assert forall|c: int| 0 <= c < m.len() implies undo_cells(a, cells, mt)[c] == m[c] by {
        if covered(cells, c) {
            assert(a[c] as int == dec_tok(m[c] as int, mt));
        }
    }
    assert(undo_cells(a, cells, mt) =~= m);
}

/// Placing a pattern lowers the grid sum by the pattern size, except that
/// every covered at-goal cell wraps and contributes the full cycle back.
pub proof fn lemma_apply_cells_sum(m: Seq<u8>, cells: Seq<usize>, mt: int)
    requires
        1 <= mt <= 256,
        tokens_lt(m, mt),
        cells_in_range(cells, m.len() as int),
        strictly_increasing(cells),
    ensures
        grid_sum(apply_cells(m, cells, mt)) == grid_sum(m) - cells.len() + mt * zero_hits(
            m,
            cells,
        ),
    decreases cells.len(),
{
    if cells.len() > 0 {
        let rest = cells.drop_last();
        let last = cells.last() as int;
        lemma_apply_cells_sum(m, rest, mt);
        lemma_apply_cells_char(m, rest, mt);
        let prev = apply_cells(m, rest, mt);
        assert(!covered(rest, last));
        assert(prev[last] == m[last]);
        lemma_grid_sum_update(prev, last, dec_tok(prev[last] as int, mt) as u8);
        let zh = zero_hits(m, rest);
        assert(mt * (zh + 1) == mt * zh + mt) by (nonlinear_arith);
    }
}

/// Re-simulation of a list of placements, applied in order.
pub open spec fn replay(m: Seq<u8>, plays: Seq<Seq<usize>>, mt: int) -> Seq<u8>
    decreases plays.len(),
{
    if plays.len() == 0 {
        m
    } else {
        apply_cells(replay(m, plays.drop_last(), mt), plays.last(), mt)
    }
}

/// Total slack consumed while replaying a list of placements.
pub open spec fn replay_hits(m: Seq<u8>, plays: Seq<Seq<usize>>, mt: int) -> int
    decreases plays.len(),
{
    if plays.len() == 0 {
        0
    } else {
        replay_hits(m, plays.drop_last(), mt) + zero_hits(
            replay(m, plays.drop_last(), mt),
            plays.last(),
        )
    }
}

/// Total number of cells covered by a list of placements, with multiplicity.
pub open spec fn plays_pts(plays: Seq<Seq<usize>>) -> int
    decreases plays.len(),
{
    if plays.len() == 0 {
        0
    } else {
        plays_pts(plays.drop_last()) + plays.last().len()
    }
}

pub open spec fn plays_wf(plays: Seq<Seq<usize>>, n: int) -> bool {
    forall|j: int|
        0 <= j < plays.len() ==> cells_in_range(#[trigger] plays[j], n) && strictly_increasing(
            plays[j],
        )
}

/// The grid-sum ledger of a whole replay: the sum drops by the number of
/// covered cells and rises by one full cycle per consumed slack unit.
pub proof fn lemma_replay_sum(m: Seq<u8>, plays: Seq<Seq<usize>>, mt: int)
    requires
        1 <= mt <= 256,
        tokens_lt(m, mt),
        plays_wf(plays, m.len() as int),
    ensures
        replay(m, plays, mt).len() == m.len(),
        tokens_lt(replay(m, plays, mt), mt),
        grid_sum(replay(m, plays, mt)) == grid_sum(m) - plays_pts(plays) + mt * replay_hits(
            m,
            plays,
            mt,
        ),
        replay_hits(m, plays, mt) >= 0,
    decreases plays.len(),
{
    if plays.len() > 0 {
        let rest = plays.drop_last();
        assert(plays_wf(rest, m.len() as int));
        lemma_replay_sum(m, rest, mt);
        let prev = replay(m, rest, mt);
        assert(cells_in_range(plays.last(), m.len() as int) && strictly_increasing(plays.last()));
        lemma_apply_cells_char(prev, plays.last(), mt);
        lemma_apply_cells_sum(prev, plays.last(), mt);
        lemma_zero_hits_bounds(prev, plays.last());
        let rh = replay_hits(m, rest, mt);
        let zh = zero_hits(prev, plays.last());
        assert(mt * (rh + zh) == mt * rh + mt * zh) by (nonlinear_arith);
    }
}

/// A grid entirely at the goal sums to zero.
pub proof fn lemma_all_zero_sum(s: Seq<u8>)
    requires
        all_zero(s),
    ensures
        grid_sum(s) == 0,
    decreases s.len(),
{
    if s.len() > 0 {
        assert(all_zero(s.drop_last())) by {
            assert forall|c: int| 0 <= c < s.len() - 1 implies s.drop_last()[c] == 0 by {
                assert(s[c] == 0);
            }
        }
        lemma_all_zero_sum(s.drop_last());
    }
}

/// Consumed slack never decreases as a replay extends: dropping later
/// placements can only lower the count of wrapped cells.
pub proof fn lemma_replay_hits_prefix(m: Seq<u8>, plays: Seq<Seq<usize>>, mt: int, k: int)
    requires
        0 <= k <= plays.len(),
    ensures
        replay_hits(m, plays.take(k), mt) <= replay_hits(m, plays, mt),
    decreases plays.len() - k,
{
    if k < plays.len() {
        lemma_replay_hits_prefix(m, plays.drop_last(), mt, k);
        assert(plays.take(k) =~= plays.drop_last().take(k));
        lemma_zero_hits_bounds(replay(m, plays.drop_last(), mt), plays.last());
    } else {
        assert(plays.take(k) =~= plays);
    }
}

/// A replay that ends with every cell at the goal consumes exactly the
/// grid's whole slack: the surplus of total coverage over total required
/// decrements, in cycles.
pub proof fn lemma_solved_replay_consumes_exact_slack(
    m: Seq<u8>,
    plays: Seq<Seq<usize>>,
    mt: int,
    incs: int,
)
    requires
        1 <= mt <= 256,
        tokens_lt(m, mt),
        plays_wf(plays, m.len() as int),
        grid_sum(m) + mt * incs == plays_pts(plays),
        all_zero(replay(m, plays, mt)),
    ensures
        replay_hits(m, plays, mt) == incs,
{
    lemma_replay_sum(m, plays, mt);
    lemma_all_zero_sum(replay(m, plays, mt));
    let hits = replay_hits(m, plays, mt);
    assert(mt * hits - mt * incs == 0) by (nonlinear_arith)
        requires
            grid_sum(m) + mt * incs == plays_pts(plays),
            grid_sum(replay(m, plays, mt)) == grid_sum(m) - plays_pts(plays) + mt * hits,
            grid_sum(replay(m, plays, mt)) == 0,
    {}
    assert(hits == incs) by (nonlinear_arith)
        requires
            mt * hits - mt * incs == 0,
            mt >= 1,
    {}
}

/// The slack test of the search is a sound prune: once a prefix of the
/// placements has consumed more slack than the grid allows, no choice for
/// the remaining placements can bring every cell to the goal.
pub proof fn lemma_overspent_prefix_never_solves(
    m: Seq<u8>,
    plays: Seq<Seq<usize>>,
    mt: int,
    incs: int,
    k: int,
)
    requires
        1 <= mt <= 256,
        tokens_lt(m, mt),
        plays_wf(plays, m.len() as int),
        grid_sum(m) + mt * incs == plays_pts(plays),
        0 <= k <= plays.len(),
        replay_hits(m, plays.take(k), mt) > incs,
    ensures
        !all_zero(replay(m, plays, mt)),
{
    if all_zero(replay(m, plays, mt)) {
        lemma_solved_replay_consumes_exact_slack(m, plays, mt, incs);
        lemma_replay_hits_prefix(m, plays, mt, k);
    }
}

/// A strictly increasing sequence of cell indices grows at least as fast as
/// its position, so its length is bounded by any bound on its entries.
pub proof fn lemma_strictly_increasing_ge_index(s: Seq<usize>)
    requires
        strictly_increasing(s),
    ensures
        forall|l: int| 0 <= l < s.len() ==> s[l] as int >= l,
    decreases s.len(),
{
    if s.len() > 0 {
        let rest = s.drop_last();
        lemma_strictly_increasing_ge_index(rest);
        assert forall|l: int| 0 <= l < s.len() implies s[l] as int >= l by {
            if l < s.len() - 1 {
                assert(rest[l] == s[l]);
            } else if s.len() >= 2 {
                assert(rest[s.len() - 2] == s[s.len() - 2]);
                assert(s[s.len() - 2] < s[s.len() - 1]);
                assert(rest[s.len() - 2] as int >= s.len() - 2);
            }
        }
    }
}

/// `usum` written as a right fold, to connect with vstd's fold lemmas.
pub proof fn lemma_usum_fold(s: Seq<usize>, b: int)
    ensures
        s.fold_right(|x: usize, acc: int| acc + x as int, b) == usum(s) + b,
    decreases s.len(),
{
    if s.len() > 0 {
        lemma_usum_fold(s.drop_last(), b + s.last() as int);
    }
}

/// Two sequences with the same multiset of entries have the same sum.
pub proof fn lemma_usum_permutation(a: Seq<usize>, b: Seq<usize>)
    requires
        a.to_multiset() == b.to_multiset(),
    ensures
        usum(a) == usum(b),
{
    let f = |x: usize, acc: int| acc + x as int;
    assert(vstd::seq_lib::commutative_foldr(f)) by {
        assert forall|x: usize, y: usize, v: int| #[trigger] f(x, f(y, v)) == f(y, f(x, v)) by {}
    }
    vstd::seq_lib::lemma_fold_right_permutation(a, b, f, 0);
    lemma_usum_fold(a, 0);
    lemma_usum_fold(b, 0);
}

} // verus!
