//! The propagation engine.
//!
//! One elimination pass over a group (a row, a column or a block) collects
//! the values of the group's resolved cells and strikes them from every
//! unresolved cell of the group. One round performs such a pass over every
//! row, then every column, then every block, and a run is a fixed number
//! of rounds. The ghost functions here state exactly which grid a run
//! computes, and the engine is proved to compute it.

use vstd::prelude::*;

use crate::candidates::{lemma_without_values_props, without_values};
use crate::puzzle::{lemma_row_major_index, lemma_row_major_injective, SudokuPuzzle};
use crate::PuzzleError;

verus! {

broadcast use
    vstd::arithmetic::mul::group_mul_basics,
    vstd::arithmetic::mul::lemma_mul_is_commutative,
    vstd::arithmetic::div_mod::group_div_basics,
;

/// How many elimination rounds one `attempt_to_solve` call runs.
pub const SOLVE_ROUNDS: usize = 100;

/// The flat cell positions of logical row `r`.
pub open spec fn row_positions(side: int, r: int) -> Seq<int> {
    Seq::new(side as nat, |j: int| r * side + j)
}

/// The flat cell positions of logical column `c`.
pub open spec fn column_positions(side: int, c: int) -> Seq<int> {
    Seq::new(side as nat, |i: int| i * side + c)
}

/// The flat cell positions of block `b`, blocks counted row-major.
pub open spec fn block_positions(side: int, h: int, w: int, hbc: int, b: int) -> Seq<int> {
    Seq::new((h * w) as nat, |k: int| (b / hbc * h + k / w) * side + (b % hbc) * w + k % w)
}

/// The values fixed by the resolved cells of a group, in group order.
pub open spec fn taken_values(g: Seq<Seq<usize>>, positions: Seq<int>) -> Seq<usize>
    decreases positions.len(),
{
    if positions.len() == 0 {
        Seq::empty()
    } else {
        let rest = taken_values(g, positions.drop_last());
        if g[positions.last()].len() == 1 {
            rest.push(g[positions.last()][0])
        } else {
            rest
        }
    }
}

/// An elimination pass over the group leaves every unresolved cell at
/// least one candidate.
pub open spec fn group_ok(g: Seq<Seq<usize>>, positions: Seq<int>) -> bool {
    forall|k: int|
        0 <= k < positions.len() ==> g[#[trigger] positions[k]].len() == 1 || without_values(
            g[positions[k]],
            taken_values(g, positions),
        ).len() > 0
}

/// The grid after one elimination pass over one group: each unresolved
/// cell of the group loses every value taken by the group's resolved
/// cells; all other cells stay as they are.
pub open spec fn group_reduced(g: Seq<Seq<usize>>, positions: Seq<int>) -> Seq<Seq<usize>> {
    Seq::new(
        g.len(),
        |i: int|
            if positions.contains(i) && g[i].len() != 1 {
                without_values(g[i], taken_values(g, positions))
            } else {
                g[i]
            },
    )
}

/// The grid during a pass over one group, with only the first `upto`
/// group cells treated.
spec fn group_reduced_up_to(g: Seq<Seq<usize>>, positions: Seq<int>, upto: int) -> Seq<
    Seq<usize>,
> {
    Seq::new(
        g.len(),
        |i: int|
            if positions.take(upto).contains(i) && g[i].len() != 1 {
                without_values(g[i], taken_values(g, positions))
            } else {
                g[i]
            },
    )
}

/// The grid after elimination passes over `groups`, one after the other,
/// or `None` as soon as a pass would empty some cell.
pub open spec fn groups_reduced(g: Seq<Seq<usize>>, groups: Seq<Seq<int>>) -> Option<
    Seq<Seq<usize>>,
>
    decreases groups.len(),
{
    if groups.len() == 0 {
        Some(g)
    } else if !group_ok(g, groups.first()) {
        None
    } else {
        groups_reduced(group_reduced(g, groups.first()), groups.drop_first())
    }
}

/// All row groups of a grid of the given side.
pub open spec fn row_groups(side: int) -> Seq<Seq<int>> {
    Seq::new(side as nat, |r: int| row_positions(side, r))
}

/// All column groups of a grid of the given side.
pub open spec fn column_groups(side: int) -> Seq<Seq<int>> {
    Seq::new(side as nat, |c: int| column_positions(side, c))
}

/// All block groups of a grid with `nblocks` blocks of `h` by `w` cells.
pub open spec fn block_groups(side: int, h: int, w: int, hbc: int, nblocks: int) -> Seq<
    Seq<int>,
> {
    Seq::new(nblocks as nat, |b: int| block_positions(side, h, w, hbc, b))
}

/// The groups one round treats, in order: rows, then columns, then blocks.
pub open spec fn solver_groups(p: SudokuPuzzle) -> Seq<Seq<int>> {
    row_groups(p.side()) + column_groups(p.side()) + block_groups(
        p.side(),
        p.spec_block_height(),
        p.spec_block_width(),
        p.spec_horizontal_block_count(),
        p.spec_vertical_block_count() * p.spec_horizontal_block_count(),
    )
}

/// The grid after one full elimination round on a puzzle shaped like `p`.
pub open spec fn one_round(p: SudokuPuzzle, g: Seq<Seq<usize>>) -> Option<Seq<Seq<usize>>> {
    groups_reduced(g, solver_groups(p))
}

/// The grid after `rounds` full elimination rounds, or `None` as soon as
/// a round meets a contradiction.
pub open spec fn run_rounds(p: SudokuPuzzle, g: Seq<Seq<usize>>, rounds: nat) -> Option<
    Seq<Seq<usize>>,
>
    decreases rounds,
{
    if rounds == 0 {
        Some(g)
    } else {
        match one_round(p, g) {
            Some(next) => run_rounds(p, next, (rounds - 1) as nat),
            None => None,
        }
    }
}

/// Passes over concatenated group lists compose: treating `a + b` is
/// treating `a`, then treating `b` on the outcome.
pub proof fn lemma_groups_reduced_concat(g: Seq<Seq<usize>>, a: Seq<Seq<int>>, b: Seq<Seq<int>>)
    ensures
        groups_reduced(g, a + b) == (match groups_reduced(g, a) {
            Some(m) => groups_reduced(m, b),
            None => None::<Seq<Seq<usize>>>,
        }),
    decreases a.len(),
{
    if a.len() == 0 {
        assert(a + b =~= b);
    } else {
        assert((a + b).len() > 0);
        assert((a + b).first() == a.first());
        assert((a + b).drop_first() =~= a.drop_first() + b);
        if group_ok(g, a.first()) {
            lemma_groups_reduced_concat(group_reduced(g, a.first()), a.drop_first(), b);
        }
    }
}

/// Law: a grid that one full round leaves unchanged is a fixpoint of the
/// solver: any number of further rounds leaves it exactly as it is, so
/// running the solver again on an already-converged grid changes nothing.
pub proof fn lemma_rounds_at_fixpoint(p: SudokuPuzzle, g: Seq<Seq<usize>>, rounds: nat)
    requires
        one_round(p, g) == Some(g),
    ensures
        run_rounds(p, g, rounds) == Some(g),
    decreases rounds,
{
    if rounds > 0 {
        lemma_rounds_at_fixpoint(p, g, (rounds - 1) as nat);
    }
}

/// Law: rounds add up — running `a + b` rounds is running `a` rounds and
/// then `b` more on the outcome.
pub proof fn lemma_rounds_add(p: SudokuPuzzle, g: Seq<Seq<usize>>, a: nat, b: nat)
    ensures
        run_rounds(p, g, a + b) == (match run_rounds(p, g, a) {
            Some(m) => run_rounds(p, m, b),
            None => None::<Seq<Seq<usize>>>,
        }),
    decreases a,
{
    if a > 0 {
        match one_round(p, g) {
            Some(next) => {
                lemma_rounds_add(p, next, (a - 1) as nat, b);
            },
            None => {},
        }
    }
}

/// Law: the run is idempotent beyond convergence. Once `a` rounds bring
/// the grid to a fixpoint of the round, every larger round count `a + b`
/// ends on exactly that grid.
pub proof fn lemma_rounds_beyond_convergence(
    p: SudokuPuzzle,
    g: Seq<Seq<usize>>,
    fixed: Seq<Seq<usize>>,
    a: nat,
    b: nat,
)
    requires
        run_rounds(p, g, a) == Some(fixed),
        one_round(p, fixed) == Some(fixed),
    ensures
        run_rounds(p, g, a + b) == Some(fixed),
{
    lemma_rounds_add(p, g, a, b);
    lemma_rounds_at_fixpoint(p, fixed, b);
}

/// Law: a group reduction never changes a resolved cell, and a cell that
/// still holds a candidate no resolved peer of the group has taken keeps
/// that candidate, so its candidate set cannot become empty.
pub proof fn lemma_group_reduction_safety(g: Seq<Seq<usize>>, positions: Seq<int>)
    requires
        forall|k: int| 0 <= k < positions.len() ==> 0 <= #[trigger] positions[k] < g.len(),
    ensures
        group_reduced(g, positions).len() == g.len(),
        forall|i: int|
            0 <= i < g.len() && g[i].len() == 1 ==> #[trigger] group_reduced(g, positions)[i]
                == g[i],
        forall|i: int, v: usize|
            0 <= i < g.len() && g[i].contains(v) && !taken_values(g, positions).contains(v)
                ==> #[trigger] group_reduced(g, positions)[i].contains(v),
{
    assert forall|i: int, v: usize|
        0 <= i < g.len() && g[i].contains(v) && !taken_values(g, positions).contains(v)
            implies #[trigger] group_reduced(g, positions)[i].contains(v) by {
        if positions.contains(i) && g[i].len() != 1 {
            lemma_without_values_props(g[i], taken_values(g, positions));
        }
    }
}

/// The positions of one group as ghost integers.
pub open spec fn positions_view(v: Seq<usize>) -> Seq<int> {
    v.map_values(|u: usize| u as int)
}

/// The positions all lie in the grid and name pairwise distinct cells.
pub open spec fn positions_ok(v: Seq<int>, len: int) -> bool {
    &&& forall|k: int| 0 <= k < v.len() ==> 0 <= #[trigger] v[k] < len
    &&& forall|k1: int, k2: int| 0 <= k1 < k2 < v.len() ==> v[k1] != v[k2]
}

/// One elimination pass over the cells named by `positions`: collect the
/// values of the resolved cells, then strike them from every unresolved
/// cell. Reports a contradiction as soon as a cell would lose its whole
/// candidate set.
#[verifier::loop_isolation(false)]
fn reduce_group(puzzle: &mut SudokuPuzzle, positions: &Vec<usize>) -> (result: Result<
    (),
    PuzzleError,
>)
    requires
        old(puzzle).wf(),
        positions_ok(positions_view(positions@), old(puzzle).grid().len() as int),
    ensures
        final(puzzle).wf(),
        final(puzzle).spec_block_height() == old(puzzle).spec_block_height(),
        final(puzzle).spec_block_width() == old(puzzle).spec_block_width(),
        final(puzzle).spec_vertical_block_count() == old(puzzle).spec_vertical_block_count(),
        final(puzzle).spec_horizontal_block_count() == old(puzzle).spec_horizontal_block_count(),
        group_ok(old(puzzle).grid(), positions_view(positions@)) ==> result == Ok::<
            (),
            PuzzleError,
        >(()) && final(puzzle).grid() == group_reduced(
            old(puzzle).grid(),
            positions_view(positions@),
        ),
        !group_ok(old(puzzle).grid(), positions_view(positions@)) ==> result == Err::<
            (),
            PuzzleError,
        >(PuzzleError::Contradiction),
{
    let ghost g0 = puzzle.grid();
    let ghost pv = positions_view(positions@);
    let mut taken: Vec<usize> = Vec::new();
    for k in 0..positions.len()
        invariant
            taken@ == taken_values(g0, pv.take(k as int)),
    {
        let index = positions[k];
        proof {
            assert(pv[k as int] == index as int);
            assert(pv.take(k + 1).drop_last() =~= pv.take(k as int));
            assert(pv.take(k + 1).last() == pv[k as int]);
        }
        match puzzle.resolved_value_at(index) {
            Some(value) => {
                taken.push(value);
            },
            None => {},
        }
    }
    proof {
        assert(pv.take(pv.len() as int) =~= pv);
        assert(taken@ == taken_values(g0, pv));
        assert(group_reduced_up_to(g0, pv, 0) =~= g0) by {
            assert(pv.take(0) =~= Seq::<int>::empty());
        }
    }
    for k in 0..positions.len()
        invariant
            puzzle.wf(),
            puzzle.spec_block_height() == old(puzzle).spec_block_height(),
            puzzle.spec_block_width() == old(puzzle).spec_block_width(),
            puzzle.spec_vertical_block_count() == old(puzzle).spec_vertical_block_count(),
            puzzle.spec_horizontal_block_count() == old(puzzle).spec_horizontal_block_count(),
            puzzle.grid() == group_reduced_up_to(g0, pv, k as int),
            forall|k2: int|
                0 <= k2 < k ==> g0[#[trigger] pv[k2]].len() == 1 || without_values(
                    g0[pv[k2]],
                    taken_values(g0, pv),
                ).len() > 0,
    {
        let index = positions[k];
        proof {
            assert(pv[k as int] == index as int);
            assert forall|j: int| 0 <= j < k implies pv.take(k as int)[j] != pv[k as int] by {
                assert(pv.take(k as int)[j] == pv[j]);
            }
            assert(!pv.take(k as int).contains(pv[k as int]));
            assert(puzzle.grid()[index as int] == g0[index as int]);
            assert(puzzle.grid().len() == g0.len());
        }
        match puzzle.resolved_value_at(index) {
            Some(_) => {
                proof {
                    assert(g0[index as int].len() == 1);
                    assert(puzzle.grid() =~= group_reduced_up_to(g0, pv, k + 1)) by {
                        assert forall|i: int| 0 <= i < g0.len() implies group_reduced_up_to(
                            g0,
                            pv,
                            k as int,
                        )[i] == group_reduced_up_to(g0, pv, k + 1)[i] by {
                            assert(pv.take(k + 1) =~= pv.take(k as int).push(pv[k as int]));
                            if pv.take(k + 1).contains(i) && !pv.take(k as int).contains(i) {
                                assert(i == pv[k as int]);
                            }
                        }
                    }
                }
            },
            None => {
                let outcome = puzzle.remove_candidates_at(index, &taken);
                match outcome {
                    Ok(()) => {
                        proof {
                            assert(puzzle.grid() =~= group_reduced_up_to(g0, pv, k + 1)) by {
                                let prev = group_reduced_up_to(g0, pv, k as int);
                                assert(puzzle.grid() == prev.update(
                                    index as int,
                                    without_values(g0[index as int], taken_values(g0, pv)),
                                ));
                                assert(pv.take(k + 1) =~= pv.take(k as int).push(pv[k as int]));
                                assert forall|i: int|
                                    0 <= i < g0.len() implies puzzle.grid()[i]
                                    == group_reduced_up_to(g0, pv, k + 1)[i] by {
                                    if i != index as int && pv.take(k + 1).contains(i) && !pv.take(
                                        k as int,
                                    ).contains(i) {
                                        assert(i == pv[k as int]);
                                    }
                                }
                            }
                        }
                    },
                    Err(error) => {
                        proof {
                            assert(without_values(g0[index as int], taken_values(g0, pv)).len()
                                == 0);
                            assert(g0[pv[k as int]].len() != 1);
                            assert(!group_ok(g0, pv));
                            assert(error == PuzzleError::Contradiction);
                        }
                        return Err(error);
                    },
                }
            },
        }
    }
    proof {
        assert(pv.take(pv.len() as int) =~= pv);
        assert(puzzle.grid() =~= group_reduced(g0, pv));
        assert(group_ok(g0, pv));
    }
    Ok(())
}

/// The flat positions of logical row `r`, as index values.
#[verifier::loop_isolation(false)]
fn row_position_list(puzzle: &SudokuPuzzle, r: usize) -> (result: Vec<usize>)
    requires
        puzzle.wf(),
        r < puzzle.side(),
    ensures
        positions_view(result@) == row_positions(puzzle.side(), r as int),
        positions_ok(positions_view(result@), puzzle.grid().len() as int),
{
    let side = puzzle.get_height();
    proof {
        puzzle.lemma_grid_bounds();
        lemma_row_major_index(r as int, 0, puzzle.side(), puzzle.side());
    }
    let offset = r * side;
    let mut result: Vec<usize> = Vec::new();
    for j in 0..side
        invariant
            result@.len() == j,
            forall|k: int| 0 <= k < j ==> (#[trigger] result@[k]) as int == r * puzzle.side() + k,
    {
        proof {
            lemma_row_major_index(r as int, j as int, puzzle.side(), puzzle.side());
        }
        result.push(offset + j);
    }
    proof {
        assert(positions_view(result@) =~= row_positions(puzzle.side(), r as int));
        assert forall|k: int|
            0 <= k < result@.len() implies 0 <= #[trigger] positions_view(result@)[k]
            < puzzle.grid().len() as int by {
            lemma_row_major_index(r as int, k, puzzle.side(), puzzle.side());
        }
    }
    result
}

/// The flat positions of logical column `c`, as index values.
#[verifier::loop_isolation(false)]
fn column_position_list(puzzle: &SudokuPuzzle, c: usize) -> (result: Vec<usize>)
    requires
        puzzle.wf(),
        c < puzzle.side(),
    ensures
        positions_view(result@) == column_positions(puzzle.side(), c as int),
        positions_ok(positions_view(result@), puzzle.grid().len() as int),
{
    let side = puzzle.get_height();
    proof {
        puzzle.lemma_grid_bounds();
    }
    let mut result: Vec<usize> = Vec::new();
    for i in 0..side
        invariant
            result@.len() == i,
            forall|k: int| 0 <= k < i ==> (#[trigger] result@[k]) as int == k * puzzle.side() + c,
    {
        proof {
            lemma_row_major_index(i as int, c as int, puzzle.side(), puzzle.side());
        }
        result.push(i * side + c);
    }
    proof {
        assert(positions_view(result@) =~= column_positions(puzzle.side(), c as int));
        assert forall|k: int|
            0 <= k < result@.len() implies 0 <= #[trigger] positions_view(result@)[k]
            < puzzle.grid().len() as int by {
            lemma_row_major_index(k, c as int, puzzle.side(), puzzle.side());
        }
        assert forall|k1: int, k2: int|
            0 <= k1 < k2 < result@.len() implies positions_view(result@)[k1] != positions_view(
            result@,
        )[k2] by {
            if positions_view(result@)[k1] == positions_view(result@)[k2] {
                lemma_row_major_injective(k1, c as int, k2, c as int, puzzle.side());
            }
        }
    }
    result
}

/// The flat positions of the cells of block `b`, blocks counted row-major.
#[verifier::loop_isolation(false)]
fn block_position_list(puzzle: &SudokuPuzzle, b: usize) -> (result: Vec<usize>)
    requires
        puzzle.wf(),
        b < puzzle.spec_vertical_block_count() * puzzle.spec_horizontal_block_count(),
    ensures
        positions_view(result@) == block_positions(
            puzzle.side(),
            puzzle.spec_block_height(),
            puzzle.spec_block_width(),
            puzzle.spec_horizontal_block_count(),
            b as int,
        ),
        positions_ok(positions_view(result@), puzzle.grid().len() as int),
{
    let ghost side = puzzle.side();
    let ghost h = puzzle.spec_block_height();
    let ghost w = puzzle.spec_block_width();
    let ghost vbc = puzzle.spec_vertical_block_count();
    let ghost hbc = puzzle.spec_horizontal_block_count();
    proof {
        puzzle.lemma_grid_bounds();
        assert(h >= 1 && w >= 1 && vbc >= 1 && hbc >= 1) by {
            if h == 0 {
                assert(vbc * hbc == 0);
            }
        }
        vstd::arithmetic::div_mod::lemma_multiply_divide_lt(b as int, hbc, vbc);
        vstd::arithmetic::div_mod::lemma_mod_bound(b as int, hbc);
        vstd::arithmetic::div_mod::lemma_div_is_ordered(0, b as int, hbc);
    }
    let height = puzzle.get_block_height();
    let width = puzzle.get_block_width();
    let side_len = puzzle.get_height();
    let hb_count = puzzle.get_horizontal_block_count();
    let block_row = b / hb_count;
    let block_col = b % hb_count;
    let ghost brow = block_row as int;
    let ghost bcol = block_col as int;
    proof {
        // the block's top row and left column lie inside the grid
        lemma_row_major_index(brow, 0, vbc, h);
        lemma_row_major_index(bcol, 0, hbc, w);
        assert(vbc * h == side) by (nonlinear_arith)
            requires
                side == h * vbc,
        ;
        assert(hbc * w == side) by (nonlinear_arith)
            requires
                h * vbc == w * hbc,
                side == h * vbc,
        ;
    }
    let mut result: Vec<usize> = Vec::new();
    for ir in 0..height
        invariant
            result@.len() == ir * w,
            forall|k: int|
                0 <= k < result@.len() ==> (#[trigger] result@[k]) as int == (brow * h + k / w)
                    * side + bcol * w + k % w && 0 <= result@[k] < puzzle.grid().len(),
    {
        for ic in 0..width
            invariant
                result@.len() == ir * w + ic,
                forall|k: int|
                    0 <= k < result@.len() ==> (#[trigger] result@[k]) as int == (brow * h + k / w)
                        * side + bcol * w + k % w && 0 <= result@[k] < puzzle.grid().len(),
        {
            proof {
                lemma_row_major_index(brow, ir as int, vbc, h);
                lemma_row_major_index(bcol, ic as int, hbc, w);
                lemma_row_major_index(brow * h + ir as int, bcol * w + ic as int, side, side);
                vstd::arithmetic::div_mod::lemma_fundamental_div_mod_converse(
                    ir as int * w + ic as int,
                    w,
                    ir as int,
                    ic as int,
                );
                lemma_row_major_index(ir as int, ic as int, h, w);
            }
            result.push((block_row * height + ir) * side_len + block_col * width + ic);
        }
        proof {
            assert(ir * w + w == (ir + 1) * w) by (nonlinear_arith);
        }
    }
    proof {
        assert(positions_view(result@) =~= block_positions(side, h, w, hbc, b as int)) by {
            assert(result@.len() == h * w);
            assert forall|k: int| 0 <= k < h * w implies positions_view(result@)[k]
                == block_positions(side, h, w, hbc, b as int)[k] by {
                assert(b as int / hbc == brow && b as int % hbc == bcol);
            }
        }
        assert forall|k1: int, k2: int|
            0 <= k1 < k2 < result@.len() implies positions_view(result@)[k1] != positions_view(
            result@,
        )[k2] by {
            vstd::arithmetic::div_mod::lemma_fundamental_div_mod(k1, w);
            vstd::arithmetic::div_mod::lemma_fundamental_div_mod(k2, w);
            vstd::arithmetic::div_mod::lemma_mod_bound(k1, w);
            vstd::arithmetic::div_mod::lemma_mod_bound(k2, w);
            vstd::arithmetic::div_mod::lemma_div_is_ordered(0, k1, w);
            vstd::arithmetic::div_mod::lemma_div_is_ordered(0, k2, w);
            lemma_row_major_index(bcol, k1 % w, hbc, w);
            lemma_row_major_index(bcol, k2 % w, hbc, w);
            if positions_view(result@)[k1] == positions_view(result@)[k2] {
                lemma_row_major_injective(
                    brow * h + k1 / w,
                    bcol * w + k1 % w,
                    brow * h + k2 / w,
                    bcol * w + k2 % w,
                    side,
                );
                assert(k1 / w == k2 / w && k1 % w == k2 % w);
            }
        }
    }
    result
}

/// One elimination pass over every row.
#[verifier::loop_isolation(false)]
pub fn reduce_by_row(puzzle: &mut SudokuPuzzle) -> (result: Result<(), PuzzleError>)
    requires
        old(puzzle).wf(),
    ensures
        final(puzzle).wf(),
        final(puzzle).spec_block_height() == old(puzzle).spec_block_height(),
        final(puzzle).spec_block_width() == old(puzzle).spec_block_width(),
        final(puzzle).spec_vertical_block_count() == old(puzzle).spec_vertical_block_count(),
        final(puzzle).spec_horizontal_block_count() == old(puzzle).spec_horizontal_block_count(),
        groups_reduced(old(puzzle).grid(), row_groups(old(puzzle).side())) matches Some(m) ==> (
        result == Ok::<(), PuzzleError>(()) && final(puzzle).grid() == m),
        groups_reduced(old(puzzle).grid(), row_groups(old(puzzle).side())) is None ==> result
            == Err::<(), PuzzleError>(PuzzleError::Contradiction),
{
    let ghost g0 = puzzle.grid();
    let ghost side0 = puzzle.side();
    proof {
        assert(row_groups(side0).skip(0) =~= row_groups(side0));
    }
    let side = puzzle.get_height();
    for r in 0..side
        invariant
            puzzle.wf(),
            puzzle.spec_block_height() == old(puzzle).spec_block_height(),
            puzzle.spec_block_width() == old(puzzle).spec_block_width(),
            puzzle.spec_vertical_block_count() == old(puzzle).spec_vertical_block_count(),
            puzzle.spec_horizontal_block_count() == old(puzzle).spec_horizontal_block_count(),
            groups_reduced(g0, row_groups(side0)) == groups_reduced(
                puzzle.grid(),
                row_groups(side0).skip(r as int),
            ),
    {
        let positions = row_position_list(puzzle, r);
        let ghost gprev = puzzle.grid();
        proof {
            assert(row_groups(side0).skip(r as int).first() == row_positions(side0, r as int));
        }
        match reduce_group(puzzle, &positions) {
            Ok(()) => {
                proof {
                    assert(puzzle.grid() == group_reduced(gprev, row_positions(side0, r as int)));
                    assert(row_groups(side0).skip(r as int).drop_first() =~= row_groups(
                        side0,
                    ).skip(r + 1));
                }
            },
            Err(error) => {
                proof {
                    assert(groups_reduced(gprev, row_groups(side0).skip(r as int)) is None);
                    assert(error == PuzzleError::Contradiction);
                }
                return Err(error);
            },
        }
    }
    proof {
        assert(row_groups(side0).skip(side0) =~= Seq::<Seq<int>>::empty());
    }
    Ok(())
}

/// One elimination pass over every column.
#[verifier::loop_isolation(false)]
pub fn reduce_by_column(puzzle: &mut SudokuPuzzle) -> (result: Result<(), PuzzleError>)
    requires
        old(puzzle).wf(),
    ensures
        final(puzzle).wf(),
        final(puzzle).spec_block_height() == old(puzzle).spec_block_height(),
        final(puzzle).spec_block_width() == old(puzzle).spec_block_width(),
        final(puzzle).spec_vertical_block_count() == old(puzzle).spec_vertical_block_count(),
        final(puzzle).spec_horizontal_block_count() == old(puzzle).spec_horizontal_block_count(),
        groups_reduced(old(puzzle).grid(), column_groups(old(puzzle).side())) matches Some(m) ==> (
        result == Ok::<(), PuzzleError>(()) && final(puzzle).grid() == m),
        groups_reduced(old(puzzle).grid(), column_groups(old(puzzle).side())) is None ==> result
            == Err::<(), PuzzleError>(PuzzleError::Contradiction),
{
    let ghost g0 = puzzle.grid();
    let ghost side0 = puzzle.side();
    proof {
        assert(column_groups(side0).skip(0) =~= column_groups(side0));
    }
    let side = puzzle.get_height();
    for c in 0..side
        invariant
            puzzle.wf(),
            puzzle.spec_block_height() == old(puzzle).spec_block_height(),
            puzzle.spec_block_width() == old(puzzle).spec_block_width(),
            puzzle.spec_vertical_block_count() == old(puzzle).spec_vertical_block_count(),
            puzzle.spec_horizontal_block_count() == old(puzzle).spec_horizontal_block_count(),
            groups_reduced(g0, column_groups(side0)) == groups_reduced(
                puzzle.grid(),
                column_groups(side0).skip(c as int),
            ),
    {
        let positions = column_position_list(puzzle, c);
        let ghost gprev = puzzle.grid();
        proof {
            assert(column_groups(side0).skip(c as int).first() == column_positions(
                side0,
                c as int,
            ));
        }
        match reduce_group(puzzle, &positions) {
            Ok(()) => {
                proof {
                    assert(puzzle.grid() == group_reduced(
                        gprev,
                        column_positions(side0, c as int),
                    ));
                    assert(column_groups(side0).skip(c as int).drop_first() =~= column_groups(
                        side0,
                    ).skip(c + 1));
                }
            },
            Err(error) => {
                proof {
                    assert(groups_reduced(gprev, column_groups(side0).skip(c as int)) is None);
                    assert(error == PuzzleError::Contradiction);
                }
                return Err(error);
            },
        }
    }
    proof {
        assert(column_groups(side0).skip(side0) =~= Seq::<Seq<int>>::empty());
    }
    Ok(())
}

/// One elimination pass over every block.
#[verifier::loop_isolation(false)]
pub fn reduce_by_block(puzzle: &mut SudokuPuzzle) -> (result: Result<(), PuzzleError>)
    requires
        old(puzzle).wf(),
    ensures
        final(puzzle).wf(),
        final(puzzle).spec_block_height() == old(puzzle).spec_block_height(),
        final(puzzle).spec_block_width() == old(puzzle).spec_block_width(),
        final(puzzle).spec_vertical_block_count() == old(puzzle).spec_vertical_block_count(),
        final(puzzle).spec_horizontal_block_count() == old(puzzle).spec_horizontal_block_count(),
        groups_reduced(
            old(puzzle).grid(),
            block_groups(
                old(puzzle).side(),
                old(puzzle).spec_block_height(),
                old(puzzle).spec_block_width(),
                old(puzzle).spec_horizontal_block_count(),
                old(puzzle).spec_vertical_block_count() * old(puzzle).spec_horizontal_block_count(),
            ),
        ) matches Some(m) ==> (result == Ok::<(), PuzzleError>(()) && final(puzzle).grid() == m),
        groups_reduced(
            old(puzzle).grid(),
            block_groups(
                old(puzzle).side(),
                old(puzzle).spec_block_height(),
                old(puzzle).spec_block_width(),
                old(puzzle).spec_horizontal_block_count(),
                old(puzzle).spec_vertical_block_count() * old(puzzle).spec_horizontal_block_count(),
            ),
        ) is None ==> result == Err::<(), PuzzleError>(PuzzleError::Contradiction),
{
    let ghost g0 = puzzle.grid();
    let ghost side0 = puzzle.side();
    let ghost h0 = puzzle.spec_block_height();
    let ghost w0 = puzzle.spec_block_width();
    let ghost hbc0 = puzzle.spec_horizontal_block_count();
    let ghost vbc0 = puzzle.spec_vertical_block_count();
    let ghost blocks0 = block_groups(side0, h0, w0, hbc0, vbc0 * hbc0);
    proof {
        puzzle.lemma_grid_bounds();
        if vbc0 >= 1 {
            assert(vbc0 * hbc0 <= (h0 * vbc0) * (w0 * hbc0)) by (nonlinear_arith)
                requires
                    h0 >= 1 && w0 >= 1 && vbc0 >= 1 && hbc0 >= 1,
            ;
            assert((h0 * vbc0) * (w0 * hbc0) == side0 * side0);
        }
    }
    proof {
        assert(blocks0.skip(0) =~= blocks0);
    }
    let block_count = puzzle.get_vertical_block_count() * puzzle.get_horizontal_block_count();
    for b in 0..block_count
        invariant
            puzzle.wf(),
            puzzle.spec_block_height() == old(puzzle).spec_block_height(),
            puzzle.spec_block_width() == old(puzzle).spec_block_width(),
            puzzle.spec_vertical_block_count() == old(puzzle).spec_vertical_block_count(),
            puzzle.spec_horizontal_block_count() == old(puzzle).spec_horizontal_block_count(),
            groups_reduced(g0, blocks0) == groups_reduced(
                puzzle.grid(),
                blocks0.skip(b as int),
            ),
    {
        let positions = block_position_list(puzzle, b);
        let ghost gprev = puzzle.grid();
        proof {
            assert(blocks0.skip(b as int).first() == block_positions(
                side0,
                h0,
                w0,
                hbc0,
                b as int,
            ));
        }
        match reduce_group(puzzle, &positions) {
            Ok(()) => {
                proof {
                    assert(puzzle.grid() == group_reduced(
                        gprev,
                        block_positions(side0, h0, w0, hbc0, b as int),
                    ));
                    assert(blocks0.skip(b as int).drop_first() =~= blocks0.skip(b + 1));
                }
            },
            Err(error) => {
                proof {
                    assert(groups_reduced(gprev, blocks0.skip(b as int)) is None);
                    assert(error == PuzzleError::Contradiction);
                }
                return Err(error);
            },
        }
    }
    proof {
        assert(blocks0.skip(vbc0 * hbc0) =~= Seq::<Seq<int>>::empty());
    }
    Ok(())
}

/// Runs `rounds` elimination rounds against the puzzle in place. Each
/// round passes over every row, then every column, then every block.
/// Convergence is not detected: all the rounds run whether or not they
/// still change anything. Reports a contradiction, leaving the grid well
/// formed, when elimination would empty some cell: the puzzle is then
/// unsatisfiable.
#[verifier::loop_isolation(false)]
pub fn solve_for_rounds(puzzle: &mut SudokuPuzzle, rounds: usize) -> (result: Result<
    (),
    PuzzleError,
>)
    requires
        old(puzzle).wf(),
    ensures
        final(puzzle).wf(),
        final(puzzle).spec_block_height() == old(puzzle).spec_block_height(),
        final(puzzle).spec_block_width() == old(puzzle).spec_block_width(),
        final(puzzle).spec_vertical_block_count() == old(puzzle).spec_vertical_block_count(),
        final(puzzle).spec_horizontal_block_count() == old(puzzle).spec_horizontal_block_count(),
        run_rounds(*old(puzzle), old(puzzle).grid(), rounds as nat) matches Some(m) ==> (result
            == Ok::<(), PuzzleError>(()) && final(puzzle).grid() == m),
        run_rounds(*old(puzzle), old(puzzle).grid(), rounds as nat) is None ==> result == Err::<
            (),
            PuzzleError,
        >(PuzzleError::Contradiction),
{
    let ghost p0 = *old(puzzle);
    let ghost g0 = puzzle.grid();
    let ghost rows = row_groups(p0.side());
    let ghost cols = column_groups(p0.side());
    let ghost blocks = block_groups(
        p0.side(),
        p0.spec_block_height(),
        p0.spec_block_width(),
        p0.spec_horizontal_block_count(),
        p0.spec_vertical_block_count() * p0.spec_horizontal_block_count(),
    );
    for round in 0..rounds
        invariant
            puzzle.wf(),
            puzzle.spec_block_height() == p0.spec_block_height(),
            puzzle.spec_block_width() == p0.spec_block_width(),
            puzzle.spec_vertical_block_count() == p0.spec_vertical_block_count(),
            puzzle.spec_horizontal_block_count() == p0.spec_horizontal_block_count(),
            run_rounds(p0, g0, rounds as nat) == run_rounds(
                p0,
                puzzle.grid(),
                (rounds - round) as nat,
            ),
    {
        let ghost gp = puzzle.grid();
        proof {
            lemma_groups_reduced_concat(gp, rows + cols, blocks);
            lemma_groups_reduced_concat(gp, rows, cols);
            assert(solver_groups(p0) == (rows + cols) + blocks);
        }
        match reduce_by_row(puzzle) {
            Ok(()) => {},
            Err(error) => {
                proof {
                    assert(groups_reduced(gp, rows) is None);
                    assert(one_round(p0, gp) is None);
                    assert(error == PuzzleError::Contradiction);
                }
                return Err(error);
            },
        }
        let ghost g1 = puzzle.grid();
        proof {
            assert(groups_reduced(gp, rows) == Some(g1));
        }
        match reduce_by_column(puzzle) {
            Ok(()) => {},
            Err(error) => {
                proof {
                    assert(groups_reduced(g1, cols) is None);
                    assert(groups_reduced(gp, rows + cols) is None);
                    assert(one_round(p0, gp) is None);
                    assert(error == PuzzleError::Contradiction);
                }
                return Err(error);
            },
        }
        let ghost g2 = puzzle.grid();
        proof {
            assert(groups_reduced(g1, cols) == Some(g2));
            assert(groups_reduced(gp, rows + cols) == Some(g2));
        }
        match reduce_by_block(puzzle) {
            Ok(()) => {},
            Err(error) => {
                proof {
                    assert(groups_reduced(g2, blocks) is None);
                    assert(one_round(p0, gp) is None);
                    assert(error == PuzzleError::Contradiction);
                }
                return Err(error);
            },
        }
        proof {
            assert(groups_reduced(g2, blocks) == Some(puzzle.grid()));
            assert(one_round(p0, gp) == Some(puzzle.grid()));
        }
    }
    Ok(())
}

/// Runs the propagation engine for its default round budget against the
/// puzzle in place. See `solve_for_rounds`.
pub fn attempt_to_solve(puzzle: &mut SudokuPuzzle) -> (result: Result<(), PuzzleError>)
    requires
        old(puzzle).wf(),
    ensures
        final(puzzle).wf(),
        final(puzzle).spec_block_height() == old(puzzle).spec_block_height(),
        final(puzzle).spec_block_width() == old(puzzle).spec_block_width(),
        final(puzzle).spec_vertical_block_count() == old(puzzle).spec_vertical_block_count(),
        final(puzzle).spec_horizontal_block_count() == old(puzzle).spec_horizontal_block_count(),
        run_rounds(*old(puzzle), old(puzzle).grid(), SOLVE_ROUNDS as nat) matches Some(m) ==> (
        result == Ok::<(), PuzzleError>(()) && final(puzzle).grid() == m),
        run_rounds(*old(puzzle), old(puzzle).grid(), SOLVE_ROUNDS as nat) is None ==> result
            == Err::<(), PuzzleError>(PuzzleError::Contradiction),
{
    solve_for_rounds(puzzle, SOLVE_ROUNDS)
}

} // verus!
