//! The grid model: cells, blocks, and the puzzle itself.
//!
//! A cell holds the set of values it may still take, as a strictly
//! increasing candidate list. A block is a rectangular arrangement of
//! cells. A puzzle keeps all its cells in one flat row-major store, so a
//! row, column or block view is just a projection by index.

use vstd::prelude::*;

use crate::candidates::{
    all_in_range, full_range, lemma_without_value_len, lemma_without_values_props, list_contains,
    wf_candidates, without_value, without_values,
};
use crate::PuzzleError;

verus! {

broadcast use vstd::arithmetic::mul::group_mul_basics, vstd::arithmetic::mul::lemma_mul_is_commutative;

/// A row-major position lies inside the store.
pub proof fn lemma_row_major_index(r: int, c: int, h: int, w: int)
    by (nonlinear_arith)
    requires
        0 <= r < h,
        0 <= c < w,
    ensures
        0 <= r * w + c < h * w,
{
}

/// Row-major positions are distinct for distinct coordinates.
pub proof fn lemma_row_major_injective(r1: int, c1: int, r2: int, c2: int, w: int)
    by (nonlinear_arith)
    requires
        0 <= c1 < w,
        0 <= c2 < w,
        r1 >= 0,
        r2 >= 0,
        r1 * w + c1 == r2 * w + c2,
    ensures
        r1 == r2 && c1 == c2,
{
}

/// One grid position: the set of values it may still legally hold.
pub struct SudokuPuzzleCell {
    possibilities: Vec<usize>,
}

impl View for SudokuPuzzleCell {
    type V = Seq<usize>;

    closed spec fn view(&self) -> Seq<usize> {
        self.possibilities@
    }
}

impl Clone for SudokuPuzzleCell {
    /// A cloned cell carries the same candidate list.
    fn clone(&self) -> (result: Self)
        ensures
            result@ == self@,
    {
        SudokuPuzzleCell { possibilities: self.possibilities.clone() }
    }
}

impl SudokuPuzzleCell {
    /// A cell is well formed when it has at least one candidate left and
    /// its candidate list is strictly increasing.
    pub open spec fn wf(&self) -> bool {
        wf_candidates(self@)
    }

    /// A cell is resolved when exactly one candidate remains.
    pub open spec fn spec_resolved(&self) -> bool {
        self@.len() == 1
    }

    /// Creates a cell holding the full candidate range `1..=max_value`.
    /// Asking for an empty range is an error.
    pub fn new(max_value: usize) -> (result: Result<Self, PuzzleError>)
        ensures
            max_value == 0 ==> result == Err::<Self, PuzzleError>(PuzzleError::EmptyCandidateRange),
            max_value >= 1 ==> (result matches Ok(cell) && cell@ == full_range(max_value)
                && cell.wf()),
    {
        let mut possibilities: Vec<usize> = Vec::new();
        for i in 0..max_value
            invariant
                possibilities@ == full_range(max_value).take(i as int),
        {
            possibilities.push(i + 1);
            assert(possibilities@ =~= full_range(max_value).take(i + 1));
        }
        if possibilities.is_empty() {
            return Err(PuzzleError::EmptyCandidateRange);
        }
        assert(possibilities@ =~= full_range(max_value));
        let cell = SudokuPuzzleCell { possibilities };
        assert(cell.wf());
        Ok(cell)
    }

    /// The candidate list, in increasing order.
    pub fn get_possibilities(&self) -> (result: Vec<usize>)
        ensures
            result@ == self@,
    {
        self.possibilities.clone()
    }

    /// The cell's value: the single remaining candidate of a resolved
    /// cell, or `None` while several candidates remain.
    pub fn get_value(&self) -> (result: Option<usize>)
        ensures
            self@.len() == 1 ==> result == Some(self@[0]),
            self@.len() != 1 ==> result is None,
    {
        if self.possibilities.len() != 1 {
            return None;
        }
        Some(self.possibilities[0])
    }

    /// Whether the cell is resolved.
    pub fn has_value(&self) -> (result: bool)
        ensures
            result == self.spec_resolved(),
    {
        self.possibilities.len() == 1
    }

    /// Collapses the candidate set to `value`. The value must currently be
    /// a candidate; otherwise nothing changes and an error is reported.
    pub fn set_value(&mut self, value: usize) -> (result: Result<(), PuzzleError>)
        ensures
            old(self)@.contains(value) ==> result == Ok::<(), PuzzleError>(())
                && final(self)@ == seq![value],
            !old(self)@.contains(value) ==> result == Err::<(), PuzzleError>(
                PuzzleError::ValueNotCandidate,
            ) && final(self)@ == old(self)@,
            final(self).wf() || final(self)@ == old(self)@,
    {
        if !self.contains_possibility(value) {
            return Err(PuzzleError::ValueNotCandidate);
        }
        self.possibilities = vec![value];
        assert(self@ =~= seq![value]);
        Ok(())
    }

    /// Whether `possibility` is still a candidate for this cell.
    pub fn contains_possibility(&self, possibility: usize) -> (result: bool)
        ensures
            result == self@.contains(possibility),
    {
        list_contains(&self.possibilities, possibility)
    }

    /// Strikes `possibility` from the candidate set. Removing from an
    /// already-resolved cell is an error that changes nothing; removing a
    /// value that was already absent is a silent no-op.
    pub fn remove_possibility(&mut self, possibility: usize) -> (result: Result<(), PuzzleError>)
        requires
            old(self).wf(),
        ensures
            final(self).wf(),
            old(self)@.len() == 1 ==> result == Err::<(), PuzzleError>(
                PuzzleError::RemoveFromResolved,
            ) && final(self)@ == old(self)@,
            old(self)@.len() != 1 ==> result == Ok::<(), PuzzleError>(()) && final(self)@
                == without_value(old(self)@, possibility),
            !old(self)@.contains(possibility) ==> final(self)@ == old(self)@,
    {
        if self.possibilities.len() == 1 {
            return Err(PuzzleError::RemoveFromResolved);
        }
        proof {
            lemma_without_value_len(self@, possibility);
            lemma_without_values_props(self@, seq![possibility]);
        }
        let ghost old_list = self@;
        let mut kept: Vec<usize> = Vec::new();
        let mut k: usize = 0;
        while k < self.possibilities.len()
            invariant
                k <= self.possibilities@.len(),
                self.possibilities@ == old_list,
                kept@ == without_value(old_list.take(k as int), possibility),
            decreases self.possibilities@.len() - k,
        {
            let current = self.possibilities[k];
            proof {
                assert(old_list.take(k + 1).drop_last() =~= old_list.take(k as int));
                assert(old_list.take(k + 1).last() == old_list[k as int]);
                assert(seq![possibility].contains(current) <==> current == possibility) by {
                    assert(seq![possibility][0] == possibility);
                }
            }
            if current != possibility {
                kept.push(current);
            }
            assert(kept@ == without_value(old_list.take(k + 1), possibility));
            k += 1;
        }
        assert(old_list.take(old_list.len() as int) =~= old_list);
        self.possibilities = kept;
        Ok(())
    }

    /// Strikes every member of `taken` from the candidate set at once, as
    /// one elimination step of the propagation engine. Removing from a
    /// resolved cell is an error; an elimination that would empty the set
    /// reports a contradiction and changes nothing.
    pub fn remove_possibilities(&mut self, taken: &Vec<usize>) -> (result: Result<
        (),
        PuzzleError,
    >)
        requires
            old(self).wf(),
        ensures
            final(self).wf(),
            old(self)@.len() == 1 ==> result == Err::<(), PuzzleError>(
                PuzzleError::RemoveFromResolved,
            ) && final(self)@ == old(self)@,
            old(self)@.len() != 1 && without_values(old(self)@, taken@).len() == 0 ==> result
                == Err::<(), PuzzleError>(PuzzleError::Contradiction) && final(self)@ == old(self)@,
            old(self)@.len() != 1 && without_values(old(self)@, taken@).len() > 0 ==> result
                == Ok::<(), PuzzleError>(()) && final(self)@ == without_values(
                old(self)@,
                taken@,
            ),
    {
        if self.possibilities.len() == 1 {
            return Err(PuzzleError::RemoveFromResolved);
        }
        proof {
            lemma_without_values_props(self@, taken@);
        }
        let ghost old_list = self@;
        let mut kept: Vec<usize> = Vec::new();
        let mut k: usize = 0;
        while k < self.possibilities.len()
            invariant
                k <= self.possibilities@.len(),
                self.possibilities@ == old_list,
                kept@ == without_values(old_list.take(k as int), taken@),
            decreases self.possibilities@.len() - k,
        {
            let current = self.possibilities[k];
            proof {
                assert(old_list.take(k + 1).drop_last() =~= old_list.take(k as int));
                assert(old_list.take(k + 1).last() == old_list[k as int]);
            }
            if !list_contains(taken, current) {
                kept.push(current);
            }
            assert(kept@ == without_values(old_list.take(k + 1), taken@));
            k += 1;
        }
        assert(old_list.take(old_list.len() as int) =~= old_list);
        if kept.is_empty() {
            return Err(PuzzleError::Contradiction);
        }
        self.possibilities = kept;
        Ok(())
    }
}

/// A rectangular arrangement of cells, laid out row-major. Every cell of a
/// fresh block starts with the full candidate range `1..=height*width`, so
/// the block's cell count equals the greatest admissible value.
pub struct SudokuPuzzleBlock {
    height: usize,
    width: usize,
    cells: Vec<SudokuPuzzleCell>,
}

impl View for SudokuPuzzleBlock {
    type V = Seq<Seq<usize>>;

    closed spec fn view(&self) -> Seq<Seq<usize>> {
        self.cells@.map_values(|c: SudokuPuzzleCell| c@)
    }
}

impl SudokuPuzzleBlock {
    /// The number of cell rows of this block.
    pub closed spec fn spec_height(&self) -> int {
        self.height as int
    }

    /// The number of cell columns of this block.
    pub closed spec fn spec_width(&self) -> int {
        self.width as int
    }

    /// The greatest value a cell of this block may hold.
    pub open spec fn max_value(&self) -> int {
        self.spec_height() * self.spec_width()
    }

    /// A block is well formed when it has at least one row and one column,
    /// holds exactly `height * width` cells, and every cell is a well
    /// formed candidate list over `1..=height*width`.
    pub open spec fn wf(&self) -> bool {
        &&& self.spec_height() >= 1
        &&& self.spec_width() >= 1
        &&& self@.len() == self.spec_height() * self.spec_width()
        &&& forall|k: int|
            0 <= k < self@.len() ==> wf_candidates(#[trigger] self@[k]) && all_in_range(
                self@[k],
                self.max_value(),
            )
    }

    proof fn lemma_cells_wf(&self)
        requires
            self.wf(),
        ensures
            self.cells@.len() == self@.len(),
            self@.len() <= usize::MAX,
            forall|k: int| 0 <= k < self.cells@.len() ==> (#[trigger] self.cells@[k])@ == self@[k]
                && self.cells@[k].wf(),
    {
        vstd::std_specs::vec::axiom_spec_len(&self.cells);
        assert forall|k: int| 0 <= k < self.cells@.len() implies (#[trigger] self.cells@[k])@
            == self@[k] && self.cells@[k].wf() by {
            assert(self@[k] == self.cells@[k]@);
        }
    }

    /// Creates a `height` by `width` block whose cells all hold the full
    /// candidate range. A block without cells cannot be built: it would
    /// mean an empty candidate range.
    pub fn new(height: usize, width: usize) -> (result: Result<Self, PuzzleError>)
        requires
            height * width <= usize::MAX,
        ensures
            height == 0 || width == 0 ==> result == Err::<Self, PuzzleError>(
                PuzzleError::EmptyCandidateRange,
            ),
            height >= 1 && width >= 1 ==> (result matches Ok(block) && block.wf()
                && block.spec_height() == height && block.spec_width() == width && forall|k: int|
                0 <= k < block@.len() ==> #[trigger] block@[k] == full_range(
                    (height * width) as usize,
                )),
    {
        proof {
            vstd::arithmetic::mul::lemma_mul_nonnegative(height as int, width as int);
        }
        let count = height * width;
        if count == 0 {
            proof {
                if height >= 1 && width >= 1 {
                    vstd::arithmetic::mul::lemma_mul_strictly_positive(
                        height as int,
                        width as int,
                    );
                }
            }
            return Err(PuzzleError::EmptyCandidateRange);
        }
        let mut cells: Vec<SudokuPuzzleCell> = Vec::new();
        for k in 0..count
            invariant
                count >= 1,
                count == height * width,
                cells@.len() == k,
                forall|i: int| 0 <= i < k ==> (#[trigger] cells@[i])@ == full_range(count),
        {
            let cell = match SudokuPuzzleCell::new(count) {
                Ok(cell) => cell,
                Err(_) => vstd::pervasive::unreached(),
            };
            cells.push(cell);
        }
        let block = SudokuPuzzleBlock { height, width, cells };
        proof {
            if height == 0 || width == 0 {
                assert(count == 0);
            }
            assert forall|k: int| 0 <= k < block@.len() implies #[trigger] block@[k] == full_range(
                count,
            ) by {
                assert(block@[k] == block.cells@[k]@);
            }
            assert forall|k: int|
                0 <= k < block@.len() implies wf_candidates(#[trigger] block@[k]) && all_in_range(
                block@[k],
                block.max_value(),
            ) by {
                assert(block@[k] == full_range(count));
                assert(forall|i: int|
                    0 <= i < full_range(count).len() ==> #[trigger] full_range(count)[i] == i + 1);
            }
        }
        Ok(block)
    }

    /// The number of cell rows of this block.
    pub fn get_cell_height(&self) -> (result: usize)
        ensures
            result == self.spec_height(),
    {
        self.height
    }

    /// The number of cell columns of this block.
    pub fn get_cell_width(&self) -> (result: usize)
        ensures
            result == self.spec_width(),
    {
        self.width
    }

    /// The cells of one internal row, left to right. An out-of-range row
    /// index yields the empty sequence.
    pub fn get_block_row(&self, row_index: usize) -> (result: Vec<SudokuPuzzleCell>)
        requires
            self.wf(),
        ensures
            row_index < self.spec_height() ==> result@.len() == self.spec_width() && forall|j: int|
                0 <= j < result@.len() ==> (#[trigger] result@[j])@ == self@[row_index
                    * self.spec_width() + j] && result@[j].wf(),
            row_index >= self.spec_height() ==> result@.len() == 0,
    {
        if row_index >= self.height {
            return Vec::new();
        }
        proof {
            self.lemma_cells_wf();
            lemma_row_major_index(
                row_index as int,
                self.spec_width() - 1,
                self.spec_height(),
                self.spec_width(),
            );
        }
        let offset = row_index * self.width;
        let mut result: Vec<SudokuPuzzleCell> = Vec::new();
        for j in 0..self.width
            invariant
                self.wf(),
                row_index < self.spec_height(),
                offset == row_index * self.spec_width(),
                offset + self.spec_width() <= self.cells@.len(),
                result@.len() == j,
                forall|i: int|
                    0 <= i < j ==> (#[trigger] result@[i])@ == self@[offset + i]
                        && result@[i].wf(),
        {
            proof {
                self.lemma_cells_wf();
                lemma_row_major_index(
                    row_index as int,
                    j as int,
                    self.spec_height(),
                    self.spec_width(),
                );
            }
            result.push(self.cells[offset + j].clone());
        }
        result
    }

    /// The cells of one internal column, top to bottom. An out-of-range
    /// column index yields the empty sequence.
    pub fn get_block_column(&self, column_index: usize) -> (result: Vec<SudokuPuzzleCell>)
        requires
            self.wf(),
        ensures
            column_index < self.spec_width() ==> result@.len() == self.spec_height() && forall|
                i: int,
            |
                0 <= i < result@.len() ==> (#[trigger] result@[i])@ == self@[i
                    * self.spec_width() + column_index] && result@[i].wf(),
            column_index >= self.spec_width() ==> result@.len() == 0,
    {
        if column_index >= self.width {
            return Vec::new();
        }
        let mut result: Vec<SudokuPuzzleCell> = Vec::new();
        for i in 0..self.height
            invariant
                self.wf(),
                column_index < self.spec_width(),
                result@.len() == i,
                forall|r: int|
                    0 <= r < i ==> (#[trigger] result@[r])@ == self@[r
                        * self.spec_width() + column_index] && result@[r].wf(),
        {
            proof {
                self.lemma_cells_wf();
                lemma_row_major_index(
                    i as int,
                    column_index as int,
                    self.spec_height(),
                    self.spec_width(),
                );
            }
            result.push(self.cells[i * self.width + column_index].clone());
        }
        result
    }

    /// Collapses the cell at `(row_index, column_index)` to `value`. The
    /// value must currently be a candidate of that cell.
    pub fn set_cell_value(&mut self, row_index: usize, column_index: usize, value: usize) -> (result:
        Result<(), PuzzleError>)
        requires
            old(self).wf(),
            row_index < old(self).spec_height(),
            column_index < old(self).spec_width(),
        ensures
            final(self).wf(),
            final(self).spec_height() == old(self).spec_height(),
            final(self).spec_width() == old(self).spec_width(),
            old(self)@[row_index * old(self).spec_width() + column_index].contains(value) ==> result
                == Ok::<(), PuzzleError>(()) && final(self)@ == old(self)@.update(
                row_index * old(self).spec_width() + column_index,
                seq![value],
            ),
            !old(self)@[row_index * old(self).spec_width() + column_index].contains(value)
                ==> result == Err::<(), PuzzleError>(PuzzleError::ValueNotCandidate) && final(self)@ == old(self)@,
    {
        proof {
            self.lemma_cells_wf();
            lemma_row_major_index(
                row_index as int,
                column_index as int,
                self.spec_height(),
                self.spec_width(),
            );
        }
        let index = row_index * self.width + column_index;
        let ghost old_block = *self;
        let cell = &mut self.cells[index];
        let result = cell.set_value(value);
        proof {
            assert forall|k: int| 0 <= k < self@.len() implies (#[trigger] self@[k]) == (if k
                == index {
                self.cells@[index as int]@
            } else {
                old_block@[k]
            }) by {}
            if old_block@[index as int].contains(value) {
                assert(self@ =~= old_block@.update(index as int, seq![value]));
                assert(1 <= value <= old_block.max_value());
            } else {
                assert(self@ =~= old_block@);
            }
        }
        result
    }

    /// Collapses the cell at `(row_index, column_index)` to `value` when
    /// `value` is not zero; a zero stands for a blank and changes nothing.
    pub fn set_cell_value_if_nonzero(
        &mut self,
        row_index: usize,
        column_index: usize,
        value: usize,
    ) -> (result: Result<(), PuzzleError>)
        requires
            old(self).wf(),
            row_index < old(self).spec_height(),
            column_index < old(self).spec_width(),
        ensures
            final(self).wf(),
            final(self).spec_height() == old(self).spec_height(),
            final(self).spec_width() == old(self).spec_width(),
            value == 0 ==> result == Ok::<(), PuzzleError>(()) && final(self)@ == old(self)@,
            value != 0 && old(self)@[row_index * old(self).spec_width() + column_index].contains(
                value,
            ) ==> result == Ok::<(), PuzzleError>(()) && final(self)@ == old(self)@.update(
                row_index * old(self).spec_width() + column_index,
                seq![value],
            ),
            value != 0 && !old(self)@[row_index * old(self).spec_width() + column_index].contains(
                value,
            ) ==> result == Err::<(), PuzzleError>(PuzzleError::ValueNotCandidate) && final(self)@ == old(self)@,
    {
        if value != 0 {
            self.set_cell_value(row_index, column_index, value)
        } else {
            Ok(())
        }
    }
}

/// The block rows handed to the puzzle constructor, as a ghost table.
pub open spec fn block_table(rows: Vec<Vec<SudokuPuzzleBlock>>) -> Seq<Seq<SudokuPuzzleBlock>> {
    rows@.map_values(|row: Vec<SudokuPuzzleBlock>| row@)
}

/// Every block of the table is well formed.
pub open spec fn blocks_wf(t: Seq<Seq<SudokuPuzzleBlock>>) -> bool {
    forall|i: int, j: int|
        0 <= i < t.len() && 0 <= j < t[i].len() ==> (#[trigger] t[i][j]).wf()
}

/// Any two blocks of the table agree in cell height and cell width.
pub open spec fn blocks_same_shape(t: Seq<Seq<SudokuPuzzleBlock>>) -> bool {
    forall|i1: int, j1: int, i2: int, j2: int|
        0 <= i1 < t.len() && 0 <= j1 < t[i1].len() && 0 <= i2 < t.len() && 0 <= j2 < t[i2].len()
            ==> (#[trigger] t[i1][j1]).spec_height() == (#[trigger] t[i2][j2]).spec_height()
            && t[i1][j1].spec_width() == t[i2][j2].spec_width()
}

/// The table holds at least one block.
pub open spec fn has_a_block(t: Seq<Seq<SudokuPuzzleBlock>>) -> bool {
    exists|i: int| 0 <= i < t.len() && t[i].len() > 0
}

/// The block of the first non-empty block row.
pub open spec fn first_block(t: Seq<Seq<SudokuPuzzleBlock>>) -> SudokuPuzzleBlock
    decreases t.len(),
{
    if t.len() == 0 {
        vstd::pervasive::arbitrary()
    } else if t[0].len() > 0 {
        t[0][0]
    } else {
        first_block(t.drop_first())
    }
}

proof fn lemma_first_block_at(t: Seq<Seq<SudokuPuzzleBlock>>, i: int)
    requires
        0 <= i < t.len(),
        t[i].len() > 0,
        forall|r: int| 0 <= r < i ==> t[r].len() == 0,
    ensures
        first_block(t) == t[i][0],
    decreases i,
{
    if i > 0 {
        lemma_first_block_at(t.drop_first(), i - 1);
        assert(t.drop_first()[i - 1] == t[i]);
    }
}

/// The side length of the cell grid the table describes.
pub open spec fn table_side(t: Seq<Seq<SudokuPuzzleBlock>>) -> int {
    first_block(t).spec_height() * t.len()
}

/// Each block row covers exactly as many cell columns as there are cell
/// rows in total: the cell grid is square.
pub open spec fn square_shape(t: Seq<Seq<SudokuPuzzleBlock>>) -> bool {
    has_a_block(t) ==> forall|i: int|
        0 <= i < t.len() ==> (#[trigger] t[i].len()) * first_block(t).spec_width() == table_side(t)
}

/// The flat row-major position of cell `(i1, i2)` of block `(b1, b2)`,
/// for blocks of `h` by `w` cells in a grid of side `side`.
pub open spec fn block_cell_pos(
    h: int,
    w: int,
    side: int,
    b1: int,
    i1: int,
    b2: int,
    i2: int,
) -> int {
    (b1 * h + i1) * side + b2 * w + i2
}

/// The puzzle `p` holds exactly the cells of the block table `t`, block by
/// block, in row-major cell order.
pub open spec fn assembled_from(p: SudokuPuzzle, t: Seq<Seq<SudokuPuzzleBlock>>) -> bool {
    &&& p.wf()
    &&& (!has_a_block(t) ==> p.side() == 0)
    &&& (has_a_block(t) ==> p.spec_block_height() == first_block(t).spec_height()
        && p.spec_block_width() == first_block(t).spec_width()
        && p.spec_vertical_block_count() == t.len() && p.spec_horizontal_block_count() == t[0].len())
    &&& forall|b1: int, i1: int, b2: int, i2: int|
        0 <= b1 < t.len() && 0 <= i1 < first_block(t).spec_height() && 0 <= b2 < t[b1].len() && 0
            <= i2 < first_block(t).spec_width() ==> 0 <= #[trigger] block_cell_pos(
            first_block(t).spec_height(),
            first_block(t).spec_width(),
            p.side(),
            b1,
            i1,
            b2,
            i2,
        ) < p.grid().len() && p.grid()[block_cell_pos(
            first_block(t).spec_height(),
            first_block(t).spec_width(),
            p.side(),
            b1,
            i1,
            b2,
            i2,
        )] == t[b1][b2]@[i1 * first_block(t).spec_width() + i2]
}

/// The partially filled cell store during assembly: every block cell that
/// comes strictly before position `(br, ir, bc)` in build order is already
/// in place.
spec fn built_up_to(
    cells: Seq<SudokuPuzzleCell>,
    t: Seq<Seq<SudokuPuzzleBlock>>,
    h: int,
    w: int,
    side: int,
    br: int,
    ir: int,
    bc: int,
) -> bool {
    forall|b1: int, i1: int, b2: int, i2: int|
        0 <= b1 < t.len() && 0 <= i1 < h && 0 <= b2 < t[b1].len() && 0 <= i2 < w && (b1 < br || (b1
            == br && (i1 < ir || (i1 == ir && b2 < bc)))) ==> 0 <= #[trigger] block_cell_pos(
            h,
            w,
            side,
            b1,
            i1,
            b2,
            i2,
        ) < cells.len() && cells[block_cell_pos(h, w, side, b1, i1, b2, i2)]@ == t[b1][b2]@[i1 * w
            + i2]
}

/// The candidate list a clue digit stands for in a fresh standard grid: a
/// blank keeps the full range, a digit collapses the cell to that digit.
pub open spec fn clue_cell(digit: usize) -> Seq<usize> {
    if digit == 0 {
        full_range(9)
    } else {
        seq![digit]
    }
}

/// A square arrangement of blocks, kept as one flat row-major store of
/// cells so that row, column and block views are index projections.
pub struct SudokuPuzzle {
    block_height: usize,
    block_width: usize,
    vertical_block_count: usize,
    horizontal_block_count: usize,
    cells: Vec<SudokuPuzzleCell>,
}

impl SudokuPuzzle {
    /// Cell rows per block.
    pub closed spec fn spec_block_height(&self) -> int {
        self.block_height as int
    }

    /// Cell columns per block.
    pub closed spec fn spec_block_width(&self) -> int {
        self.block_width as int
    }

    /// Blocks stacked on top of one another.
    pub closed spec fn spec_vertical_block_count(&self) -> int {
        self.vertical_block_count as int
    }

    /// Blocks standing side by side.
    pub closed spec fn spec_horizontal_block_count(&self) -> int {
        self.horizontal_block_count as int
    }

    /// Cells per side of the square grid.
    pub open spec fn side(&self) -> int {
        self.spec_block_height() * self.spec_vertical_block_count()
    }

    /// The greatest admissible cell value: the cell count of one block.
    pub open spec fn max_value(&self) -> int {
        self.spec_block_height() * self.spec_block_width()
    }

    /// The whole grid as a flat row-major sequence of candidate lists.
    pub closed spec fn grid(&self) -> Seq<Seq<usize>> {
        self.cells@.map_values(|c: SudokuPuzzleCell| c@)
    }

    /// A puzzle is well formed when its dimensions are consistent (either
    /// all zero for the empty puzzle, or all positive with as many cell
    /// rows as cell columns) and every cell is a well formed candidate
    /// list over the admissible range.
    pub open spec fn wf(&self) -> bool {
        &&& (self.spec_block_height() >= 1 && self.spec_block_width() >= 1
            && self.spec_vertical_block_count() >= 1 && self.spec_horizontal_block_count() >= 1) || (
        self.spec_block_height() == 0 && self.spec_block_width() == 0
            && self.spec_vertical_block_count() == 0 && self.spec_horizontal_block_count() == 0)
        &&& self.spec_block_height() * self.spec_vertical_block_count() == self.spec_block_width()
            * self.spec_horizontal_block_count()
        &&& self.grid().len() == self.side() * self.side()
        &&& forall|i: int|
            0 <= i < self.grid().len() ==> wf_candidates(#[trigger] self.grid()[i]) && all_in_range(
                self.grid()[i],
                self.max_value(),
            )
    }

    /// The grid fits in memory, so its length and side are machine-sized.
    pub proof fn lemma_grid_bounds(&self)
        requires
            self.wf(),
        ensures
            self.grid().len() <= usize::MAX,
            0 <= self.side(),
            self.side() <= self.grid().len(),
    {
        vstd::std_specs::vec::axiom_spec_len(&self.cells);
        assert(self.grid().len() == self.cells@.len());
        assert(self.side() >= 0);
        if self.side() >= 1 {
            vstd::arithmetic::mul::lemma_mul_inequality(1, self.side(), self.side());
        }
    }

    proof fn lemma_cells(&self)
        ensures
            self.cells@.len() == self.grid().len(),
            self.grid().len() <= usize::MAX,
            forall|k: int|
                0 <= k < self.cells@.len() ==> (#[trigger] self.cells@[k])@ == self.grid()[k],
            self.wf() ==> forall|k: int|
                0 <= k < self.cells@.len() ==> (#[trigger] self.cells@[k]).wf(),
    {
        vstd::std_specs::vec::axiom_spec_len(&self.cells);
        assert forall|k: int| 0 <= k < self.cells@.len() implies (#[trigger] self.cells@[k])@
            == self.grid()[k] by {
            assert(self.grid()[k] == self.cells@[k]@);
        }
    }

    /// Builds a puzzle from rows of blocks. All blocks must share one
    /// shape, and the blocks must tile a square arrangement of cells;
    /// otherwise the matching shape error is reported. An empty table
    /// yields the empty puzzle.
    #[verifier::loop_isolation(false)]
    pub fn new(block_rows: Vec<Vec<SudokuPuzzleBlock>>) -> (result: Result<
        SudokuPuzzle,
        PuzzleError,
    >)
        requires
            blocks_wf(block_table(block_rows)),
            blocks_same_shape(block_table(block_rows)) && has_a_block(block_table(block_rows))
                ==> table_side(block_table(block_rows)) <= usize::MAX && forall|i: int|
                0 <= i < block_table(block_rows).len() ==> (#[trigger] block_table(
                    block_rows,
                )[i].len()) * first_block(block_table(block_rows)).spec_width() <= usize::MAX,
            blocks_same_shape(block_table(block_rows)) && square_shape(block_table(block_rows))
                ==> table_side(block_table(block_rows)) * table_side(block_table(block_rows))
                <= usize::MAX,
        ensures
            !blocks_same_shape(block_table(block_rows)) ==> result == Err::<
                SudokuPuzzle,
                PuzzleError,
            >(PuzzleError::MismatchedBlockShape),
            blocks_same_shape(block_table(block_rows)) && !square_shape(block_table(block_rows))
                ==> result == Err::<SudokuPuzzle, PuzzleError>(PuzzleError::NonSquareShape),
            blocks_same_shape(block_table(block_rows)) && square_shape(block_table(block_rows))
                ==> (result matches Ok(p) && assembled_from(p, block_table(block_rows))),
    {
        let ghost t = block_table(block_rows);
        // find the first block, if any
        let mut first_row: usize = 0;
        while first_row < block_rows.len() && block_rows[first_row].len() == 0
            invariant
                0 <= first_row <= t.len(),
                forall|r: int| 0 <= r < first_row ==> t[r].len() == 0,
            decreases t.len() - first_row,
        {
            first_row += 1;
        }
        if first_row == block_rows.len() {
            // no block at all: the empty puzzle
            assert(!has_a_block(t));
            let puzzle = SudokuPuzzle {
                block_height: 0,
                block_width: 0,
                vertical_block_count: 0,
                horizontal_block_count: 0,
                cells: Vec::new(),
            };
            assert(puzzle.wf());
            return Ok(puzzle);
        }
        assert(t[first_row as int].len() > 0);
        assert(has_a_block(t));
        proof {
            lemma_first_block_at(t, first_row as int);
        }
        let height = block_rows[first_row][0].get_cell_height();
        let width = block_rows[first_row][0].get_cell_width();
        assert(height == first_block(t).spec_height());
        assert(width == first_block(t).spec_width());
        // every block must share that shape
        for i in 0..block_rows.len()
            invariant
                forall|i1: int, j1: int|
                    0 <= i1 < i && 0 <= j1 < t[i1].len() ==> (#[trigger] t[i1][j1]).spec_height()
                        == height && t[i1][j1].spec_width() == width,
        {
            let row_len = block_rows[i].len();
            for j in 0..row_len
                invariant
                    row_len == t[i as int].len(),
                    forall|i1: int, j1: int|
                        0 <= i1 < i && 0 <= j1 < t[i1].len() ==> (#[trigger] t[i1][j1]).spec_height()
                            == height && t[i1][j1].spec_width() == width,
                    forall|j1: int|
                        0 <= j1 < j ==> (#[trigger] t[i as int][j1]).spec_height() == height
                            && t[i as int][j1].spec_width() == width,
            {
                let block = &block_rows[i][j];
                if block.get_cell_height() != height || block.get_cell_width() != width {
                    assert(!blocks_same_shape(t));
                    return Err(PuzzleError::MismatchedBlockShape);
                }
            }
        }
        assert(blocks_same_shape(t));
        // the blocks must tile a square cell arrangement
        let vertical_block_count = block_rows.len();
        let side = height * vertical_block_count;
        assert(side == table_side(t));
        for i in 0..block_rows.len()
            invariant
                forall|i1: int|
                    0 <= i1 < i ==> (#[trigger] t[i1].len()) * first_block(t).spec_width()
                        == table_side(t),
        {
            assert(t[i as int].len() * first_block(t).spec_width() <= usize::MAX);
            if block_rows[i].len() * width != side {
                assert(t[i as int].len() * first_block(t).spec_width() != table_side(t));
                assert(!square_shape(t));
                return Err(PuzzleError::NonSquareShape);
            }
        }
        assert(square_shape(t));
        let horizontal_block_count = block_rows[first_row].len();
        assert(first_row == 0) by {
            if first_row > 0 {
                assert(t[0].len() == 0);
                assert(t[0].len() * first_block(t).spec_width() == table_side(t));
                vstd::arithmetic::mul::lemma_mul_strictly_positive(
                    first_block(t).spec_height(),
                    t.len() as int,
                );
            }
        }
        // assemble the flat cell store, block row by block row
        let mut cells: Vec<SudokuPuzzleCell> = Vec::new();
        let ghost h = height as int;
        let ghost w = width as int;
        let ghost s = side as int;
        for br in 0..vertical_block_count
            invariant
                cells@.len() == (br * h) * s,
                built_up_to(cells@, t, h, w, s, br as int, 0, 0),
                forall|k: int|
                    0 <= k < cells@.len() ==> (#[trigger] cells@[k]).wf() && all_in_range(
                        cells@[k]@,
                        h * w,
                    ),
        {
            for ir in 0..height
                invariant
                    cells@.len() == (br * h + ir) * s,
                    built_up_to(cells@, t, h, w, s, br as int, ir as int, 0),
                    forall|k: int|
                        0 <= k < cells@.len() ==> (#[trigger] cells@[k]).wf() && all_in_range(
                            cells@[k]@,
                            h * w,
                        ),
            {
                let row_len = block_rows[br].len();
                for bc in 0..row_len
                    invariant
                        row_len == t[br as int].len(),
                        cells@.len() == (br * h + ir) * s + bc * w,
                        built_up_to(cells@, t, h, w, s, br as int, ir as int, bc as int),
                        forall|k: int|
                            0 <= k < cells@.len() ==> (#[trigger] cells@[k]).wf() && all_in_range(
                                cells@[k]@,
                                h * w,
                            ),
                {
                    let ghost len_before = cells@.len() as int;
                    let block_row_ref = &block_rows[br];
                    let block = &block_row_ref[bc];
                    assert(*block == t[br as int][bc as int]);
                    let mut part = block.get_block_row(ir);
                    proof {
                        assert forall|i2: int| 0 <= i2 < w implies (#[trigger] part@[i2])@
                            == t[br as int][bc as int]@[ir * w + i2] && part@[i2].wf()
                            && all_in_range(part@[i2]@, h * w) by {
                            lemma_row_major_index(ir as int, i2, h, w);
                        }
                    }
                    cells.append(&mut part);
                    assert(built_up_to(cells@, t, h, w, s, br as int, ir as int, bc + 1)) by {
                        assert forall|b1: int, i1: int, b2: int, i2: int|
                            0 <= b1 < t.len() && 0 <= i1 < h && 0 <= b2 < t[b1].len() && 0 <= i2 < w
                                && (b1 < br as int || (b1 == br as int && (i1 < ir as int || (i1
                                == ir as int && b2 < bc + 1)))) implies 0 <= #[trigger] block_cell_pos(
                            h,
                            w,
                            s,
                            b1,
                            i1,
                            b2,
                            i2,
                        ) < cells@.len() && cells@[block_cell_pos(h, w, s, b1, i1, b2, i2)]@
                            == t[b1][b2]@[i1 * w + i2] by {
                            if b1 == br as int && i1 == ir as int && b2 == bc as int {
                                assert(block_cell_pos(h, w, s, b1, i1, b2, i2) == len_before + i2);
                            } else {
                                assert(block_cell_pos(h, w, s, b1, i1, b2, i2) < len_before);
                            }
                        }
                    }
                    proof {
                        assert(bc * w + w == (bc + 1) * w) by (nonlinear_arith);
                    }
                }
                proof {
                    assert(t[br as int].len() * w == s);
                    assert(cells@.len() == (br * h + ir) * s + s);
                    assert((br * h + ir) * s + s == (br * h + (ir + 1)) * s) by (nonlinear_arith);
                }
            }
            proof {
                assert(cells@.len() == (br * h + h) * s);
                assert((br * h + h) * s == ((br + 1) * h) * s) by (nonlinear_arith);
            }
        }
        proof {
            let vbc = vertical_block_count as int;
            assert(cells@.len() == (vbc * h) * s);
            assert(s == h * vbc);
            assert((vbc * h) * s == s * s) by (nonlinear_arith)
                requires
                    s == h * vbc,
            ;
        }
        let puzzle = SudokuPuzzle {
            block_height: height,
            block_width: width,
            vertical_block_count,
            horizontal_block_count,
            cells,
        };
        proof {
            assert(t[0].len() * w == s);
            assert(puzzle.side() == s);
            assert(puzzle.spec_block_width() * puzzle.spec_horizontal_block_count() == s);
            assert(puzzle.grid().len() == s * s);
            assert forall|i: int|
                0 <= i < puzzle.grid().len() implies wf_candidates(#[trigger] puzzle.grid()[i])
                && all_in_range(puzzle.grid()[i], puzzle.max_value()) by {
                assert(puzzle.grid()[i] == puzzle.cells@[i]@);
            }
            assert(puzzle.wf());
            assert forall|b1: int, i1: int, b2: int, i2: int|
                0 <= b1 < t.len() && 0 <= i1 < h && 0 <= b2 < t[b1].len() && 0 <= i2
                    < w implies 0 <= #[trigger] block_cell_pos(h, w, s, b1, i1, b2, i2)
                < puzzle.grid().len() && puzzle.grid()[block_cell_pos(h, w, s, b1, i1, b2, i2)]
                == t[b1][b2]@[i1 * w + i2] by {
                assert(built_up_to(cells@, t, h, w, s, vertical_block_count as int, 0, 0));
                assert(b1 < vertical_block_count as int);
                assert(puzzle.grid()[block_cell_pos(h, w, s, b1, i1, b2, i2)] == cells@[
                    block_cell_pos(h, w, s, b1, i1, b2, i2)]@);
            }
            assert(assembled_from(puzzle, t));
        }
        Ok(puzzle)
    }

    /// Builds the canonical 9 by 9 puzzle with 3 by 3 blocks from a matrix
    /// of digits, where 0 stands for a blank cell and any other digit
    /// collapses its cell to that value.
    #[verifier::loop_isolation(false)]
    pub fn new_basic_9_by_9(matrix: [[usize; 9]; 9]) -> (result: SudokuPuzzle)
        requires
            forall|r: int, c: int| 0 <= r < 9 && 0 <= c < 9 ==> #[trigger] matrix@[r]@[c] <= 9,
        ensures
            result.wf(),
            result.side() == 9,
            result.max_value() == 9,
            result.spec_block_height() == 3,
            result.spec_block_width() == 3,
            result.spec_vertical_block_count() == 3,
            result.spec_horizontal_block_count() == 3,
            forall|r: int, c: int|
                0 <= r < 9 && 0 <= c < 9 ==> result.grid()[r * 9 + c] == clue_cell(
                    #[trigger] matrix@[r]@[c],
                ),
    {
        let mut block_rows: Vec<Vec<SudokuPuzzleBlock>> = Vec::new();
        for bi in 0..3usize
            invariant
                block_rows@.len() == bi,
                forall|b1: int| 0 <= b1 < bi ==> (#[trigger] block_rows@[b1])@.len() == 3,
                forall|b1: int, b2: int|
                    0 <= b1 < bi && 0 <= b2 < 3 ==> (#[trigger] block_rows@[b1]@[b2]).wf()
                        && block_rows@[b1]@[b2].spec_height() == 3
                        && block_rows@[b1]@[b2].spec_width() == 3,
                forall|b1: int, b2: int, i1: int, i2: int|
                    0 <= b1 < bi && 0 <= b2 < 3 && 0 <= i1 < 3 && 0 <= i2 < 3
                        ==> #[trigger] block_rows@[b1]@[b2]@[i1 * 3 + i2] == clue_cell(
                        matrix@[b1 * 3 + i1]@[b2 * 3 + i2],
                    ),
        {
            let mut row: Vec<SudokuPuzzleBlock> = Vec::new();
            for bj in 0..3usize
                invariant
                    row@.len() == bj,
                    forall|b2: int|
                        0 <= b2 < bj ==> (#[trigger] row@[b2]).wf() && row@[b2].spec_height() == 3
                            && row@[b2].spec_width() == 3,
                    forall|b2: int, i1: int, i2: int|
                        0 <= b2 < bj && 0 <= i1 < 3 && 0 <= i2 < 3 ==> #[trigger] row@[b2]@[i1 * 3
                            + i2] == clue_cell(matrix@[bi * 3 + i1]@[b2 * 3 + i2]),
            {
                let mut block = match SudokuPuzzleBlock::new(3, 3) {
                    Ok(block) => block,
                    Err(_) => vstd::pervasive::unreached(),
                };
                for ir in 0..3usize
                    invariant
                        block.wf(),
                        block.spec_height() == 3,
                        block.spec_width() == 3,
                        forall|r2: int, c2: int|
                            0 <= r2 < 3 && 0 <= c2 < 3 ==> #[trigger] block@[r2 * 3 + c2] == (if r2
                                < ir {
                                clue_cell(matrix@[bi * 3 + r2]@[bj * 3 + c2])
                            } else {
                                full_range(9)
                            }),
                {
                    for ic in 0..3usize
                        invariant
                            block.wf(),
                            block.spec_height() == 3,
                            block.spec_width() == 3,
                            forall|r2: int, c2: int|
                                0 <= r2 < 3 && 0 <= c2 < 3 ==> #[trigger] block@[r2 * 3 + c2] == (
                                if r2 < ir || (r2 == ir && c2 < ic) {
                                    clue_cell(matrix@[bi * 3 + r2]@[bj * 3 + c2])
                                } else {
                                    full_range(9)
                                }),
                    {
                        let digit = matrix[bi * 3 + ir][bj * 3 + ic];
                        proof {
                            assert(digit == matrix@[bi * 3 + ir]@[bj * 3 + ic]);
                            assert(digit <= 9);
                            if digit >= 1 {
                                assert(full_range(9)[digit - 1] == digit);
                                assert(block@[ir * 3 + ic].contains(digit));
                            }
                        }
                        let outcome = block.set_cell_value_if_nonzero(ir, ic, digit);
                        proof {
                            assert(outcome is Ok);
                        }
                    }
                }
                row.push(block);
            }
            block_rows.push(row);
            proof {
                assert(block_rows@[bi as int] == row);
            }
        }
        let ghost t = block_table(block_rows);
        proof {
            assert forall|b1: int, b2: int| 0 <= b1 < 3 && 0 <= b2 < 3 implies #[trigger] t[b1][b2]
                == block_rows@[b1]@[b2] by {
                assert(t[b1] == block_rows@[b1]@);
            }
            assert(t[0] == block_rows@[0]@);
            assert(t[0].len() == 3);
            lemma_first_block_at(t, 0);
            assert(first_block(t).spec_height() == 3);
            assert(first_block(t).spec_width() == 3);
            assert(blocks_wf(t));
            assert(blocks_same_shape(t));
            assert(table_side(t) == 9);
            assert(square_shape(t));
        }
        let puzzle = match SudokuPuzzle::new(block_rows) {
            Ok(puzzle) => puzzle,
            Err(_) => vstd::pervasive::unreached(),
        };
        proof {
            assert(puzzle.side() == 9);
            assert forall|r: int, c: int| 0 <= r < 9 && 0 <= c < 9 implies puzzle.grid()[r * 9 + c]
                == clue_cell(#[trigger] matrix@[r]@[c]) by {
                let b1 = r / 3;
                let i1 = r % 3;
                let b2 = c / 3;
                let i2 = c % 3;
                vstd::arithmetic::div_mod::lemma_fundamental_div_mod(r, 3);
                vstd::arithmetic::div_mod::lemma_mod_bound(r, 3);
                vstd::arithmetic::div_mod::lemma_fundamental_div_mod(c, 3);
                vstd::arithmetic::div_mod::lemma_mod_bound(c, 3);
                assert(0 <= b1 < 3 && 0 <= i1 < 3 && 0 <= b2 < 3 && 0 <= i2 < 3);
                assert(block_cell_pos(3, 3, 9, b1, i1, b2, i2) == r * 9 + c);
                assert(puzzle.grid()[block_cell_pos(3, 3, 9, b1, i1, b2, i2)] == t[b1][b2]@[i1 * 3
                    + i2]);
                assert(t[b1][b2]@[i1 * 3 + i2] == clue_cell(matrix@[b1 * 3 + i1]@[b2 * 3 + i2]));
            }
        }
        puzzle
    }

    /// Cell rows per block; zero for the empty puzzle.
    pub fn get_block_height(&self) -> (result: usize)
        ensures
            result == self.spec_block_height(),
    {
        self.block_height
    }

    /// Cell columns per block; zero for the empty puzzle.
    pub fn get_block_width(&self) -> (result: usize)
        ensures
            result == self.spec_block_width(),
    {
        self.block_width
    }

    /// Blocks stacked on top of one another.
    pub fn get_vertical_block_count(&self) -> (result: usize)
        ensures
            result == self.spec_vertical_block_count(),
    {
        self.vertical_block_count
    }

    /// Blocks standing side by side.
    pub fn get_horizontal_block_count(&self) -> (result: usize)
        ensures
            result == self.spec_horizontal_block_count(),
    {
        self.horizontal_block_count
    }

    /// Total cell rows of the grid.
    pub fn get_height(&self) -> (result: usize)
        requires
            self.wf(),
        ensures
            result == self.side(),
    {
        proof {
            self.lemma_grid_bounds();
        }
        self.block_height * self.vertical_block_count
    }

    /// Total cell columns of the grid; the grid is square, so this equals
    /// the total cell rows.
    pub fn get_width(&self) -> (result: usize)
        requires
            self.wf(),
        ensures
            result == self.side(),
    {
        proof {
            self.lemma_grid_bounds();
        }
        self.block_width * self.horizontal_block_count
    }

    /// The number of cells of the whole grid.
    pub fn cell_count(&self) -> (result: usize)
        ensures
            result == self.grid().len(),
    {
        proof {
            self.lemma_cells();
        }
        self.cells.len()
    }

    /// The cells of logical row `row_index`, left to right, spanning every
    /// block the row crosses. An index at or past the bottom edge yields
    /// the empty sequence.
    #[verifier::loop_isolation(false)]
    pub fn get_row(&self, row_index: usize) -> (result: Vec<SudokuPuzzleCell>)
        requires
            self.wf(),
        ensures
            row_index < self.side() ==> result@.len() == self.side() && forall|j: int|
                0 <= j < result@.len() ==> (#[trigger] result@[j])@ == self.grid()[row_index
                    * self.side() + j] && result@[j].wf(),
            row_index >= self.side() ==> result@.len() == 0,
    {
        let side = self.get_height();
        if row_index >= side {
            return Vec::new();
        }
        proof {
            self.lemma_cells();
            lemma_row_major_index(row_index as int, 0, self.side(), self.side());
        }
        let offset = row_index * side;
        let mut result: Vec<SudokuPuzzleCell> = Vec::new();
        for j in 0..side
            invariant
                result@.len() == j,
                forall|i: int|
                    0 <= i < j ==> (#[trigger] result@[i])@ == self.grid()[offset + i]
                        && result@[i].wf(),
        {
            proof {
                lemma_row_major_index(row_index as int, j as int, self.side(), self.side());
            }
            result.push(self.cells[offset + j].clone());
        }
        result
    }

    /// The cells of logical column `column_index`, top to bottom, spanning
    /// every block the column crosses. An index at or past the right edge
    /// yields the empty sequence.
    #[verifier::loop_isolation(false)]
    pub fn get_column(&self, column_index: usize) -> (result: Vec<SudokuPuzzleCell>)
        requires
            self.wf(),
        ensures
            column_index < self.side() ==> result@.len() == self.side() && forall|i: int|
                0 <= i < result@.len() ==> (#[trigger] result@[i])@ == self.grid()[i * self.side()
                    + column_index] && result@[i].wf(),
            column_index >= self.side() ==> result@.len() == 0,
    {
        let side = self.get_height();
        if column_index >= side {
            return Vec::new();
        }
        proof {
            self.lemma_cells();
        }
        let mut result: Vec<SudokuPuzzleCell> = Vec::new();
        for i in 0..side
            invariant
                result@.len() == i,
                forall|r: int|
                    0 <= r < i ==> (#[trigger] result@[r])@ == self.grid()[r * self.side()
                        + column_index] && result@[r].wf(),
        {
            proof {
                lemma_row_major_index(i as int, column_index as int, self.side(), self.side());
            }
            result.push(self.cells[i * side + column_index].clone());
        }
        result
    }

    /// The resolved value of the cell at flat position `index`, or `None`
    /// while the cell still has several candidates.
    pub fn resolved_value_at(&self, index: usize) -> (result: Option<usize>)
        requires
            self.wf(),
            index < self.grid().len(),
        ensures
            self.grid()[index as int].len() == 1 ==> result == Some(self.grid()[index as int][0]),
            self.grid()[index as int].len() != 1 ==> result is None,
    {
        proof {
            self.lemma_cells();
        }
        self.cells[index].get_value()
    }

    /// Strikes every member of `taken` out of the unresolved cell at flat
    /// position `index`, as one elimination step. When that would empty
    /// the cell, nothing changes and a contradiction is reported.
    pub fn remove_candidates_at(&mut self, index: usize, taken: &Vec<usize>) -> (result: Result<
        (),
        PuzzleError,
    >)
        requires
            old(self).wf(),
            index < old(self).grid().len(),
            old(self).grid()[index as int].len() != 1,
        ensures
            final(self).wf(),
            final(self).spec_block_height() == old(self).spec_block_height(),
            final(self).spec_block_width() == old(self).spec_block_width(),
            final(self).spec_vertical_block_count() == old(self).spec_vertical_block_count(),
            final(self).spec_horizontal_block_count() == old(self).spec_horizontal_block_count(),
            without_values(old(self).grid()[index as int], taken@).len() == 0 ==> result == Err::<
                (),
                PuzzleError,
            >(PuzzleError::Contradiction) && final(self).grid() == old(self).grid(),
            without_values(old(self).grid()[index as int], taken@).len() > 0 ==> result == Ok::<
                (),
                PuzzleError,
            >(()) && final(self).grid() == old(self).grid().update(
                index as int,
                without_values(old(self).grid()[index as int], taken@),
            ),
    {
        proof {
            self.lemma_cells();
            lemma_without_values_props(self.grid()[index as int], taken@);
        }
        let ghost old_self = *self;
        let cell = &mut self.cells[index];
        let result = cell.remove_possibilities(taken);
        proof {
            let reduced = without_values(old_self.grid()[index as int], taken@);
            assert forall|k: int| 0 <= k < self.grid().len() implies #[trigger] self.grid()[k]
                == self.cells@[k]@ by {}
            if reduced.len() == 0 {
                assert(self.grid() =~= old_self.grid());
            } else {
                assert(self.grid() =~= old_self.grid().update(index as int, reduced));
                assert forall|i: int|
                    0 <= i < self.grid().len() implies wf_candidates(#[trigger] self.grid()[i])
                    && all_in_range(self.grid()[i], self.max_value()) by {
                    if i == index {
                        assert forall|p: int| 0 <= p < reduced.len() implies 1 <= #[trigger] reduced[p]
                            <= self.max_value() by {
                            assert(reduced.contains(reduced[p]));
                            assert(old_self.grid()[index as int].contains(reduced[p]));
                            let q = choose|q: int|
                                0 <= q < old_self.grid()[index as int].len() && old_self.grid()[
                                index as int][q] == reduced[p];
                            assert(1 <= old_self.grid()[index as int][q] <= old_self.max_value());
                        }
                    }
                }
            }
        }
        result
    }
}

} // verus!
