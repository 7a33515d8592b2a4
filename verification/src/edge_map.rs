//! A table with one optional value for every ordered pair of grid cells.

use vstd::prelude::*;
use crate::layout::{cell_index, cell_slot, lemma_cell_index_bound, lemma_cell_index_injective, lemma_flat_bound, lemma_flat_injective};
use crate::position::Position;

verus! {

/// A mapping from (origin, destination) to a value, for the cells of a grid
/// of `rows` by `cols`. `table` holds the pairs origin by origin, and for
/// each origin destination by destination, both in row-major order.
pub struct EdgeMap<T> {
    pub rows: usize,
    pub cols: usize,
    pub table: Vec<Option<T>>,
}

impl<T> EdgeMap<T> {
    /// The dimensions fit the machine and the table has one slot per pair.
    pub open spec fn wf(&self) -> bool {
        &&& self.rows <= isize::MAX
        &&& self.cols <= isize::MAX
        &&& self.rows * self.cols <= usize::MAX
        &&& (self.rows * self.cols) * (self.rows * self.cols) <= usize::MAX
        &&& self.table@.len() == (self.rows * self.cols) * (self.rows * self.cols)
    }

    /// Whether the position is a cell of the grid that the map is for.
    pub open spec fn covers(&self, position: Position) -> bool {
        position.spec_within(self.rows as int, self.cols as int)
    }

    /// The slot of a pair of cells in the table.
    pub open spec fn slot(&self, start: Position, end: Position) -> int {
        cell_index(start, self.cols as int) * (self.rows * self.cols) + cell_index(end, self.cols as int)
    }

    /// The value recorded for a pair, if any.
    pub open spec fn entry(&self, start: Position, end: Position) -> Option<T> {
        if self.covers(start) && self.covers(end) {
            self.table@[self.slot(start, end)]
        } else {
            None
        }
    }

    /// The slot of a pair of cells lies in the table.
    pub proof fn lemma_slot_bound(&self, start: Position, end: Position)
        requires
            self.wf(),
            self.covers(start),
            self.covers(end),
        ensures
            0 <= self.slot(start, end) < self.table@.len(),
    {
        lemma_cell_index_bound(start, self.rows as int, self.cols as int);
        lemma_cell_index_bound(end, self.rows as int, self.cols as int);
        lemma_flat_bound(cell_index(start, self.cols as int), cell_index(end, self.cols as int), self.rows * self.cols, self.rows * self.cols);
    }

    /// Different pairs of cells have different slots.
    pub proof fn lemma_slot_injective(&self, a: Position, b: Position, c: Position, d: Position)
        requires
            self.wf(),
            self.covers(a),
            self.covers(b),
            self.covers(c),
            self.covers(d),
            self.slot(a, b) == self.slot(c, d),
        ensures
            a == c,
            b == d,
    {
        lemma_cell_index_bound(b, self.rows as int, self.cols as int);
        lemma_cell_index_bound(d, self.rows as int, self.cols as int);
        lemma_flat_injective(cell_index(a, self.cols as int), cell_index(b, self.cols as int), cell_index(c, self.cols as int), cell_index(d, self.cols as int), self.rows * self.cols);
        lemma_cell_index_injective(a, c, self.rows as int, self.cols as int);
        lemma_cell_index_injective(b, d, self.rows as int, self.cols as int);
    }

    /// An empty map, for a grid without cells.
    pub fn new() -> (map: EdgeMap<T>)
        ensures
            map.wf(),
            forall|a: Position, b: Position| (#[trigger] map.entry(a, b)) is None,
    {
        let map = EdgeMap { rows: 0, cols: 0, table: Vec::new() };
        assert(map.rows * map.cols == 0 && (map.rows * map.cols) * (map.rows * map.cols) == 0) by (nonlinear_arith)
            requires
                map.rows == 0,
        ;
        map
    }

    /// A map for a grid of `rows` by `cols` with no pair recorded.
    pub fn sized(rows: usize, cols: usize) -> (map: EdgeMap<T>)
        requires
            rows <= isize::MAX,
            cols <= isize::MAX,
            rows * cols <= usize::MAX,
            (rows * cols) * (rows * cols) <= usize::MAX,
        ensures
            map.wf(),
            map.rows == rows,
            map.cols == cols,
            forall|i: int| 0 <= i < map.table@.len() ==> (#[trigger] map.table@[i]) is None,
            forall|a: Position, b: Position| (#[trigger] map.entry(a, b)) is None,
    {
        let cells: usize = rows * cols;
        let pairs: usize = cells * cells;
        let mut table: Vec<Option<T>> = Vec::new();
        let mut i: usize = 0;
        while i < pairs
            invariant
                i <= pairs,
                table@.len() == i,
                forall|j: int| 0 <= j < i ==> (#[trigger] table@[j]) is None,
            decreases pairs - i,
        {
            table.push(None);
            i += 1;
        }
        let map = EdgeMap { rows, cols, table };
        proof {
            assert forall|a: Position, b: Position| (#[trigger] map.entry(a, b)) is None by {
                if map.covers(a) && map.covers(b) {
                    map.lemma_slot_bound(a, b);
                }
            }
        }
        map
    }

    /// The value recorded for the pair, if any; none for a position outside
    /// the grid.
    pub fn get(&self, start: Position, end: Position) -> (value: Option<&T>)
        requires
            self.wf(),
        ensures
            match value {
                Some(v) => self.entry(start, end) == Some(*v),
                None => self.entry(start, end) is None,
            },
    {
        let rows = self.rows as isize;
        let cols = self.cols as isize;
        if start.is_within_bounds(rows, cols) && end.is_within_bounds(rows, cols) {
            proof {
                self.lemma_slot_bound(start, end);
                lemma_cell_index_bound(start, self.rows as int, self.cols as int);
            }
            let cells: usize = self.rows * self.cols;
            let from: usize = cell_slot(start, self.rows, self.cols);
            let to: usize = cell_slot(end, self.rows, self.cols);
            assert(from * cells >= 0 && from * cells <= from * cells + to) by (nonlinear_arith)
                requires
                    from >= 0,
                    cells >= 0,
                    to >= 0,
            ;
            match &self.table[from * cells + to] {
                Some(v) => Some(v),
                None => None,
            }
        } else {
            None
        }
    }

    /// Records `value` for the pair and leaves every other pair as it was.
    pub fn insert(&mut self, start: Position, end: Position, value: T)
        requires
            old(self).wf(),
            old(self).covers(start),
            old(self).covers(end),
        ensures
            final(self).wf(),
            final(self).rows == old(self).rows,
            final(self).cols == old(self).cols,
            final(self).table@ == old(self).table@.update(old(self).slot(start, end), Some(value)),
            final(self).entry(start, end) == Some(value),
            forall|a: Position, b: Position| a != start || b != end ==> #[trigger] final(self).entry(a, b) == old(self).entry(a, b),
    {
        proof {
            self.lemma_slot_bound(start, end);
            lemma_cell_index_bound(start, self.rows as int, self.cols as int);
        }
        let cells: usize = self.rows * self.cols;
        let from: usize = cell_slot(start, self.rows, self.cols);
        let to: usize = cell_slot(end, self.rows, self.cols);
        assert(from * cells >= 0 && from * cells <= from * cells + to) by (nonlinear_arith)
            requires
                from >= 0,
                cells >= 0,
                to >= 0,
        ;
        let ghost before = *self;
        self.table.set(from * cells + to, Some(value));
        proof {
            assert forall|a: Position, b: Position| a != start || b != end implies #[trigger] self.entry(a, b) == before.entry(a, b) by {
                if self.covers(a) && self.covers(b) {
                    before.lemma_slot_bound(a, b);
                    if before.slot(a, b) == before.slot(start, end) {
                        before.lemma_slot_injective(a, b, start, end);
                    }
                }
            }
        }
    }
}

} // verus!
