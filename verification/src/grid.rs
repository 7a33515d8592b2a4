//! The playing grid: cell contents, wall placement and connected regions.

use vstd::prelude::*;
use rand::seq::SliceRandom;
use crate::layout::{cell_index, cell_slot, lemma_cell_index_bound, lemma_cell_index_injective, lemma_flat_bound, lemma_total_update, total};
use crate::position::{Direction, Position};

verus! {

/// What occupies a cell of the grid.
#[derive(PartialEq, Eq, Structural, Copy, Clone, Debug)]
pub enum Entity {
    Wall,
    Letter(char),
    Nothing,
}

/// A grid of fixed dimensions; `cells` holds one entity per cell, row by row.
#[derive(Debug)]
pub struct Grid {
    pub rows: usize,
    pub cols: usize,
    pub cells: Vec<Entity>,
}

/// A finished level: the endpoints, the words of the path between them in
/// segment order, and the walled grid.
#[derive(Debug)]
pub struct Level {
    pub start: Position,
    pub goal: Position,
    pub words: Vec<String>,
    pub grid: Grid,
}

/// `SliceRandom::shuffle` with the thread's generator: the vector is
/// rearranged in place, so it holds the same positions as before, each as
/// often as before.
#[verifier::external_body]
fn shuffle_positions(positions: &mut Vec<Position>)
    ensures
        final(positions)@.to_multiset() == old(positions)@.to_multiset(),
{
    positions.shuffle(&mut rand::rng());
}

/// Whether `to` is one unit step away from `from`.
pub open spec fn adjacent(from: Position, to: Position) -> bool {
    ||| to == from.spec_step(Direction::Up)
    ||| to == from.spec_step(Direction::Down)
    ||| to == from.spec_step(Direction::Left)
    ||| to == from.spec_step(Direction::Right)
}

/// The cells after `entity` was written at `position`; a position outside
/// the grid changes nothing.
pub open spec fn placed(cells: Seq<Entity>, rows: int, cols: int, position: Position, entity: Entity) -> Seq<Entity> {
    if position.spec_within(rows, cols) {
        cells.update(cell_index(position, cols), entity)
    } else {
        cells
    }
}

/// The cells after the entries were written one after the other.
pub open spec fn placed_all(cells: Seq<Entity>, rows: int, cols: int, entries: Seq<(Position, Entity)>) -> Seq<Entity>
    decreases entries.len(),
{
    if entries.len() == 0 {
        cells
    } else {
        placed(placed_all(cells, rows, cols, entries.drop_last()), rows, cols, entries.last().0, entries.last().1)
    }
}

/// How many cells of a flood fill are still unmarked.
pub open spec fn unmarked(marks: Seq<bool>) -> nat {
    total(Seq::new(marks.len(), |i: int| if marks[i] { 0nat } else { 1nat }))
}

proof fn lemma_mark(marks: Seq<bool>, index: int)
    requires
        0 <= index < marks.len(),
        !marks[index],
    ensures
        unmarked(marks.update(index, true)) + 1 == unmarked(marks),
{
    let before = Seq::new(marks.len(), |i: int| if marks[i] { 0nat } else { 1nat });
    let after = Seq::new(marks.len(), |i: int| if marks.update(index, true)[i] { 0nat } else { 1nat });
    lemma_total_update(before, index, 0nat);
    assert(after =~= before.update(index, 0nat));
}

impl Grid {
    /// The dimensions fit the machine and there is one entity per cell.
    pub open spec fn wf(&self) -> bool {
        &&& self.rows <= isize::MAX
        &&& self.cols <= isize::MAX
        &&& self.rows * self.cols <= usize::MAX
        &&& self.cells@.len() == self.rows * self.cols
    }

    /// Whether `position` lies inside the grid.
    pub open spec fn contains(&self, position: Position) -> bool {
        position.spec_within(self.rows as int, self.cols as int)
    }

    /// The entity at a position; outside the grid there is nothing.
    pub open spec fn entity_at(&self, position: Position) -> Entity {
        if self.contains(position) {
            self.cells@[cell_index(position, self.cols as int)]
        } else {
            Entity::Nothing
        }
    }

    /// Whether `position` is a cell of the grid that is no wall.
    pub open spec fn is_free(&self, position: Position) -> bool {
        self.contains(position) && self.cells@[cell_index(position, self.cols as int)] != Entity::Wall
    }

    /// Whether a walk of exactly `steps` unit steps over free cells leads
    /// from `from` to `to`.
    pub open spec fn reach_in(&self, from: Position, to: Position, steps: nat) -> bool
        decreases steps,
    {
        &&& self.is_free(from)
        &&& if steps == 0 {
            from == to
        } else {
            ||| self.reach_in(from.spec_step(Direction::Up), to, (steps - 1) as nat)
            ||| self.reach_in(from.spec_step(Direction::Down), to, (steps - 1) as nat)
            ||| self.reach_in(from.spec_step(Direction::Left), to, (steps - 1) as nat)
            ||| self.reach_in(from.spec_step(Direction::Right), to, (steps - 1) as nat)
        }
    }

    /// Whether some walk over free cells leads from `from` to `to`.
    pub open spec fn connected(&self, from: Position, to: Position) -> bool {
        exists|steps: nat| self.reach_in(from, to, steps)
    }

    /// The in-grid neighbours of a position, in the order up, down, left, right.
    pub open spec fn spec_valid_neighbours(&self, position: Position) -> Seq<Position> {
        self.kept(position.spec_step(Direction::Up)) + self.kept(position.spec_step(Direction::Down))
            + self.kept(position.spec_step(Direction::Left)) + self.kept(position.spec_step(
            Direction::Right,
        ))
    }

    /// A position alone if it lies inside the grid, else nothing.
    pub open spec fn kept(&self, position: Position) -> Seq<Position> {
        if self.contains(position) {
            seq![position]
        } else {
            seq![]
        }
    }

    /// A new grid with nothing in any cell.
    pub fn new(rows: usize, cols: usize) -> (grid: Grid)
        requires
            rows <= isize::MAX,
            cols <= isize::MAX,
            rows * cols <= usize::MAX,
        ensures
            grid.wf(),
            grid.rows == rows,
            grid.cols == cols,
            forall|i: int| 0 <= i < grid.cells@.len() ==> grid.cells@[i] == Entity::Nothing,
    {
        let count: usize = rows * cols;
        let mut cells: Vec<Entity> = Vec::new();
        let mut i: usize = 0;
        while i < count
            invariant
                i <= count,
                cells@.len() == i,
                forall|j: int| 0 <= j < i ==> cells@[j] == Entity::Nothing,
            decreases count - i,
        {
            cells.push(Entity::Nothing);
            i += 1;
        }
        Grid { rows, cols, cells }
    }

    /// A copy of the grid.
    pub fn duplicate(&self) -> (copy: Grid)
        ensures
            copy.rows == self.rows,
            copy.cols == self.cols,
            copy.cells@ == self.cells@,
    {
        let mut cells: Vec<Entity> = Vec::new();
        let mut i: usize = 0;
        while i < self.cells.len()
            invariant
                i <= self.cells@.len(),
                cells@ == self.cells@.take(i as int),
            decreases self.cells@.len() - i,
        {
            cells.push(self.cells[i]);
            assert(cells@ =~= self.cells@.take(i + 1));
            i += 1;
        }
        assert(cells@ =~= self.cells@);
        Grid { rows: self.rows, cols: self.cols, cells }
    }

    /// The entity at a position; outside the grid there is nothing.
    pub fn entity(&self, position: Position) -> (entity: Entity)
        requires
            self.wf(),
        ensures
            entity == self.entity_at(position),
    {
        if position.is_within_bounds(self.rows as isize, self.cols as isize) {
            self.cells[cell_slot(position, self.rows, self.cols)]
        } else {
            Entity::Nothing
        }
    }

    /// Whether a position is a cell of the grid that is no wall.
    pub fn is_open(&self, position: Position) -> (open: bool)
        requires
            self.wf(),
        ensures
            open == self.is_free(position),
    {
        if position.is_within_bounds(self.rows as isize, self.cols as isize) {
            self.cells[cell_slot(position, self.rows, self.cols)] != Entity::Wall
        } else {
            false
        }
    }

    /// All positions of the grid, row by row: the position at index `i` is
    /// the cell with row-major number `i`.
    pub fn all_positions(&self) -> (positions: Vec<Position>)
        requires
            self.wf(),
        ensures
            positions@.len() == self.rows * self.cols,
            forall|i: int| 0 <= i < positions@.len() ==> self.contains(#[trigger] positions@[i])
                && cell_index(positions@[i], self.cols as int) == i,
    {
        let mut positions: Vec<Position> = Vec::new();
        let mut row: usize = 0;
        while row < self.rows
            invariant
                self.wf(),
                row <= self.rows,
                positions@.len() == row * self.cols,
                forall|i: int| 0 <= i < positions@.len() ==> self.contains(#[trigger] positions@[i])
                    && cell_index(positions@[i], self.cols as int) == i,
            decreases self.rows - row,
        {
            let mut col: usize = 0;
            while col < self.cols
                invariant
                    self.wf(),
                    row < self.rows,
                    col <= self.cols,
                    positions@.len() == row * self.cols + col,
                    forall|i: int| 0 <= i < positions@.len() ==> self.contains(#[trigger] positions@[i])
                        && cell_index(positions@[i], self.cols as int) == i,
                decreases self.cols - col,
            {
                proof {
                    lemma_flat_bound(row as int, col as int, self.rows as int, self.cols as int);
                }
                positions.push(Position::new(row as isize, col as isize));
                col += 1;
            }
            proof {
                assert(row * self.cols + self.cols == (row + 1) * self.cols) by (nonlinear_arith);
            }
            row += 1;
        }
        positions
    }

    /// Writes the entries into the grid one after the other; an entry whose
    /// position lies outside the grid is skipped.
    pub fn add_entities(&mut self, entities: Vec<(Position, Entity)>)
        requires
            old(self).wf(),
        ensures
            final(self).wf(),
            final(self).rows == old(self).rows,
            final(self).cols == old(self).cols,
            final(self).cells@ == placed_all(old(self).cells@, old(self).rows as int, old(self).cols as int, entities@),
    {
        let mut i: usize = 0;
        while i < entities.len()
            invariant
                self.wf(),
                self.rows == old(self).rows,
                self.cols == old(self).cols,
                i <= entities@.len(),
                self.cells@ == placed_all(old(self).cells@, self.rows as int, self.cols as int, entities@.take(i as int)),
            decreases entities@.len() - i,
        {
            let (position, entity) = entities[i];
            assert(entities@.take(i + 1).drop_last() =~= entities@.take(i as int));
            if position.is_within_bounds(self.rows as isize, self.cols as isize) {
                let slot = cell_slot(position, self.rows, self.cols);
                self.cells.set(slot, entity);
            }
            i += 1;
        }
        assert(entities@.take(entities@.len() as int) =~= entities@);
    }

    /// Puts `entity` at every listed position that lies inside the grid and
    /// leaves every other cell as it was.
    pub fn set_positions(&mut self, positions: Vec<Position>, entity: Entity)
        requires
            old(self).wf(),
        ensures
            final(self).wf(),
            final(self).rows == old(self).rows,
            final(self).cols == old(self).cols,
            forall|p: Position| positions@.contains(p) ==> final(self).contains(p) ==> #[trigger] final(self).entity_at(p) == entity,
            forall|p: Position| !positions@.contains(p) ==> #[trigger] final(self).entity_at(p) == old(self).entity_at(p),
    {
        let mut i: usize = 0;
        while i < positions.len()
            invariant
                self.wf(),
                self.rows == old(self).rows,
                self.cols == old(self).cols,
                i <= positions@.len(),
                forall|j: int| 0 <= j < i ==> self.contains(positions@[j]) ==> #[trigger] self.entity_at(positions@[j]) == entity,
                forall|p: Position| !positions@.contains(p) ==> #[trigger] self.entity_at(p) == old(self).entity_at(p),
            decreases positions@.len() - i,
        {
            let position = positions[i];
            if position.is_within_bounds(self.rows as isize, self.cols as isize) {
                let slot = cell_slot(position, self.rows, self.cols);
                let ghost before = *self;
                self.cells.set(slot, entity);
                proof {
                    assert forall|p: Position| self.contains(p) && p != position implies #[trigger] self.entity_at(p) == before.entity_at(p) by {
                        lemma_cell_index_bound(p, self.rows as int, self.cols as int);
                        if cell_index(p, self.cols as int) == cell_index(position, self.cols as int) {
                            lemma_cell_index_injective(p, position, self.rows as int, self.cols as int);
                        }
                    }
                    assert(positions@.contains(position));
                }
            }
            i += 1;
        }
    }

    /// The neighbours of a position that lie inside the grid, in the order
    /// up, down, left, right. Whether a neighbour is a wall plays no part.
    pub fn valid_neighbours(&self, position: Position) -> (around: Vec<Position>)
        requires
            self.wf(),
            position.can_step(),
        ensures
            around@ == self.spec_valid_neighbours(position),
            forall|i: int| 0 <= i < around@.len() ==> self.contains(#[trigger] around@[i]) && adjacent(position, around@[i]),
            forall|d: Direction| self.contains(#[trigger] position.spec_step(d)) ==> around@.contains(position.spec_step(d)),
    {
        let all = position.neighbours();
        let rows = self.rows as isize;
        let cols = self.cols as isize;
        let mut around: Vec<Position> = Vec::new();
        if all[0].is_within_bounds(rows, cols) {
            around.push(all[0]);
        }
        if all[1].is_within_bounds(rows, cols) {
            around.push(all[1]);
        }
        if all[2].is_within_bounds(rows, cols) {
            around.push(all[2]);
        }
        if all[3].is_within_bounds(rows, cols) {
            around.push(all[3]);
        }
        proof {
            assert(around@ =~= self.spec_valid_neighbours(position));
            assert forall|d: Direction| self.contains(#[trigger] position.spec_step(d)) implies around@.contains(position.spec_step(d)) by {
                let target = position.spec_step(d);
                let i = choose|i: int| 0 <= i < 4 && all@[i] == target;
                let k = if i == 0 { 0int } else if i == 1 { self.kept(all@[0]).len() as int } else if i == 2 {
                    (self.kept(all@[0]).len() + self.kept(all@[1]).len()) as int
                } else {
                    (self.kept(all@[0]).len() + self.kept(all@[1]).len() + self.kept(all@[2]).len()) as int
                };
                assert(around@[k] == target);
            }
        }
        around
    }

    /// A cell that is a wall, lies outside the grid or is marked.
    pub open spec fn settled(&self, position: Position, marks: Seq<bool>) -> bool {
        self.is_free(position) ==> marks[cell_index(position, self.cols as int)]
    }

    /// All four neighbours of a cell are settled.
    pub open spec fn surrounded(&self, position: Position, marks: Seq<bool>) -> bool {
        &&& self.settled(position.spec_step(Direction::Up), marks)
        &&& self.settled(position.spec_step(Direction::Down), marks)
        &&& self.settled(position.spec_step(Direction::Left), marks)
        &&& self.settled(position.spec_step(Direction::Right), marks)
    }

    /// Every cell of the grid has its number below the number of cells.
    pub proof fn lemma_indices(&self)
        requires
            self.wf(),
        ensures
            forall|p: Position| self.contains(p) ==> 0 <= #[trigger] cell_index(p, self.cols as int) < self.cells@.len(),
    {
        assert forall|p: Position| self.contains(p) implies 0 <= #[trigger] cell_index(p, self.cols as int) < self.cells@.len() by {
            lemma_cell_index_bound(p, self.rows as int, self.cols as int);
        }
    }

    /// Marking one more cell keeps settled cells settled.
    proof fn lemma_marks_grow(&self, before: Seq<bool>, slot: int)
        requires
            self.wf(),
            before.len() == self.cells@.len(),
            0 <= slot < before.len(),
        ensures
            forall|q: Position| self.settled(q, before) ==> #[trigger] self.settled(q, before.update(slot, true)),
            forall|q: Position| self.surrounded(q, before) ==> #[trigger] self.surrounded(q, before.update(slot, true)),
    {
        self.lemma_indices();
    }

    /// A walk ends on a free cell.
    pub proof fn lemma_reach_ends_free(&self, from: Position, to: Position, steps: nat)
        requires
            self.reach_in(from, to, steps),
        ensures
            self.is_free(from),
            self.is_free(to),
        decreases steps,
    {
        if steps > 0 {
            let rest = (steps - 1) as nat;
            if self.reach_in(from.spec_step(Direction::Up), to, rest) {
                self.lemma_reach_ends_free(from.spec_step(Direction::Up), to, rest);
            } else if self.reach_in(from.spec_step(Direction::Down), to, rest) {
                self.lemma_reach_ends_free(from.spec_step(Direction::Down), to, rest);
            } else if self.reach_in(from.spec_step(Direction::Left), to, rest) {
                self.lemma_reach_ends_free(from.spec_step(Direction::Left), to, rest);
            } else {
                self.lemma_reach_ends_free(from.spec_step(Direction::Right), to, rest);
            }
        }
    }

    /// A walk can be entered one step earlier, from any free cell next to
    /// its first cell.
    pub proof fn lemma_reach_extend(&self, before: Position, from: Position, to: Position, steps: nat)
        requires
            self.wf(),
            self.is_free(before),
            adjacent(from, before),
            self.reach_in(from, to, steps),
        ensures
            self.reach_in(before, to, steps + 1),
    {
        assert(self.is_free(from));
        assert((steps + 1 - 1) as nat == steps);
        assert(from == before.spec_step(Direction::Up) || from == before.spec_step(Direction::Down)
            || from == before.spec_step(Direction::Left) || from == before.spec_step(Direction::Right));
    }

    /// A marking that holds the target and is closed under free neighbours
    /// holds every cell from which the target can be reached.
    proof fn lemma_flood_complete(&self, marks: Seq<bool>, target: Position, from: Position, steps: nat)
        requires
            self.wf(),
            marks.len() == self.cells@.len(),
            marks[cell_index(target, self.cols as int)],
            forall|x: Position| self.is_free(x) && #[trigger] marks[cell_index(x, self.cols as int)] ==> self.surrounded(x, marks),
            self.reach_in(from, target, steps),
        ensures
            marks[cell_index(from, self.cols as int)],
        decreases steps,
    {
        if steps > 0 {
            let rest = (steps - 1) as nat;
            let next = if self.reach_in(from.spec_step(Direction::Up), target, rest) {
                from.spec_step(Direction::Up)
            } else if self.reach_in(from.spec_step(Direction::Down), target, rest) {
                from.spec_step(Direction::Down)
            } else if self.reach_in(from.spec_step(Direction::Left), target, rest) {
                from.spec_step(Direction::Left)
            } else {
                from.spec_step(Direction::Right)
            };
            self.lemma_flood_complete(marks, target, next, rest);
            self.lemma_reach_ends_free(next, target, rest);
            assert(self.surrounded(next, marks));
            assert(self.is_free(from));
            assert(from == next.spec_step(Direction::Up) || from == next.spec_step(Direction::Down)
                || from == next.spec_step(Direction::Left) || from == next.spec_step(Direction::Right));
        }
    }

    /// Whether a search from `start` finds `position`. From a cell of the
    /// grid it finds the cells connected to it, none if it is a wall. From a
    /// position outside the grid it finds that position and whatever is
    /// connected to a neighbour of it inside the grid.
    pub open spec fn flooded(&self, start: Position, position: Position) -> bool {
        if self.contains(start) {
            self.connected(position, start)
        } else {
            ||| position == start
            ||| self.connected(position, start.spec_step(Direction::Up))
            ||| self.connected(position, start.spec_step(Direction::Down))
            ||| self.connected(position, start.spec_step(Direction::Left))
            ||| self.connected(position, start.spec_step(Direction::Right))
        }
    }

    /// The positions that a search from `start` finds, each once: it goes
    /// from cell to neighbouring cell and passes no wall. Nothing if `start`
    /// is a wall.
    pub fn explore_section(&self, start: Position) -> (section: Vec<Position>)
        requires
            self.wf(),
            self.contains(start) || start.can_step(),
        ensures
            section@.no_duplicates(),
            forall|p: Position| section@.contains(p) <==> self.flooded(start, p),
            self.contains(start) ==> (section@.len() > 0 <==> self.is_free(start)),
    {
        if start.is_within_bounds(self.rows as isize, self.cols as isize) {
            return self.flood(start);
        }
        let mut section: Vec<Position> = Vec::new();
        section.push(start);
        let around = self.valid_neighbours(start);
        proof {
            assert(around@.len() <= 1);
            assert forall|d: Direction, p: Position| !self.contains(#[trigger] start.spec_step(d)) implies !#[trigger] self.connected(p, start.spec_step(d)) by {
                if self.connected(p, start.spec_step(d)) {
                    let k = choose|k: nat| self.reach_in(p, start.spec_step(d), k);
                    self.lemma_reach_ends_free(p, start.spec_step(d), k);
                }
            }
        }
        if around.len() > 0 {
            let inside = around[0];
            let found = self.flood(inside);
            proof {
                assert forall|p: Position| found@.contains(p) implies self.contains(p) by {
                    let k = choose|k: nat| self.reach_in(p, inside, k);
                    self.lemma_reach_ends_free(p, inside, k);
                }
            }
            let mut i: usize = 0;
            while i < found.len()
                invariant
                    i <= found@.len(),
                    section@.len() == i + 1,
                    section@[0] == start,
                    !self.contains(start),
                    found@.no_duplicates(),
                    forall|p: Position| found@.contains(p) ==> self.contains(p),
                    forall|j: int| 0 <= j < i ==> section@[j + 1] == found@[j],
                decreases found@.len() - i,
            {
                section.push(found[i]);
                i += 1;
            }
            proof {
                assert forall|a: int, b: int| 0 <= a < section@.len() && 0 <= b < section@.len() && a != b implies section@[a] != section@[b] by {
                    if a > 0 {
                        assert(found@.contains(found@[a - 1]));
                    }
                    if b > 0 {
                        assert(found@.contains(found@[b - 1]));
                    }
                }
                assert forall|p: Position| section@.contains(p) <==> self.flooded(start, p) by {
                    if section@.contains(p) {
                        let a = choose|a: int| 0 <= a < section@.len() && section@[a] == p;
                        if a > 0 {
                            assert(found@.contains(found@[a - 1]));
                        }
                    }
                    if self.flooded(start, p) && p != start {
                        assert(self.connected(p, inside));
                        assert(found@.contains(p));
                        let j = choose|j: int| 0 <= j < found@.len() && found@[j] == p;
                        assert(section@[j + 1] == p);
                    }
                    if p == start {
                        assert(section@[0] == p);
                    }
                }
            }
        } else {
            proof {
                assert forall|p: Position| section@.contains(p) <==> self.flooded(start, p) by {
                    if p == start {
                        assert(section@[0] == p);
                    }
                }
            }
        }
        section
    }

    /// The free cells that can be reached from `start`, each once, in the
    /// order in which the search left them; nothing if `start` is no free
    /// cell.
    fn flood(&self, start: Position) -> (section: Vec<Position>)
        requires
            self.wf(),
        ensures
            section@.no_duplicates(),
            forall|p: Position| section@.contains(p) <==> self.connected(p, start),
            section@.len() > 0 <==> self.is_free(start),
    {
        let mut section: Vec<Position> = Vec::new();
        if !self.is_open(start) {
            proof {
                assert forall|p: Position| !self.connected(p, start) by {
                    if self.connected(p, start) {
                        let k = choose|k: nat| self.reach_in(p, start, k);
                        self.lemma_reach_ends_free(p, start, k);
                    }
                }
            }
            return section;
        }
        let count = self.cells.len();
        let mut marks: Vec<bool> = Vec::new();
        let mut filled: usize = 0;
        while filled < count
            invariant
                filled <= count,
                marks@.len() == filled,
                forall|i: int| 0 <= i < filled ==> !marks@[i],
            decreases count - filled,
        {
            marks.push(false);
            filled += 1;
        }
        let mut queue: Vec<Position> = Vec::new();
        queue.push(start);
        marks.set(cell_slot(start, self.rows, self.cols), true);
        proof {
            assert(self.reach_in(start, start, 0));
            assert forall|p: Position| self.is_free(p) && marks@[cell_index(p, self.cols as int)] implies queue@.contains(p) by {
                lemma_cell_index_bound(p, self.rows as int, self.cols as int);
                lemma_cell_index_injective(p, start, self.rows as int, self.cols as int);
                assert(queue@[0] == start);
            }
        }
        while queue.len() > 0
            invariant
                self.wf(),
                self.is_free(start),
                marks@.len() == self.cells@.len(),
                marks@[cell_index(start, self.cols as int)],
                queue@.no_duplicates(),
                section@.no_duplicates(),
                forall|i: int, j: int| 0 <= i < queue@.len() && 0 <= j < section@.len() ==> queue@[i] != section@[j],
                forall|i: int| 0 <= i < queue@.len() ==> self.is_free(#[trigger] queue@[i])
                    && marks@[cell_index(queue@[i], self.cols as int)] && self.connected(queue@[i], start),
                forall|i: int| 0 <= i < section@.len() ==> self.is_free(#[trigger] section@[i])
                    && marks@[cell_index(section@[i], self.cols as int)] && self.connected(section@[i], start)
                    && self.surrounded(section@[i], marks@),
                forall|p: Position| self.is_free(p) && #[trigger] marks@[cell_index(p, self.cols as int)]
                    ==> queue@.contains(p) || section@.contains(p),
            decreases 2 * unmarked(marks@) + queue@.len(),
        {
            let ghost queue_before = queue@;
            let node = queue.pop().unwrap();
            assert(node == queue_before[queue_before.len() - 1]);
            proof {
                self.lemma_indices();
                assert forall|p: Position| self.is_free(p) && #[trigger] marks@[cell_index(p, self.cols as int)]
                    implies queue@.contains(p) || section@.contains(p) || p == node by {
                    if queue_before.contains(p) {
                        let k = choose|k: int| 0 <= k < queue_before.len() && queue_before[k] == p;
                        if k < queue@.len() {
                            assert(queue@[k] == p);
                        }
                    }
                }
                assert forall|i: int| 0 <= i < queue@.len() implies queue@[i] != node by {
                    assert(queue_before[i] == queue@[i]);
                }
            }
            let around = self.valid_neighbours(node);
            let ghost budget = 2 * unmarked(marks@) + queue@.len();
            let mut i: usize = 0;
            while i < around.len()
                invariant
                    self.wf(),
                    self.is_free(start),
                    self.is_free(node),
                    self.connected(node, start),
                    i <= around@.len(),
                    marks@.len() == self.cells@.len(),
                    marks@[cell_index(start, self.cols as int)],
                    marks@[cell_index(node, self.cols as int)],
                    forall|j: int| 0 <= j < around@.len() ==> self.contains(#[trigger] around@[j]) && adjacent(node, around@[j]),
                    queue@.no_duplicates(),
                    section@.no_duplicates(),
                    forall|a: int| 0 <= a < queue@.len() ==> queue@[a] != node,
                    forall|a: int| 0 <= a < section@.len() ==> section@[a] != node,
                    forall|a: int, b: int| 0 <= a < queue@.len() && 0 <= b < section@.len() ==> queue@[a] != section@[b],
                    forall|a: int| 0 <= a < queue@.len() ==> self.is_free(#[trigger] queue@[a])
                        && marks@[cell_index(queue@[a], self.cols as int)] && self.connected(queue@[a], start),
                    forall|a: int| 0 <= a < section@.len() ==> self.is_free(#[trigger] section@[a])
                        && marks@[cell_index(section@[a], self.cols as int)] && self.connected(section@[a], start)
                        && self.surrounded(section@[a], marks@),
                    forall|p: Position| self.is_free(p) && #[trigger] marks@[cell_index(p, self.cols as int)]
                        ==> queue@.contains(p) || section@.contains(p) || p == node,
                    forall|j: int| 0 <= j < i ==> self.settled(#[trigger] around@[j], marks@),
                    2 * unmarked(marks@) + queue@.len() <= budget,
                decreases around@.len() - i,
            {
                let neighbour = around[i];
                let slot = cell_slot(neighbour, self.rows, self.cols);
                if !marks[slot] && self.cells[slot] != Entity::Wall {
                    let ghost marks_before = marks@;
                    let ghost inner_queue = queue@;
                    marks.set(slot, true);
                    queue.push(neighbour);
                    proof {
                        self.lemma_indices();
                        self.lemma_marks_grow(marks_before, slot as int);
                        lemma_mark(marks_before, slot as int);
                        let k = choose|k: nat| self.reach_in(node, start, k);
                        self.lemma_reach_extend(neighbour, node, start, k);
                        assert(self.connected(neighbour, start));
                        assert forall|p: Position| self.is_free(p) && #[trigger] marks@[cell_index(p, self.cols as int)]
                            implies queue@.contains(p) || section@.contains(p) || p == node by {
                            lemma_cell_index_bound(p, self.rows as int, self.cols as int);
                            if cell_index(p, self.cols as int) == slot {
                                lemma_cell_index_injective(p, neighbour, self.rows as int, self.cols as int);
                                assert(queue@[inner_queue.len() as int] == p);
                            } else {
                                assert(marks_before[cell_index(p, self.cols as int)]);
                                if inner_queue.contains(p) {
                                    let a = choose|a: int| 0 <= a < inner_queue.len() && inner_queue[a] == p;
                                    assert(queue@[a] == p);
                                }
                            }
                        }
                        assert forall|a: int| 0 <= a < section@.len() implies self.surrounded(#[trigger] section@[a], marks@) by {
                            assert(self.surrounded(section@[a], marks_before));
                        }
                        assert forall|j: int| 0 <= j < i implies self.settled(#[trigger] around@[j], marks@) by {
                            assert(self.settled(around@[j], marks_before));
                        }
                    }
                }
                i += 1;
            }
            let ghost section_before = section@;
            section.push(node);
            proof {
                self.lemma_indices();
                assert forall|d: Direction| self.settled(#[trigger] node.spec_step(d), marks@) by {
                    if self.is_free(node.spec_step(d)) {
                        let j = choose|j: int| 0 <= j < around@.len() && around@[j] == node.spec_step(d);
                        assert(self.settled(around@[j], marks@));
                    }
                }
                assert(self.surrounded(node, marks@));
                assert forall|p: Position| self.is_free(p) && #[trigger] marks@[cell_index(p, self.cols as int)]
                    implies queue@.contains(p) || section@.contains(p) by {
                    if p == node {
                        assert(section@[section@.len() - 1] == node);
                    } else if !queue@.contains(p) {
                        let a = choose|a: int| 0 <= a < section_before.len() && section_before[a] == p;
                        assert(section@[a] == p);
                    }
                }
            }
        }
        proof {
            self.lemma_indices();
            assert forall|x: Position| self.is_free(x) && #[trigger] marks@[cell_index(x, self.cols as int)]
                implies self.surrounded(x, marks@) by {
                let a = choose|a: int| 0 <= a < section@.len() && section@[a] == x;
                assert(self.surrounded(section@[a], marks@));
            }
            assert forall|p: Position| section@.contains(p) <==> self.connected(p, start) by {
                if section@.contains(p) {
                    let a = choose|a: int| 0 <= a < section@.len() && section@[a] == p;
                    assert(self.connected(section@[a], start));
                }
                if self.connected(p, start) {
                    let k = choose|k: nat| self.reach_in(p, start, k);
                    self.lemma_flood_complete(marks@, start, p, k);
                    self.lemma_reach_ends_free(p, start, k);
                }
            }
            assert(self.reach_in(start, start, 0));
            assert(self.connected(start, start));
        }
        section
    }

    /// Two walks that meet make one walk.
    pub proof fn lemma_reach_join(&self, a: Position, b: Position, c: Position, first: nat, second: nat)
        requires
            self.reach_in(a, b, first),
            self.reach_in(b, c, second),
        ensures
            self.reach_in(a, c, first + second),
        decreases first,
    {
        if first > 0 {
            let rest = (first - 1) as nat;
            let next = if self.reach_in(a.spec_step(Direction::Up), b, rest) {
                a.spec_step(Direction::Up)
            } else if self.reach_in(a.spec_step(Direction::Down), b, rest) {
                a.spec_step(Direction::Down)
            } else if self.reach_in(a.spec_step(Direction::Left), b, rest) {
                a.spec_step(Direction::Left)
            } else {
                a.spec_step(Direction::Right)
            };
            self.lemma_reach_join(next, b, c, rest, second);
            assert((first + second - 1) as nat == rest + second);
        }
    }

    /// A walk can be taken backwards.
    pub proof fn lemma_reach_back(&self, a: Position, b: Position, steps: nat)
        requires
            self.wf(),
            self.reach_in(a, b, steps),
        ensures
            self.reach_in(b, a, steps),
        decreases steps,
    {
        if steps > 0 {
            let rest = (steps - 1) as nat;
            let next = if self.reach_in(a.spec_step(Direction::Up), b, rest) {
                a.spec_step(Direction::Up)
            } else if self.reach_in(a.spec_step(Direction::Down), b, rest) {
                a.spec_step(Direction::Down)
            } else if self.reach_in(a.spec_step(Direction::Left), b, rest) {
                a.spec_step(Direction::Left)
            } else {
                a.spec_step(Direction::Right)
            };
            self.lemma_reach_back(next, b, rest);
            self.lemma_reach_ends_free(next, b, rest);
            assert(self.reach_in(a, a, 0));
            self.lemma_reach_extend(next, a, a, 0);
            self.lemma_reach_join(b, next, a, rest, 1);
        }
    }

    /// Being connected is symmetric.
    pub proof fn lemma_connected_symmetric(&self, a: Position, b: Position)
        requires
            self.wf(),
            self.connected(a, b),
        ensures
            self.connected(b, a),
    {
        let k = choose|k: nat| self.reach_in(a, b, k);
        self.lemma_reach_back(a, b, k);
    }

    /// Being connected is transitive.
    pub proof fn lemma_connected_transitive(&self, a: Position, b: Position, c: Position)
        requires
            self.connected(a, b),
            self.connected(b, c),
        ensures
            self.connected(a, c),
    {
        let first = choose|k: nat| self.reach_in(a, b, k);
        let second = choose|k: nat| self.reach_in(b, c, k);
        self.lemma_reach_join(a, b, c, first, second);
    }

    /// Whether the section has a cell with a number below `bound`.
    pub open spec fn begun(&self, section: Seq<Position>, bound: int) -> bool {
        exists|p: Position| #[trigger] section.contains(p) && cell_index(p, self.cols as int) < bound
    }

    /// Whether a row-by-row scan meets `first` before `second`: some cell of
    /// `first` comes before every cell of `second`.
    pub open spec fn starts_before(&self, first: Seq<Position>, second: Seq<Position>) -> bool {
        exists|p: Position| #[trigger] first.contains(p) && forall|q: Position| second.contains(q) ==> cell_index(p, self.cols as int) < cell_index(q, self.cols as int)
    }

    /// The sections are in the order in which a row-by-row scan meets them.
    pub open spec fn in_scan_order(&self, sections: Seq<Vec<Position>>) -> bool {
        forall|s: int, t: int| 0 <= s < t < sections.len() ==> self.starts_before((#[trigger] sections[s])@, (#[trigger] sections[t])@)
    }

    /// The sections are the connected regions of the free cells: each is
    /// non-empty and without repeats, holds with a cell exactly the cells
    /// connected to it, every free cell is in one of them and no cell is in
    /// two.
    pub open spec fn is_partition(&self, sections: Seq<Vec<Position>>) -> bool {
        &&& forall|s: int| 0 <= s < sections.len() ==> (#[trigger] sections[s])@.len() > 0 && sections[s]@.no_duplicates()
        &&& forall|s: int, p: Position, q: Position| 0 <= s < sections.len() && #[trigger] sections[s]@.contains(p)
                ==> (#[trigger] sections[s]@.contains(q) <==> self.connected(q, p))
        &&& forall|p: Position| self.is_free(p) ==> #[trigger] covered(sections, p)
        &&& forall|s: int, t: int, p: Position| 0 <= s < t < sections.len() ==> !(#[trigger] sections[s]@.contains(p) && #[trigger] sections[t]@.contains(p))
    }

    /// The connected regions of the free cells, in the order in which a
    /// row-by-row scan meets them.
    pub fn find_connected_sections(&self) -> (sections: Vec<Vec<Position>>)
        requires
            self.wf(),
        ensures
            self.is_partition(sections@),
            self.in_scan_order(sections@),
    {
        let positions = self.all_positions();
        let mut sections: Vec<Vec<Position>> = Vec::new();
        let mut seen: Vec<bool> = Vec::new();
        let mut filled: usize = 0;
        while filled < positions.len()
            invariant
                filled <= positions@.len(),
                seen@.len() == filled,
                forall|i: int| 0 <= i < filled ==> !seen@[i],
            decreases positions@.len() - filled,
        {
            seen.push(false);
            filled += 1;
        }
        proof {
            self.lemma_indices();
        }
        let mut i: usize = 0;
        while i < positions.len()
            invariant
                self.wf(),
                i <= positions@.len(),
                positions@.len() == self.rows * self.cols,
                seen@.len() == positions@.len(),
                forall|j: int| 0 <= j < positions@.len() ==> self.contains(#[trigger] positions@[j])
                    && cell_index(positions@[j], self.cols as int) == j,
                forall|p: Position| self.contains(p) ==> (#[trigger] seen@[cell_index(p, self.cols as int)] <==> covered(sections@, p)),
                forall|j: int| 0 <= j < i ==> self.is_free(#[trigger] positions@[j]) ==> covered(sections@, positions@[j]),
                forall|s: int| 0 <= s < sections@.len() ==> (#[trigger] sections@[s])@.len() > 0 && sections@[s]@.no_duplicates(),
                forall|s: int, p: Position, q: Position| 0 <= s < sections@.len() && #[trigger] sections@[s]@.contains(p)
                    ==> (#[trigger] sections@[s]@.contains(q) <==> self.connected(q, p)),
                forall|s: int, t: int, p: Position| 0 <= s < t < sections@.len() ==> !(#[trigger] sections@[s]@.contains(p) && #[trigger] sections@[t]@.contains(p)),
                forall|s: int| 0 <= s < sections@.len() ==> self.begun((#[trigger] sections@[s])@, i as int),
                self.in_scan_order(sections@),
            decreases positions@.len() - i,
        {
            let position = positions[i];
            let ghost earlier = sections@;
            proof {
                self.lemma_indices();
                assert forall|s: int| 0 <= s < earlier.len() implies self.begun((#[trigger] earlier[s])@, i + 1) by {
                    assert(self.begun(earlier[s]@, i as int));
                    let p = choose|p: Position| #[trigger] earlier[s]@.contains(p) && cell_index(p, self.cols as int) < i;
                    assert(earlier[s]@.contains(p) && cell_index(p, self.cols as int) < i + 1);
                }
            }
            if !seen[i] {
                let section = self.explore_section(position);
                if section.len() > 0 {
                    let ghost seen_before = seen@;
                    let ghost sections_before = sections@;
                    proof {
                        assert forall|p: Position| #[trigger] section@.contains(p) implies self.is_free(p) by {
                            let k = choose|k: nat| self.reach_in(p, position, k);
                            self.lemma_reach_ends_free(p, position, k);
                        }
                    }
                    let mut j: usize = 0;
                    while j < section.len()
                        invariant
                            self.wf(),
                            j <= section@.len(),
                            seen@.len() == seen_before.len(),
                            seen@.len() == self.cells@.len(),
                            forall|p: Position| #[trigger] section@.contains(p) ==> self.is_free(p),
                            forall|p: Position| self.contains(p) ==> (#[trigger] seen@[cell_index(p, self.cols as int)]
                                <==> seen_before[cell_index(p, self.cols as int)] || exists|a: int| 0 <= a < j && section@[a] == p),
                        decreases section@.len() - j,
                    {
                        let member = section[j];
                        assert(section@.contains(member));
                        let slot = cell_slot(member, self.rows, self.cols);
                        let ghost marks = seen@;
                        seen.set(slot, true);
                        proof {
                            self.lemma_indices();
                            assert forall|p: Position| self.contains(p) implies (#[trigger] seen@[cell_index(p, self.cols as int)]
                                <==> seen_before[cell_index(p, self.cols as int)] || exists|a: int| 0 <= a < j + 1 && section@[a] == p) by {
                                if cell_index(p, self.cols as int) == slot {
                                    lemma_cell_index_injective(p, member, self.rows as int, self.cols as int);
                                    assert(section@[j as int] == p);
                                } else {
                                    assert(seen@[cell_index(p, self.cols as int)] == marks[cell_index(p, self.cols as int)]);
                                    if exists|a: int| 0 <= a < j + 1 && section@[a] == p {
                                        let a = choose|a: int| 0 <= a < j + 1 && section@[a] == p;
                                        assert(a < j);
                                    }
                                }
                            }
                        }
                        j += 1;
                    }
                    proof {
                        assert(self.reach_in(position, position, 0));
                        assert(self.connected(position, position));
                        assert forall|p: Position, q: Position| section@.contains(p) implies (section@.contains(q) <==> self.connected(q, p)) by {
                            self.lemma_connected_symmetric(p, position);
                            if section@.contains(q) {
                                self.lemma_connected_transitive(q, position, p);
                            }
                            if self.connected(q, p) {
                                self.lemma_connected_transitive(q, p, position);
                            }
                        }
                        assert forall|s: int, p: Position| 0 <= s < sections_before.len() implies !(#[trigger] sections_before[s]@.contains(p) && section@.contains(p)) by {
                            if sections_before[s]@.contains(p) && section@.contains(p) {
                                self.lemma_connected_symmetric(p, position);
                                assert(sections_before[s]@.contains(position));
                                assert(covered(sections_before, position));
                            }
                        }
                    }
                    sections.push(section);
                    proof {
                        let last = sections_before.len() as int;
                        assert(sections@[last] == section);
                        assert forall|p: Position| covered(sections@, p) <==> covered(sections_before, p) || section@.contains(p) by {
                            if covered(sections_before, p) {
                                let s = choose|s: int| 0 <= s < sections_before.len() && sections_before[s]@.contains(p);
                                assert(sections@[s]@.contains(p));
                            }
                            if section@.contains(p) {
                                assert(sections@[last]@.contains(p));
                            }
                            if covered(sections@, p) {
                                let s = choose|s: int| 0 <= s < sections@.len() && sections@[s]@.contains(p);
                                if s < last {
                                    assert(sections_before[s]@.contains(p));
                                }
                            }
                        }
                        assert forall|p: Position| self.contains(p) implies (#[trigger] seen@[cell_index(p, self.cols as int)] <==> covered(sections@, p)) by {
                            if section@.contains(p) {
                                let a = choose|a: int| 0 <= a < section@.len() && section@[a] == p;
                            }
                        }
                        assert(section@.contains(position));
                        assert forall|s: int, p: Position, q: Position| 0 <= s < sections@.len() && #[trigger] sections@[s]@.contains(p)
                            implies (#[trigger] sections@[s]@.contains(q) <==> self.connected(q, p)) by {
                            if s < last {
                                assert(sections_before[s] == sections@[s]);
                            }
                        }
                        assert forall|s: int, t: int, p: Position| 0 <= s < t < sections@.len() implies !(#[trigger] sections@[s]@.contains(p) && #[trigger] sections@[t]@.contains(p)) by {
                            assert(sections_before[s] == sections@[s]);
                            if t < last {
                                assert(sections_before[t] == sections@[t]);
                            }
                        }
                        assert forall|s: int| 0 <= s < sections@.len() implies (#[trigger] sections@[s])@.len() > 0 && sections@[s]@.no_duplicates() by {
                            if s < last {
                                assert(sections_before[s] == sections@[s]);
                            }
                        }
                        assert forall|q: Position| section@.contains(q) implies cell_index(q, self.cols as int) >= i by {
                            if cell_index(q, self.cols as int) < i {
                                lemma_cell_index_injective(positions@[cell_index(q, self.cols as int)], q, self.rows as int, self.cols as int);
                                assert(covered(sections_before, positions@[cell_index(q, self.cols as int)]));
                                let s = choose|s: int| 0 <= s < sections_before.len() && (#[trigger] sections_before[s])@.contains(q);
                                assert(!(sections_before[s]@.contains(q) && section@.contains(q)));
                            }
                        }
                        assert forall|s: int| 0 <= s < sections@.len() implies self.begun((#[trigger] sections@[s])@, i + 1) by {
                            if s < last {
                                assert(sections_before[s] == sections@[s]);
                                assert(self.begun(earlier[s]@, i + 1));
                            } else {
                                assert(section@.contains(position) && cell_index(position, self.cols as int) < i + 1);
                            }
                        }
                        assert forall|s: int, t: int| 0 <= s < t < sections@.len() implies self.starts_before((#[trigger] sections@[s])@, (#[trigger] sections@[t])@) by {
                            assert(sections_before[s] == sections@[s]);
                            if t < last {
                                assert(sections_before[t] == sections@[t]);
                                assert(self.starts_before(sections_before[s]@, sections_before[t]@));
                            } else {
                                assert(self.begun(earlier[s]@, i as int));
                                let p = choose|p: Position| #[trigger] earlier[s]@.contains(p) && cell_index(p, self.cols as int) < i;
                                assert(sections@[s]@.contains(p) && forall|q: Position| section@.contains(q) ==> cell_index(p, self.cols as int) < cell_index(q, self.cols as int));
                            }
                        }
                    }
                }
            }
            i += 1;
        }
        proof {
            assert forall|p: Position| self.is_free(p) implies #[trigger] covered(sections@, p) by {
                self.lemma_indices();
                assert(positions@[cell_index(p, self.cols as int)] == p) by {
                    lemma_cell_index_injective(positions@[cell_index(p, self.cols as int)], p, self.rows as int, self.cols as int);
                }
            }
        }
        sections
    }

    /// The free cells of the grid, row by row.
    pub fn free_space(&self) -> (space: Vec<Position>)
        requires
            self.wf(),
        ensures
            space@.no_duplicates(),
            forall|p: Position| space@.contains(p) <==> self.is_free(p),
    {
        let positions = self.all_positions();
        let mut space: Vec<Position> = Vec::new();
        let mut i: usize = 0;
        while i < positions.len()
            invariant
                self.wf(),
                i <= positions@.len(),
                positions@.len() == self.rows * self.cols,
                forall|j: int| 0 <= j < positions@.len() ==> self.contains(#[trigger] positions@[j])
                    && cell_index(positions@[j], self.cols as int) == j,
                forall|a: int| 0 <= a < space@.len() ==> self.is_free(#[trigger] space@[a]) && cell_index(space@[a], self.cols as int) < i,
                forall|a: int, b: int| 0 <= a < b < space@.len() ==> cell_index(space@[a], self.cols as int) < cell_index(space@[b], self.cols as int),
                forall|j: int| 0 <= j < i ==> self.is_free(#[trigger] positions@[j]) ==> space@.contains(positions@[j]),
            decreases positions@.len() - i,
        {
            let position = positions[i];
            if self.is_open(position) {
                let ghost before = space@;
                space.push(position);
                proof {
                    assert forall|j: int| 0 <= j < i + 1 implies (self.is_free(#[trigger] positions@[j]) ==> space@.contains(positions@[j])) by {
                        if self.is_free(positions@[j]) {
                            if j < i {
                                let a = choose|a: int| 0 <= a < before.len() && before[a] == positions@[j];
                                assert(space@[a] == positions@[j]);
                            } else {
                                assert(space@[before.len() as int] == position);
                            }
                        }
                    }
                }
            }
            i += 1;
        }
        proof {
            self.lemma_indices();
            assert forall|p: Position| self.is_free(p) implies space@.contains(p) by {
                assert(positions@[cell_index(p, self.cols as int)] == p) by {
                    lemma_cell_index_injective(positions@[cell_index(p, self.cols as int)], p, self.rows as int, self.cols as int);
                }
            }
        }
        space
    }

    /// Turns up to `wall_count` cells into walls, chosen by a random
    /// shuffle of all positions: the first `wall_count` of the shuffled
    /// positions, or all of them if there are fewer.
    pub fn randomise_walls(&mut self, wall_count: usize)
        requires
            old(self).wf(),
        ensures
            final(self).wf(),
            final(self).rows == old(self).rows,
            final(self).cols == old(self).cols,
            scattered_from(*old(self), *final(self), wall_count),
    {
        let mut positions = self.all_positions();
        let ghost ordered = positions@;
        shuffle_positions(&mut positions);
        proof {
            assert forall|i: int, j: int| 0 <= i < ordered.len() && 0 <= j < ordered.len() && i != j implies ordered[i] != ordered[j] by {
                assert(self.contains(ordered[i]) && self.contains(ordered[j]));
            }
            ordered.lemma_multiset_has_no_duplicates();
            positions@.lemma_multiset_has_no_duplicates_conv();
            ordered.to_multiset_ensures();
            positions@.to_multiset_ensures();
        }
        let ghost shuffled = positions@;
        if wall_count < positions.len() {
            positions.truncate(wall_count);
        }
        let ghost chosen = positions@;
        proof {
            assert forall|p: Position| chosen.contains(p) implies self.contains(p) by {
                let i = choose|i: int| 0 <= i < chosen.len() && chosen[i] == p;
                assert(shuffled[i] == p);
                assert(shuffled.contains(p));
                assert(shuffled.to_multiset().count(p) > 0);
                assert(ordered.to_multiset().count(p) > 0);
                assert(ordered.contains(p));
                let j = choose|j: int| 0 <= j < ordered.len() && ordered[j] == p;
                assert(self.contains(ordered[j]));
            }
            assert forall|i: int, j: int| 0 <= i < chosen.len() && 0 <= j < chosen.len() && i != j implies chosen[i] != chosen[j] by {
                assert(shuffled[i] == chosen[i] && shuffled[j] == chosen[j]);
            }
        }
        proof {
            if wall_count < shuffled.len() {
                let left = shuffled[wall_count as int];
                assert(shuffled.contains(left));
                assert(shuffled.to_multiset().count(left) > 0);
                assert(ordered.to_multiset().count(left) > 0);
                assert(ordered.contains(left));
                let j = choose|j: int| 0 <= j < ordered.len() && ordered[j] == left;
                assert(self.contains(ordered[j]));
                assert(!chosen.contains(left)) by {
                    if chosen.contains(left) {
                        let k = choose|k: int| 0 <= k < chosen.len() && chosen[k] == left;
                        assert(shuffled[k] == chosen[k]);
                    }
                }
                assert(old(self).contains(left) && !chosen.contains(left));
                assert(spared(*old(self), chosen));
            }
        }
        self.set_positions(positions, Entity::Wall);
        assert(walled_off(*old(self), *self, chosen));
        assert(chosen.len() == (if wall_count <= old(self).rows * old(self).cols { wall_count as int } else { old(self).rows * old(self).cols }));
    }

    /// A walk stays a walk in a grid of the same size in which every cell
    /// connected to the walk's end is still free.
    proof fn lemma_reach_kept(&self, after: Grid, from: Position, to: Position, steps: nat)
        requires
            self.wf(),
            after.rows == self.rows,
            after.cols == self.cols,
            forall|x: Position| #[trigger] self.connected(x, to) ==> after.is_free(x),
            self.reach_in(from, to, steps),
        ensures
            after.reach_in(from, to, steps),
        decreases steps,
    {
        assert(self.connected(from, to));
        if steps > 0 {
            let rest = (steps - 1) as nat;
            let next = if self.reach_in(from.spec_step(Direction::Up), to, rest) {
                from.spec_step(Direction::Up)
            } else if self.reach_in(from.spec_step(Direction::Down), to, rest) {
                from.spec_step(Direction::Down)
            } else if self.reach_in(from.spec_step(Direction::Left), to, rest) {
                from.spec_step(Direction::Left)
            } else {
                from.spec_step(Direction::Right)
            };
            self.lemma_reach_kept(after, next, to, rest);
        }
    }

    /// Places walls at random, then turns every connected region but the
    /// largest into walls and returns the cells of that region: afterwards
    /// they are exactly the free cells of the grid, and each of them can be
    /// reached from each other. Of several largest regions the one that a
    /// row-by-row scan meets last is kept. Without any free cell the result
    /// is empty.
    pub fn initialise_walls(&mut self, wall_count: usize) -> (space: Vec<Position>)
        requires
            old(self).wf(),
        ensures
            final(self).wf(),
            final(self).rows == old(self).rows,
            final(self).cols == old(self).cols,
            space@.no_duplicates(),
            forall|p: Position| space@.contains(p) <==> final(self).is_free(p),
            forall|p: Position, q: Position| space@.contains(p) && space@.contains(q) ==> final(self).connected(p, q),
            forall|p: Position| #[trigger] final(self).entity_at(p) == old(self).entity_at(p) || final(self).entity_at(p) == Entity::Wall,
            exists|scattered: Grid| #[trigger] empties(*old(self), scattered, space@, wall_count),
            space@.len() > 0 ==> exists|scattered: Grid, sections: Seq<Vec<Position>>, kept: int| #[trigger]
                keeps_largest(*old(self), scattered, sections, kept, space@, wall_count) && forall|p: Position|
                    final(self).entity_at(p) == (if space@.contains(p) || !scattered.is_free(p) {
                        scattered.entity_at(p)
                    } else {
                        Entity::Wall
                    }),
    {
        self.randomise_walls(wall_count);
        let mut space: Vec<Position> = Vec::new();
        let mut sections = self.find_connected_sections();
        let ghost scattered = *self;
        let ghost all = sections@;
        let count = sections.len();
        if count == 0 {
            proof {
                assert forall|p: Position| !self.is_free(p) by {
                    if self.is_free(p) {
                        assert(covered(all, p));
                    }
                }
                assert(empties(*old(self), scattered, space@, wall_count));
            }
            return space;
        }
        let mut best: usize = 0;
        let mut s: usize = 1;
        while s < count
            invariant
                1 <= s <= count,
                count == sections@.len(),
                best < s,
                forall|u: int| 0 <= u < s ==> (#[trigger] sections@[u])@.len() <= sections@[best as int]@.len(),
                forall|u: int| best < u < s ==> (#[trigger] sections@[u])@.len() < sections@[best as int]@.len(),
            decreases count - s,
        {
            if sections[s].len() >= sections[best].len() {
                best = s;
            }
            s += 1;
        }
        let mut t: usize = count;
        while t > 0
            invariant
                self.wf(),
                scattered.wf(),
                self.rows == scattered.rows,
                self.cols == scattered.cols,
                scattered.is_partition(all),
                scattered.in_scan_order(all),
                t <= count,
                count == all.len(),
                best < count,
                sections@ == all.take(t as int),
                t <= best ==> space@ == all[best as int]@,
                forall|p: Position| walled_from(all, best as int, t as int, p) ==> #[trigger] self.entity_at(p) == Entity::Wall,
                forall|p: Position| !walled_from(all, best as int, t as int, p) ==> #[trigger] self.entity_at(p) == scattered.entity_at(p),
            decreases t,
        {
            let section = sections.pop().unwrap();
            t -= 1;
            assert(section == all[t as int]);
            assert(sections@ =~= all.take(t as int));
            if t == best {
                space = section;
                proof {
                    assert forall|p: Position| walled_from(all, best as int, t as int, p) == walled_from(all, best as int, t + 1, p) by {
                        if walled_from(all, best as int, t as int, p) {
                            let u = choose|u: int| t <= u < all.len() && u != best && (#[trigger] all[u])@.contains(p);
                            assert(t + 1 <= u);
                        }
                        if walled_from(all, best as int, t + 1, p) {
                            let u = choose|u: int| t + 1 <= u < all.len() && u != best && (#[trigger] all[u])@.contains(p);
                            assert(t <= u);
                        }
                    }
                }
            } else {
                let ghost before = *self;
                let ghost members = section@;
                self.set_positions(section, Entity::Wall);
                proof {
                    assert forall|p: Position| walled_from(all, best as int, t as int, p) implies #[trigger] self.entity_at(p) == Entity::Wall by {
                        let u = choose|u: int| t <= u < all.len() && u != best && (#[trigger] all[u])@.contains(p);
                        if u == t {
                            assert(scattered.connected(p, p));
                            let k = choose|k: nat| scattered.reach_in(p, p, k);
                            scattered.lemma_reach_ends_free(p, p, k);
                        } else {
                            assert(walled_from(all, best as int, t + 1, p));
                            assert(before.entity_at(p) == Entity::Wall);
                        }
                    }
                    assert forall|p: Position| !walled_from(all, best as int, t as int, p) implies #[trigger] self.entity_at(p) == scattered.entity_at(p) by {
                        if members.contains(p) {
                            assert(all[t as int]@.contains(p));
                        }
                        if walled_from(all, best as int, t + 1, p) {
                            let u = choose|u: int| t + 1 <= u < all.len() && u != best && (#[trigger] all[u])@.contains(p);
                            assert(t <= u);
                        }
                    }
                }
            }
        }
        proof {
            let kept = all[best as int]@;
            assert(kept.len() > 0);
            assert forall|p: Position| kept.contains(p) implies scattered.is_free(p) && !walled_from(all, best as int, 0, p) by {
                assert(scattered.connected(p, p));
                let k = choose|k: nat| scattered.reach_in(p, p, k);
                scattered.lemma_reach_ends_free(p, p, k);
                if walled_from(all, best as int, 0, p) {
                    let u = choose|u: int| 0 <= u < all.len() && u != best && (#[trigger] all[u])@.contains(p);
                    if u < best {
                        assert(!(all[u]@.contains(p) && all[best as int]@.contains(p)));
                    } else {
                        assert(!(all[best as int]@.contains(p) && all[u]@.contains(p)));
                    }
                }
            }
            assert forall|p: Position| space@.contains(p) <==> self.is_free(p) by {
                if kept.contains(p) {
                    assert(self.entity_at(p) == scattered.entity_at(p));
                }
                if self.is_free(p) {
                    if walled_from(all, best as int, 0, p) {
                        assert(self.entity_at(p) == Entity::Wall);
                    } else {
                        assert(self.entity_at(p) == scattered.entity_at(p));
                        assert(covered(all, p));
                        let u = choose|u: int| 0 <= u < all.len() && (#[trigger] all[u])@.contains(p);
                        if u != best {
                            assert(walled_from(all, best as int, 0, p));
                        }
                    }
                }
            }
            assert forall|p: Position, q: Position| space@.contains(p) && space@.contains(q) implies self.connected(p, q) by {
                assert(scattered.connected(p, q));
                let k = choose|k: nat| scattered.reach_in(p, q, k);
                assert forall|x: Position| #[trigger] scattered.connected(x, q) implies self.is_free(x) by {
                    assert(kept.contains(x));
                }
                scattered.lemma_reach_kept(*self, p, q, k);
            }
            assert(keeps_largest(*old(self), scattered, all, best as int, space@, wall_count));
            assert(empties(*old(self), scattered, space@, wall_count)) by {
                assert(kept.contains(kept[0]));
                assert(scattered.is_free(kept[0]));
            }
            assert forall|p: Position|
                self.entity_at(p) == (if space@.contains(p) || !scattered.is_free(p) {
                    scattered.entity_at(p)
                } else {
                    Entity::Wall
                }) by {
                if walled_from(all, best as int, 0, p) {
                    let u = choose|u: int| 0 <= u < all.len() && u != best && (#[trigger] all[u])@.contains(p);
                    assert(scattered.connected(p, p));
                    let k = choose|k: nat| scattered.reach_in(p, p, k);
                    scattered.lemma_reach_ends_free(p, p, k);
                    assert(self.entity_at(p) == Entity::Wall);
                } else {
                    assert(self.entity_at(p) == scattered.entity_at(p));
                    if scattered.is_free(p) {
                        assert(covered(all, p));
                        let u = choose|u: int| 0 <= u < all.len() && (#[trigger] all[u])@.contains(p);
                        assert(u == best);
                    }
                }
            }
            assert forall|p: Position| #[trigger] self.entity_at(p) == old(self).entity_at(p) || self.entity_at(p) == Entity::Wall by {
                let chosen = choose|chosen: Seq<Position>| #[trigger] walled_off(*old(self), scattered, chosen);
                if walled_from(all, best as int, 0, p) {
                    assert(self.entity_at(p) == Entity::Wall);
                } else {
                    assert(self.entity_at(p) == scattered.entity_at(p));
                    if chosen.contains(p) {
                        assert(scattered.entity_at(p) == Entity::Wall);
                    } else {
                        assert(scattered.entity_at(p) == old(self).entity_at(p));
                    }
                }
            }
        }
        space
    }
}

/// The sign that stands for an entity in a picture of the grid.
pub open spec fn glyph(entity: Entity) -> char {
    match entity {
        Entity::Wall => '#',
        Entity::Letter(letter) => letter,
        Entity::Nothing => ' ',
    }
}

impl Grid {
    /// The sign of the cell in row `row` and column `col`.
    pub open spec fn sign_at(&self, row: int, col: int) -> char {
        glyph(self.entity_at(Position { row: row as isize, col: col as isize }))
    }

    /// A picture of the grid: one line per row, one sign per cell.
    pub fn picture(&self) -> (lines: Vec<Vec<char>>)
        requires
            self.wf(),
        ensures
            lines@.len() == self.rows,
            forall|r: int| 0 <= r < self.rows ==> (#[trigger] lines@[r])@.len() == self.cols,
            forall|r: int, c: int| 0 <= r < self.rows && 0 <= c < self.cols ==> #[trigger] lines@[r]@[c] == self.sign_at(r, c),
    {
        let mut lines: Vec<Vec<char>> = Vec::new();
        let mut row: usize = 0;
        while row < self.rows
            invariant
                self.wf(),
                row <= self.rows,
                lines@.len() == row,
                forall|r: int| 0 <= r < row ==> (#[trigger] lines@[r])@.len() == self.cols,
                forall|r: int, c: int| 0 <= r < row && 0 <= c < self.cols ==> #[trigger] lines@[r]@[c] == self.sign_at(r, c),
            decreases self.rows - row,
        {
            let mut line: Vec<char> = Vec::new();
            let mut col: usize = 0;
            while col < self.cols
                invariant
                    self.wf(),
                    row < self.rows,
                    col <= self.cols,
                    line@.len() == col,
                    forall|c: int| 0 <= c < col ==> #[trigger] line@[c] == self.sign_at(row as int, c),
                decreases self.cols - col,
            {
                let sign = match self.entity(Position::new(row as isize, col as isize)) {
                    Entity::Wall => '#',
                    Entity::Letter(letter) => letter,
                    Entity::Nothing => ' ',
                };
                line.push(sign);
                col += 1;
            }
            lines.push(line);
            row += 1;
        }
        lines
    }
}

impl Level {
    /// The sign of a cell in a picture of the level: `S` on the start, `G`
    /// on the goal, else the sign of the grid's cell.
    pub open spec fn sign_at(&self, row: int, col: int) -> char {
        if self.start == (Position { row: row as isize, col: col as isize }) {
            'S'
        } else if self.goal == (Position { row: row as isize, col: col as isize }) {
            'G'
        } else {
            self.grid.sign_at(row, col)
        }
    }

    /// A picture of the level: the grid's picture with the start and the
    /// goal marked.
    pub fn picture(&self) -> (lines: Vec<Vec<char>>)
        requires
            self.grid.wf(),
        ensures
            lines@.len() == self.grid.rows,
            forall|r: int| 0 <= r < self.grid.rows ==> (#[trigger] lines@[r])@.len() == self.grid.cols,
            forall|r: int, c: int| 0 <= r < self.grid.rows && 0 <= c < self.grid.cols ==> #[trigger] lines@[r]@[c] == self.sign_at(r, c),
    {
        let mut lines: Vec<Vec<char>> = Vec::new();
        let mut row: usize = 0;
        while row < self.grid.rows
            invariant
                self.grid.wf(),
                row <= self.grid.rows,
                lines@.len() == row,
                forall|r: int| 0 <= r < row ==> (#[trigger] lines@[r])@.len() == self.grid.cols,
                forall|r: int, c: int| 0 <= r < row && 0 <= c < self.grid.cols ==> #[trigger] lines@[r]@[c] == self.sign_at(r, c),
            decreases self.grid.rows - row,
        {
            let mut line: Vec<char> = Vec::new();
            let mut col: usize = 0;
            while col < self.grid.cols
                invariant
                    self.grid.wf(),
                    row < self.grid.rows,
                    col <= self.grid.cols,
                    line@.len() == col,
                    forall|c: int| 0 <= c < col ==> #[trigger] line@[c] == self.sign_at(row as int, c),
                decreases self.grid.cols - col,
            {
                let position = Position::new(row as isize, col as isize);
                let sign = if self.start == position {
                    'S'
                } else if self.goal == position {
                    'G'
                } else {
                    match self.grid.entity(position) {
                        Entity::Wall => '#',
                        Entity::Letter(letter) => letter,
                        Entity::Nothing => ' ',
                    }
                };
                line.push(sign);
                col += 1;
            }
            lines.push(line);
            row += 1;
        }
        lines
    }
}

/// Whether a section other than `kept`, numbered `from` or higher, holds the
/// position.
pub open spec fn walled_from(sections: Seq<Vec<Position>>, kept: int, from: int, position: Position) -> bool {
    exists|u: int| from <= u < sections.len() && u != kept && (#[trigger] sections[u])@.contains(position)
}

/// `after` is `before` with a wall on `wall_count` cells more, or on every
/// cell if the grid has fewer cells than that.
pub open spec fn scattered_from(before: Grid, after: Grid, wall_count: usize) -> bool {
    exists|chosen: Seq<Position>| #[trigger] walled_off(before, after, chosen)
        && chosen.len() == (if wall_count <= before.rows * before.cols { wall_count as int } else { before.rows * before.cols })
        && (wall_count < before.rows * before.cols ==> spared(before, chosen))
}

/// Some cell of the grid is not among the chosen ones.
pub open spec fn spared(grid: Grid, chosen: Seq<Position>) -> bool {
    exists|p: Position| #[trigger] grid.contains(p) && !chosen.contains(p)
}

/// `space` is empty exactly when `scattered`, a grid that came from `before`
/// by `wall_count` random walls, has no free cell.
pub open spec fn empties(before: Grid, scattered: Grid, space: Seq<Position>, wall_count: usize) -> bool {
    &&& scattered.wf()
    &&& scattered.rows == before.rows
    &&& scattered.cols == before.cols
    &&& scattered_from(before, scattered, wall_count)
    &&& space.len() == 0 <==> forall|p: Position| !scattered.is_free(p)
}

/// With fewer random walls than the grid has cells, a grid without any wall
/// keeps a free cell.
pub proof fn lemma_scattered_keeps_free(before: Grid, scattered: Grid, wall_count: usize)
    requires
        before.wf(),
        scattered.rows == before.rows,
        scattered.cols == before.cols,
        scattered_from(before, scattered, wall_count),
        wall_count < before.rows * before.cols,
        forall|p: Position| before.entity_at(p) != Entity::Wall,
    ensures
        exists|p: Position| scattered.is_free(p),
{
    let chosen = choose|chosen: Seq<Position>| #[trigger] walled_off(before, scattered, chosen)
        && chosen.len() == (if wall_count <= before.rows * before.cols { wall_count as int } else { before.rows * before.cols })
        && (wall_count < before.rows * before.cols ==> spared(before, chosen));
    let p = choose|p: Position| #[trigger] before.contains(p) && !chosen.contains(p);
    assert(scattered.entity_at(p) == before.entity_at(p));
    assert(scattered.is_free(p));
}

/// `space` is the largest region of `scattered`, a grid that came from
/// `before` by `wall_count` random walls: `sections` are the regions of
/// `scattered` in scan order, `space` is the one numbered `kept`, none is
/// larger and none after it is as large.
pub open spec fn keeps_largest(before: Grid, scattered: Grid, sections: Seq<Vec<Position>>, kept: int, space: Seq<Position>, wall_count: usize) -> bool {
    &&& scattered.wf()
    &&& scattered.rows == before.rows
    &&& scattered.cols == before.cols
    &&& scattered_from(before, scattered, wall_count)
    &&& scattered.is_partition(sections)
    &&& scattered.in_scan_order(sections)
    &&& 0 <= kept < sections.len()
    &&& space == sections[kept]@
    &&& forall|s: int| 0 <= s < sections.len() ==> (#[trigger] sections[s])@.len() <= space.len()
    &&& forall|s: int| kept < s < sections.len() ==> (#[trigger] sections[s])@.len() < space.len()
}

/// `after` is `before` with a wall on every chosen cell: the chosen cells are
/// distinct cells of the grid, and every other cell is as it was.
pub open spec fn walled_off(before: Grid, after: Grid, chosen: Seq<Position>) -> bool {
    &&& chosen.no_duplicates()
    &&& forall|p: Position| chosen.contains(p) ==> before.contains(p)
    &&& forall|p: Position| chosen.contains(p) ==> #[trigger] after.entity_at(p) == Entity::Wall
    &&& forall|p: Position| !chosen.contains(p) ==> #[trigger] after.entity_at(p) == before.entity_at(p)
}

/// Once all free cells of a grid are connected with each other, its
/// connected regions are a single one, and that one holds exactly the free
/// cells. This is the state in which wall initialisation leaves a grid that
/// has a free cell.
pub proof fn lemma_single_section(grid: Grid, space: Seq<Position>, sections: Seq<Vec<Position>>)
    requires
        grid.wf(),
        space.len() > 0,
        forall|p: Position| space.contains(p) <==> grid.is_free(p),
        forall|p: Position, q: Position| space.contains(p) && space.contains(q) ==> grid.connected(p, q),
        grid.is_partition(sections),
    ensures
        sections.len() == 1,
        forall|p: Position| sections[0]@.contains(p) <==> space.contains(p),
{
    assert(space.contains(space[0]));
    assert(covered(sections, space[0]));
    assert forall|s: int, p: Position| 0 <= s < sections.len() && #[trigger] sections[s]@.contains(p) implies space.contains(p) by {
        assert(grid.connected(p, p));
        let k = choose|k: nat| grid.reach_in(p, p, k);
        grid.lemma_reach_ends_free(p, p, k);
    }
    if sections.len() >= 2 {
        let p = sections[0]@[0];
        let q = sections[1]@[0];
        assert(sections[0]@.contains(p));
        assert(sections[1]@.contains(q));
        assert(grid.connected(q, p));
        assert(sections[0]@.contains(q));
        assert(!(sections[0]@.contains(q) && sections[1]@.contains(q)));
    }
    assert forall|p: Position| space.contains(p) implies sections[0]@.contains(p) by {
        assert(covered(sections, p));
    }
}

/// Whether some section holds the position.
pub open spec fn covered(sections: Seq<Vec<Position>>, position: Position) -> bool {
    exists|s: int| 0 <= s < sections.len() && (#[trigger] sections[s])@.contains(position)
}

} // verus!
