//! The level generator: it walls a grid, builds the navigation tables,
//! picks the two ends of a path, cuts the path into straight segments and
//! has the solver fill them.

use vstd::prelude::*;
use crate::chance::random_index;
use crate::grid::{empties, keeps_largest, lemma_scattered_keeps_free, Entity, Grid, Level};
use crate::navigation::{turn_cost, DistanceMap, TurnsMap};
use crate::position::{Direction, Position};
use crate::solver::{segment_len, Solution};
use crate::walks::lemma_shorten;
use crate::words::{byte_len, WordList};

verus! {

/// A walled grid with its free cells and its two navigation tables.
pub struct LevelGenerator {
    pub grid: Grid,
    pub free_space: Vec<Position>,
    pub turns_map: TurnsMap,
    pub distance_map: DistanceMap,
}

/// Whether the position is listed at another index than `pick`.
pub open spec fn among(space: Seq<Position>, pick: int, position: Position) -> bool {
    exists|j: int| 0 <= j < space.len() && j != pick && space[j] == position
}

/// The two positions, the smaller one first.
pub open spec fn ordered(a: Position, b: Position) -> (Position, Position) {
    if a.spec_le(b) {
        (a, b)
    } else {
        (b, a)
    }
}

/// The segments between consecutive junctions, each with its smaller end
/// first.
pub open spec fn spec_segments(junctions: Seq<Position>) -> Seq<(Position, Position)> {
    Seq::new(
        if junctions.len() > 0 { (junctions.len() - 1) as nat } else { 0 },
        |i: int| ordered(junctions[i], junctions[i + 1]),
    )
}

/// The junctions that a walk along the turns table records after
/// `position`, up to and with `goal`: a cell is recorded where the turn
/// count on record differs from the count `turns_left` of the cell before.
/// Nothing if a record or its direction is missing on the way, or if the
/// goal is not met within `fuel` steps.
pub open spec fn trail(map: TurnsMap, position: Position, goal: Position, turns_left: usize, fuel: nat) -> Option<Seq<Position>>
    decreases fuel,
{
    if position == goal {
        Some(seq![goal])
    } else if fuel == 0 {
        None
    } else {
        match map.entry(position, goal) {
            None => None,
            Some(record) => match record.1 {
                None => None,
                Some(heading) => match trail(map, position.spec_step(heading), goal, record.0, (fuel - 1) as nat) {
                    None => None,
                    Some(rest) => Some(
                        if record.0 != turns_left {
                            seq![position] + rest
                        } else {
                            rest
                        },
                    ),
                },
            },
        }
    }
}

/// In a solution over the segments of a path, every segment runs from its
/// smaller end to its larger one, and every assigned word has as many bytes
/// as its segment has cells.
pub proof fn lemma_segments_fit(junctions: Seq<Position>, solution: Solution, i: int)
    requires
        solution.wf(),
        solution.segments@ == spec_segments(junctions),
        0 <= i < solution.words@.len(),
    ensures
        solution.words@[i].start.spec_le(solution.words@[i].end),
        byte_len(solution.words@[i].word@) == solution.words@[i].start.spec_manhattan(solution.words@[i].end) + 1,
{
    assert(solution.segments@[i] == ordered(junctions[i], junctions[i + 1]));
}

/// The row and the column that lie `steps` steps from `from` in `heading`.
pub open spec fn along(from: Position, heading: Direction, steps: int) -> (int, int) {
    match heading {
        Direction::Up => (from.row - steps, from.col as int),
        Direction::Down => (from.row + steps, from.col as int),
        Direction::Left => (from.row as int, from.col - steps),
        Direction::Right => (from.row as int, from.col + steps),
    }
}

/// Whether the grid has a free cell in this row and column.
pub open spec fn free_at(grid: Grid, at: (int, int)) -> bool {
    &&& 0 <= at.0 < grid.rows
    &&& 0 <= at.1 < grid.cols
    &&& grid.cells@[at.0 * grid.cols + at.1] != Entity::Wall
}

/// Whether `to` lies `steps` steps from `from` in `heading` and every cell
/// from the one to the other is free.
#[verifier::opaque]
pub open spec fn run_between(grid: Grid, from: Position, to: Position, heading: Direction, steps: int) -> bool {
    &&& steps >= 0
    &&& along(from, heading, steps) == (to.row as int, to.col as int)
    &&& forall|j: int| 0 <= j <= steps ==> free_at(grid, #[trigger] along(from, heading, j))
}

/// Whether the two cells bound a straight run of free cells: they lie on
/// one row or one column and every cell between them is free.
pub open spec fn straight(grid: Grid, from: Position, to: Position) -> bool {
    exists|heading: Direction, steps: int| #[trigger] run_between(grid, from, to, heading, steps)
}

/// How many steps a cell is from the edge of the grid in `heading`.
pub open spec fn room(grid: Grid, at: Position, heading: Direction) -> int {
    match heading {
        Direction::Up => at.row as int,
        Direction::Down => grid.rows - 1 - at.row,
        Direction::Left => at.col as int,
        Direction::Right => grid.cols - 1 - at.col,
    }
}

/// A step from one free cell to the next is a run of one step.
proof fn lemma_run_starts(grid: Grid, position: Position, next: Position, heading: Direction)
    requires
        grid.wf(),
        grid.is_free(position),
        grid.is_free(next),
        next == position.spec_step(heading),
    ensures
        run_between(grid, position, next, heading, 1),
{
    reveal(run_between);
    assert(along(position, heading, 1) == (next.row as int, next.col as int));
    assert forall|j: int| 0 <= j <= 1 implies free_at(grid, #[trigger] along(position, heading, j)) by {
        if j == 0 {
            assert(along(position, heading, j) == (position.row as int, position.col as int));
        } else {
            assert(along(position, heading, j) == (next.row as int, next.col as int));
        }
    }
}

/// A run goes on by one step in its direction onto a free cell; a run of no
/// step goes on in any direction.
proof fn lemma_run_goes_on(grid: Grid, origin: Position, position: Position, next: Position, run_heading: Direction, heading: Direction, run_steps: int)
    requires
        grid.wf(),
        run_between(grid, origin, position, run_heading, run_steps),
        grid.is_free(position),
        grid.is_free(next),
        next == position.spec_step(heading),
        run_steps == 0 || heading == run_heading,
    ensures
        run_between(grid, origin, next, heading, run_steps + 1),
{
    reveal(run_between);
    assert(along(origin, run_heading, run_steps) == (position.row as int, position.col as int));
    if run_steps == 0 {
        assert(origin.row == position.row && origin.col == position.col);
    }
    assert(along(origin, heading, run_steps + 1) == (next.row as int, next.col as int));
    assert forall|j: int| 0 <= j <= run_steps + 1 implies free_at(grid, #[trigger] along(origin, heading, j)) by {
        if j <= run_steps {
            if run_steps == 0 {
                assert(along(origin, heading, j) == (position.row as int, position.col as int));
            } else {
                assert(free_at(grid, along(origin, run_heading, j)));
            }
        } else {
            assert(along(origin, heading, j) == (next.row as int, next.col as int));
        }
    }
}

impl LevelGenerator {
    /// Whether the turns table guides a walk: every record belongs to a free
    /// cell and counts fewer turns than the grid has cells; a record without
    /// a direction is that of a cell to itself; and where a record names a
    /// direction, the cell in that direction has a record whose count, with
    /// the cost of the step onto it, is no larger.
    pub open spec fn guided(&self) -> bool {
        forall|a: Position, b: Position|
            match #[trigger] self.turns_map.entry(a, b) {
                Some(record) => self.grid.is_free(a) && record.0 < self.grid.cell_count() && (match record.1 {
                    Some(heading) => match self.turns_map.entry(a.spec_step(heading), b) {
                        Some(next) => next.0 + turn_cost(heading, next.1) <= record.0,
                        None => false,
                    },
                    None => a == b,
                }),
                None => true,
            }
    }

    /// The turns table of the grid guides a walk.
    pub proof fn lemma_guided(&self)
        requires
            self.grid.wf(),
            self.grid.is_turns_map(self.turns_map),
        ensures
            self.guided(),
    {
        assert forall|a: Position, b: Position|
            match #[trigger] self.turns_map.entry(a, b) {
                Some(record) => self.grid.is_free(a) && record.0 < self.grid.cell_count() && (match record.1 {
                    Some(heading) => match self.turns_map.entry(a.spec_step(heading), b) {
                        Some(next) => next.0 + turn_cost(heading, next.1) <= record.0,
                        None => false,
                    },
                    None => a == b,
                }),
                None => true,
            } by {
            match self.turns_map.entry(a, b) {
                Some(record) => {
                    let k = choose|k: nat| self.grid.route(a, b, record.0 as nat, record.1, k);
                    assert(self.grid.route(a, b, record.0 as nat, record.1, k));
                },
                None => {},
            }
        }
    }

    /// A bound on the steps that a guided walk from `position` still takes:
    /// the turns on record times the number of cells, plus the room left in
    /// the direction on record.
    #[verifier::opaque]
    pub open spec fn reach_bound(&self, position: Position, goal: Position) -> int {
        match self.turns_map.entry(position, goal) {
            Some(record) => match record.1 {
                Some(heading) => record.0 * self.grid.cell_count() + room(self.grid, position, heading),
                None => 0,
            },
            None => 0,
        }
    }

    /// One step along the direction on record lowers the bound, which lies
    /// below the number of pairs of cells.
    proof fn lemma_bound_falls(&self, position: Position, goal: Position)
        requires
            self.grid.wf(),
            self.turns_map.rows == self.grid.rows,
            self.turns_map.cols == self.grid.cols,
            self.guided(),
            position != goal,
            self.turns_map.entry(position, goal) is Some,
        ensures
            self.turns_map.entry(position, goal).unwrap().1 is Some,
            self.reach_bound(position, goal) >= 1 + self.reach_bound(position.spec_step(self.turns_map.entry(position, goal).unwrap().1.unwrap()), goal),
            self.reach_bound(position, goal) < self.grid.cell_count() * self.grid.cell_count(),
    {
        reveal(LevelGenerator::reach_bound);
        let record = self.turns_map.entry(position, goal).unwrap();
        let heading = record.1.unwrap();
        let next = position.spec_step(heading);
        let after = self.turns_map.entry(next, goal).unwrap();
        let n = self.grid.cell_count();
        let rows = self.grid.rows as int;
        let cols = self.grid.cols as int;
        assert(self.grid.is_free(position));
        assert(self.grid.contains(next));
        assert(rows <= n && cols <= n) by (nonlinear_arith)
            requires
                rows >= 1,
                cols >= 1,
                n == rows * cols,
        ;
        assert(1 <= room(self.grid, position, heading) <= n - 1);
        assert(record.0 * n + (n - 1) < n * n) by (nonlinear_arith)
            requires
                0 <= record.0 < n,
        ;
        match after.1 {
            Some(onward) => {
                assert(self.grid.is_free(next));
                assert(0 <= room(self.grid, next, onward) <= n - 1);
                if onward == heading {
                    assert(after.0 * n <= record.0 * n) by (nonlinear_arith)
                        requires
                            0 <= after.0 <= record.0,
                            n >= 0,
                    ;
                } else {
                    assert(after.0 * n + n <= record.0 * n) by (nonlinear_arith)
                        requires
                            0 <= after.0,
                            after.0 + 1 <= record.0,
                            n >= 0,
                    ;
                }
            },
            None => {
                assert(record.0 * n >= 0) by (nonlinear_arith)
                    requires
                        record.0 >= 0,
                        n >= 0,
                ;
            },
        }
    }

    /// The turns table guides a walk.
    #[verifier::opaque]
    pub open spec fn steady(&self) -> bool {
        self.guided()
    }

    /// The turns table of the grid is steady.
    pub proof fn lemma_steady(&self)
        requires
            self.grid.wf(),
            self.grid.is_turns_map(self.turns_map),
        ensures
            self.steady(),
    {
        reveal(LevelGenerator::steady);
        self.lemma_guided();
    }

    /// Where a guided walk starts: on a free cell, with a bound on its steps
    /// below the number of pairs of cells.
    proof fn lemma_walk_starts(&self, start: Position, goal: Position, heading: Direction)
        requires
            self.grid.wf(),
            self.turns_map.wf(),
            self.turns_map.rows == self.grid.rows,
            self.turns_map.cols == self.grid.cols,
            self.steady(),
            self.turns_map.entry(start, goal) is Some,
        ensures
            run_between(self.grid, start, start, heading, 0),
            start != goal ==> self.reach_bound(start, goal) < self.turns_map.table@.len(),
    {
        reveal(LevelGenerator::steady);
        reveal(run_between);
        assert(self.grid.is_free(start));
        assert(along(start, heading, 0) == (start.row as int, start.col as int));
        if start != goal {
            self.lemma_bound_falls(start, goal);
        }
    }

    /// What one step of a guided walk keeps: the cell in the direction on
    /// record is free and has a record that counts no more, the bound on
    /// the steps to come falls, and the run of free cells goes on unless
    /// the count on record has changed.
    proof fn lemma_walk_on(&self, origin: Position, position: Position, goal: Position, run_heading: Direction, run_steps: int, turns_left: usize)
        requires
            self.grid.wf(),
            self.turns_map.rows == self.grid.rows,
            self.turns_map.cols == self.grid.cols,
            self.steady(),
            position != goal,
            self.turns_map.entry(position, goal) is Some,
            run_between(self.grid, origin, position, run_heading, run_steps),
            run_steps > 0 ==> self.turns_map.entry(position, goal).unwrap().0 + turn_cost(run_heading, self.turns_map.entry(position, goal).unwrap().1)
                <= turns_left,
        ensures
            self.turns_map.entry(position, goal).unwrap().1 is Some,
            self.grid.is_free(position),
            self.turns_map.entry(position.spec_step(self.turns_map.entry(position, goal).unwrap().1.unwrap()), goal) is Some,
            self.turns_map.entry(position.spec_step(self.turns_map.entry(position, goal).unwrap().1.unwrap()), goal).unwrap().0 + turn_cost(
                self.turns_map.entry(position, goal).unwrap().1.unwrap(),
                self.turns_map.entry(position.spec_step(self.turns_map.entry(position, goal).unwrap().1.unwrap()), goal).unwrap().1,
            ) <= self.turns_map.entry(position, goal).unwrap().0,
            self.reach_bound(position, goal) >= 1 + self.reach_bound(position.spec_step(self.turns_map.entry(position, goal).unwrap().1.unwrap()), goal),
            self.reach_bound(position.spec_step(self.turns_map.entry(position, goal).unwrap().1.unwrap()), goal) >= 0,
            self.reach_bound(position, goal) < self.grid.cell_count() * self.grid.cell_count(),
            run_between(self.grid, position, position.spec_step(self.turns_map.entry(position, goal).unwrap().1.unwrap()), self.turns_map.entry(position, goal).unwrap().1.unwrap(), 1),
            self.turns_map.entry(position, goal).unwrap().0 == turns_left || run_steps == 0 ==> run_between(
                self.grid,
                origin,
                position.spec_step(self.turns_map.entry(position, goal).unwrap().1.unwrap()),
                self.turns_map.entry(position, goal).unwrap().1.unwrap(),
                run_steps + 1,
            ),
    {
        self.lemma_record_on(position, goal);
        let record = self.turns_map.entry(position, goal).unwrap();
        let heading = record.1.unwrap();
        let next = position.spec_step(heading);
        lemma_run_starts(self.grid, position, next, heading);
        assert(run_steps >= 0) by {
            reveal(run_between);
        }
        if record.0 == turns_left || run_steps == 0 {
            if run_steps > 0 {
                assert(turn_cost(run_heading, record.1) == 0);
                assert(heading == run_heading);
            }
            lemma_run_goes_on(self.grid, origin, position, next, run_heading, heading, run_steps);
        }
    }

    /// What the record of a cell on a guided walk says: it names a
    /// direction, the cell there is free and has a record that counts no
    /// more, and the bound on the steps to come falls.
    proof fn lemma_record_on(&self, position: Position, goal: Position)
        requires
            self.grid.wf(),
            self.turns_map.rows == self.grid.rows,
            self.turns_map.cols == self.grid.cols,
            self.steady(),
            position != goal,
            self.turns_map.entry(position, goal) is Some,
        ensures
            self.turns_map.entry(position, goal).unwrap().1 is Some,
            self.grid.is_free(position),
            self.grid.is_free(position.spec_step(self.turns_map.entry(position, goal).unwrap().1.unwrap())),
            self.turns_map.entry(position.spec_step(self.turns_map.entry(position, goal).unwrap().1.unwrap()), goal) is Some,
            self.turns_map.entry(position.spec_step(self.turns_map.entry(position, goal).unwrap().1.unwrap()), goal).unwrap().0 + turn_cost(
                self.turns_map.entry(position, goal).unwrap().1.unwrap(),
                self.turns_map.entry(position.spec_step(self.turns_map.entry(position, goal).unwrap().1.unwrap()), goal).unwrap().1,
            ) <= self.turns_map.entry(position, goal).unwrap().0,
            self.reach_bound(position, goal) >= 1 + self.reach_bound(position.spec_step(self.turns_map.entry(position, goal).unwrap().1.unwrap()), goal),
            self.reach_bound(position.spec_step(self.turns_map.entry(position, goal).unwrap().1.unwrap()), goal) >= 0,
            self.reach_bound(position, goal) < self.grid.cell_count() * self.grid.cell_count(),
    {
        reveal(LevelGenerator::steady);
        self.lemma_bound_falls(position, goal);
        let record = self.turns_map.entry(position, goal).unwrap();
        let heading = record.1.unwrap();
        let next = position.spec_step(heading);
        let after = self.turns_map.entry(next, goal).unwrap();
        assert(self.grid.is_free(position));
        assert(self.grid.is_free(next));
        let n = self.grid.cell_count();
        assert(self.reach_bound(next, goal) >= 0) by {
            reveal(LevelGenerator::reach_bound);
            match after.1 {
                Some(onward) => {
                    assert(room(self.grid, next, onward) >= 0);
                    assert(after.0 * n >= 0) by (nonlinear_arith)
                        requires
                            after.0 >= 0,
                            n >= 0,
                    ;
                },
                None => {},
            }
        }
    }

    /// The grid is walled so that its free cells are one region, which
    /// `free_space` lists, and the two tables are those of the grid.
    pub open spec fn wf(&self) -> bool {
        &&& self.grid.wf()
        &&& self.free_space@.no_duplicates()
        &&& self.turns_map.wf()
        &&& self.turns_map.rows == self.grid.rows
        &&& self.turns_map.cols == self.grid.cols
        &&& self.distance_map.wf()
        &&& self.distance_map.rows == self.grid.rows
        &&& self.distance_map.cols == self.grid.cols
        &&& self.walled()
        &&& self.charted()
    }

    /// The free cells of the grid are one region, which `free_space` lists.
    #[verifier::opaque]
    pub open spec fn walled(&self) -> bool {
        &&& forall|p: Position| self.free_space@.contains(p) <==> self.grid.is_free(p)
        &&& forall|p: Position, q: Position| self.free_space@.contains(p) && self.free_space@.contains(q) ==> self.grid.connected(p, q)
    }

    /// The two tables are those of the grid.
    #[verifier::opaque]
    pub open spec fn charted(&self) -> bool {
        &&& self.grid.is_turns_map(self.turns_map)
        &&& self.grid.is_distance_map(self.distance_map)
    }

    /// The tables have the grid's size, and their counts lie below the
    /// number of cells.
    pub open spec fn bounded(&self) -> bool {
        &&& self.turns_map.wf()
        &&& self.distance_map.wf()
        &&& self.turns_map.rows == self.grid.rows
        &&& self.turns_map.cols == self.grid.cols
        &&& self.distance_map.rows == self.grid.rows
        &&& self.distance_map.cols == self.grid.cols
        &&& forall|a: Position, b: Position|
            match #[trigger] self.distance_map.entry(a, b) {
                Some(hops) => hops < self.grid.cell_count(),
                None => true,
            }
        &&& forall|a: Position, b: Position|
            match #[trigger] self.turns_map.entry(a, b) {
                Some(record) => record.0 < self.grid.cell_count(),
                None => true,
            }
    }

    /// The tables of a generator are bounded.
    pub proof fn lemma_bounded(&self)
        requires
            self.wf(),
        ensures
            self.bounded(),
    {
        reveal(LevelGenerator::charted);
        assert forall|a: Position, b: Position|
            match #[trigger] self.distance_map.entry(a, b) {
                Some(hops) => hops < self.grid.cell_count(),
                None => true,
            } by {
            match self.distance_map.entry(a, b) {
                Some(hops) => {
                    assert(self.grid.is_least_walk(a, b, hops as nat));
                    let fewer = lemma_shorten(self.grid, a, b, hops as nat);
                },
                None => {},
            }
        }
    }

    /// The junctions of the path from `start` to `goal`: the start, every
    /// cell on the way where the turn count on record changes, and the goal.
    pub open spec fn spec_junctions(&self, start: Position, goal: Position) -> Option<Seq<Position>> {
        match self.turns_map.entry(start, goal) {
            None => None,
            Some(record) => match trail(self.turns_map, start, goal, record.0, self.turns_map.table@.len()) {
                None => None,
                Some(rest) => Some(seq![start] + rest),
            },
        }
    }

    /// Walls the grid with `wall_count` random walls, keeps its largest
    /// region and builds the tables for it.
    #[verifier::rlimit(50)]
    pub fn from_grid(grid: Grid, wall_count: usize) -> (generator: LevelGenerator)
        requires
            grid.wf(),
            (grid.rows * grid.cols) * (grid.rows * grid.cols) <= usize::MAX,
        ensures
            generator.wf(),
            generator.grid.rows == grid.rows,
            generator.grid.cols == grid.cols,
            forall|p: Position| #[trigger] generator.grid.entity_at(p) == grid.entity_at(p) || generator.grid.entity_at(p) == Entity::Wall,
            exists|scattered: Grid| #[trigger] empties(grid, scattered, generator.free_space@, wall_count),
            generator.free_space@.len() > 0 ==> exists|scattered: Grid, sections: Seq<Vec<Position>>, kept: int| #[trigger]
                keeps_largest(grid, scattered, sections, kept, generator.free_space@, wall_count) && forall|p: Position|
                    generator.grid.entity_at(p) == (if generator.free_space@.contains(p) || !scattered.is_free(p) {
                        scattered.entity_at(p)
                    } else {
                        Entity::Wall
                    }),
            wall_count < grid.rows * grid.cols && (forall|p: Position| grid.entity_at(p) != Entity::Wall) ==> generator.free_space@.len() > 0,
    {
        let ghost given = grid;
        let mut grid = grid;
        let free_space = grid.initialise_walls(wall_count);
        proof {
            let scattered = choose|scattered: Grid| #[trigger] empties(given, scattered, free_space@, wall_count);
            if wall_count < given.rows * given.cols && (forall|p: Position| given.entity_at(p) != Entity::Wall) {
                lemma_scattered_keeps_free(given, scattered, wall_count);
            }
        }
        let turns_map = grid.generate_turns_map();
        let distance_map = grid.generate_distance_map();
        let generator = LevelGenerator { grid, free_space, turns_map, distance_map };
        proof {
            generator.lemma_assembled();
        }
        generator
    }

    /// A walled grid with its free cells and its tables is a generator.
    proof fn lemma_assembled(&self)
        requires
            self.grid.wf(),
            self.free_space@.no_duplicates(),
            forall|p: Position| self.free_space@.contains(p) <==> self.grid.is_free(p),
            forall|p: Position, q: Position| self.free_space@.contains(p) && self.free_space@.contains(q) ==> self.grid.connected(p, q),
            self.grid.is_turns_map(self.turns_map),
            self.grid.is_distance_map(self.distance_map),
        ensures
            self.wf(),
    {
        reveal(LevelGenerator::charted);
        reveal(LevelGenerator::walled);
    }

    /// The number by which a goal is ranked: its distance from the start
    /// plus the turns on the way, each zero where the table has no record.
    pub open spec fn spec_rank(&self, start: Position, goal: Position) -> nat {
        (match self.distance_map.entry(start, goal) {
            Some(hops) => hops as nat,
            None => 0,
        }) + (match self.turns_map.entry(start, goal) {
            Some(record) => record.0 as nat,
            None => 0,
        })
    }

    /// The number by which a goal is ranked from `start`.
    fn rank(&self, start: Position, goal: Position) -> (key: usize)
        requires
            self.bounded(),
        ensures
            key == self.spec_rank(start, goal),
    {
        let hops: usize = match self.distance_map.get(start, goal) {
            Some(found) => *found,
            None => 0,
        };
        let turns: usize = match self.turns_map.get(start, goal) {
            Some(found) => found.0,
            None => 0,
        };
        proof {
            let n = self.grid.cell_count();
            assert(hops == 0 || hops < n);
            assert(turns == 0 || turns < n);
            assert(hops + turns <= usize::MAX) by (nonlinear_arith)
                requires
                    hops == 0 || hops < n,
                    turns == 0 || turns < n,
                    0 <= n,
                    n * n <= usize::MAX,
            ;
        }
        hops + turns
    }

    /// Whether the goal lies in the far third of the ranking from `start`:
    /// of the other free cells, at least two thirds, rounded down, rank no
    /// higher than the goal.
    pub open spec fn ranked_far(&self, start: Position, goal: Position) -> bool {
        exists|nearer: Seq<Position>| #[trigger]
            nearer.no_duplicates() && nearer.len() >= (self.free_space@.len() - 1) * 2 / 3 && forall|k: int|
                0 <= k < nearer.len() ==> self.free_space@.contains(#[trigger] nearer[k]) && nearer[k] != start && nearer[k] != goal
                    && self.spec_rank(start, nearer[k]) <= self.spec_rank(start, goal)
    }

    /// The generator can be asked for a level: its grid and tables have
    /// matching sizes that fit the machine, the counts in the tables lie
    /// below the number of cells, and no free cell is listed twice.
    pub open spec fn usable(&self) -> bool {
        &&& self.grid.wf()
        &&& self.free_space@.no_duplicates()
        &&& self.bounded()
    }

    /// Whether a table has no record from the cell to itself.
    pub open spec fn uncharted(&self, position: Position) -> bool {
        self.distance_map.entry(position, position) is None || self.turns_map.entry(position, position) is None
    }

    /// Whether some listed free cell is uncharted.
    pub open spec fn lacks_chart(&self) -> bool {
        exists|p: Position| #[trigger] self.free_space@.contains(p) && self.uncharted(p)
    }

    /// A generator that came from a grid is usable, and its tables chart
    /// every free cell.
    pub proof fn lemma_usable(&self)
        requires
            self.wf(),
        ensures
            self.usable(),
            !self.lacks_chart(),
            self.steady(),
    {
        self.lemma_bounded();
        reveal(LevelGenerator::charted);
        reveal(LevelGenerator::walled);
        self.lemma_steady();
        assert forall|p: Position| #[trigger] self.free_space@.contains(p) implies !self.uncharted(p) by {
            assert(self.grid.is_free(p));
            assert(self.grid.reach_in(p, p, 0));
            assert(self.grid.connected(p, p));
        }
    }

    /// The tables of a generator that came from a grid have a record for
    /// every pair of free cells.
    pub proof fn lemma_pairs_charted(&self, start: Position, goal: Position)
        requires
            self.wf(),
            self.free_space@.contains(start),
            self.free_space@.contains(goal),
        ensures
            self.turns_map.entry(start, goal) is Some,
            self.distance_map.entry(start, goal) is Some,
    {
        reveal(LevelGenerator::charted);
        reveal(LevelGenerator::walled);
        assert(self.grid.connected(start, goal));
        let steps = choose|steps: nat| self.grid.reach_in(start, goal, steps);
        assert(self.grid.reach_in(start, goal, steps));
    }

    /// A random free cell as the start and, as the goal, a random one of
    /// the other free cells: they are ranked by distance plus turns from
    /// the start, and the goal comes from the last third of the ranking.
    /// There is no result where there are fewer than two free cells, nor
    /// where a table has no record from the chosen start to itself.
    pub fn choose_start_and_goal(&self) -> (chosen: Option<(Position, Position)>)
        requires
            self.usable(),
        ensures
            match chosen {
                Some((start, goal)) => self.free_space@.contains(start) && self.free_space@.contains(goal) && start != goal
                    && !self.uncharted(start) && self.ranked_far(start, goal),
                None => self.free_space@.len() < 2 || self.lacks_chart(),
            },
            self.free_space@.len() < 2 ==> chosen is None,
    {
        let count = self.free_space.len();
        let pick = match random_index(count) {
            Some(pick) => pick,
            None => {
                return None;
            },
        };
        let start = self.free_space[pick];
        assert(self.free_space@.contains(start));
        match self.distance_map.get(start, start) {
            Some(_) => {},
            None => {
                assert(self.uncharted(start));
                return None;
            },
        }
        match self.turns_map.get(start, start) {
            Some(_) => {},
            None => {
                assert(self.uncharted(start));
                return None;
            },
        }
        if count < 2 {
            return None;
        }
        let mut ranked: Vec<(usize, Position)> = Vec::new();
        let ghost mut origin: Seq<int> = Seq::empty();
        let mut i: usize = 0;
        while i < count
            invariant
                self.bounded(),
                self.free_space@.no_duplicates(),
                start == self.free_space@[pick as int],
                origin.len() == ranked@.len(),
                origin.no_duplicates(),
                forall|k: int| 0 <= k < origin.len() ==> 0 <= #[trigger] origin[k] < i && origin[k] != pick
                    && ranked@[k].1 == self.free_space@[origin[k]] && ranked@[k].0 == self.spec_rank(start, self.free_space@[origin[k]]),
                i <= count,
                pick < count,
                count == self.free_space@.len(),
                ranked@.len() == (if i <= pick { i as int } else { i - 1 }),
                forall|k: int| 0 <= k < ranked@.len() ==> among(self.free_space@, pick as int, (#[trigger] ranked@[k]).1),
                forall|a: int, b: int| 0 <= a < b < ranked@.len() ==> (#[trigger] ranked@[a]).0 <= (#[trigger] ranked@[b]).0,
            decreases count - i,
        {
            if i != pick {
                let candidate = self.free_space[i];
                let key = self.rank(start, candidate);
                let mut at: usize = 0;
                while at < ranked.len() && ranked[at].0 <= key
                    invariant
                        at <= ranked@.len(),
                        forall|k: int| 0 <= k < at ==> (#[trigger] ranked@[k]).0 <= key,
                    decreases ranked@.len() - at,
                {
                    at += 1;
                }
                let ghost before = ranked@;
                let ghost origin_before = origin;
                ranked.insert(at, (key, candidate));
                proof {
                    origin = origin_before.insert(at as int, i as int);
                    assert forall|k: int| 0 <= k < origin.len() implies 0 <= #[trigger] origin[k] < i + 1 && origin[k] != pick
                        && ranked@[k].1 == self.free_space@[origin[k]] && ranked@[k].0 == self.spec_rank(start, self.free_space@[origin[k]]) by {
                        if k < at {
                            assert(origin[k] == origin_before[k]);
                            assert(ranked@[k] == before[k]);
                        } else if k == at {
                            assert(origin[k] == i);
                            assert(ranked@[k] == (key, candidate));
                        } else {
                            assert(origin[k] == origin_before[k - 1]);
                            assert(ranked@[k] == before[k - 1]);
                        }
                    }
                    assert forall|a: int, b: int| 0 <= a < origin.len() && 0 <= b < origin.len() && a != b implies origin[a] != origin[b] by {
                        let first = if a < at { origin_before[a] } else if a == at { i as int } else { origin_before[a - 1] };
                        let second = if b < at { origin_before[b] } else if b == at { i as int } else { origin_before[b - 1] };
                        assert(origin[a] == first);
                        assert(origin[b] == second);
                    }
                    assert(among(self.free_space@, pick as int, candidate));
                    assert forall|k: int| 0 <= k < ranked@.len() implies among(self.free_space@, pick as int, (#[trigger] ranked@[k]).1) by {
                        if k < at {
                            assert(ranked@[k] == before[k]);
                        } else if k == at {
                            assert(ranked@[k].1 == candidate);
                        } else {
                            assert(ranked@[k] == before[k - 1]);
                        }
                    }
                    assert forall|a: int, b: int| 0 <= a < b < ranked@.len() implies (#[trigger] ranked@[a]).0 <= (#[trigger] ranked@[b]).0 by {
                        let low = if a < at { before[a] } else if a == at { (key, candidate) } else { before[a - 1] };
                        let high = if b < at { before[b] } else if b == at { (key, candidate) } else { before[b - 1] };
                        assert(ranked@[a] == low);
                        assert(ranked@[b] == high);
                    }
                }
            }
            i += 1;
        }
        let others = ranked.len();
        let skip: usize = others / 3 * 2 + (others % 3) * 2 / 3;
        let offset = match random_index(others - skip) {
            Some(offset) => offset,
            None => {
                return None;
            },
        };
        let goal = ranked[skip + offset].1;
        proof {
            let nearer = Seq::new((skip + offset) as nat, |k: int| ranked@[k].1);
            assert forall|a: int, b: int| 0 <= a < nearer.len() && 0 <= b < nearer.len() && a != b implies nearer[a] != nearer[b] by {
                assert(origin[a] != origin[b]);
            }
            assert forall|k: int| 0 <= k < nearer.len() implies self.free_space@.contains(#[trigger] nearer[k]) && nearer[k] != start && nearer[k] != goal
                && self.spec_rank(start, nearer[k]) <= self.spec_rank(start, goal) by {
                assert(origin[k] != origin[skip + offset]);
                assert(nearer[k] == self.free_space@[origin[k]]);
                assert(ranked@[k].0 <= ranked@[skip + offset].0);
            }
            assert(skip == (count - 1) * 2 / 3);
            assert(nearer.no_duplicates());
            assert(self.ranked_far(start, goal));
            assert(among(self.free_space@, pick as int, goal));
            let j = choose|j: int| 0 <= j < count && j != pick && self.free_space@[j] == goal;
            assert(self.free_space@[j] == goal);
            assert(self.free_space@[pick as int] == start);
        }
        Some((start, goal))
    }

    /// The junctions of the path from `start` to `goal` that the turns
    /// table describes: the walk follows the direction on record cell by
    /// cell. There is no result if a record or a direction is missing on
    /// the way, or if the walk has not met the goal after as many steps as
    /// the table has pairs. Where the table is steady and has a record for
    /// the pair, there is a result, and every two consecutive junctions bound
    /// a straight run of free cells.
    #[verifier::rlimit(40)]
    pub fn find_path_junctions(&self, start: Position, goal: Position) -> (junctions: Option<Vec<Position>>)
        requires
            self.grid.wf(),
            self.turns_map.wf(),
            self.turns_map.rows == self.grid.rows,
            self.turns_map.cols == self.grid.cols,
        ensures
            match junctions {
                Some(path) => self.spec_junctions(start, goal) == Some(path@) && path@.len() >= 2 && path@[0] == start
                    && path@.last() == goal && forall|i: int| 0 <= i < path@.len() ==> self.grid.contains(#[trigger] path@[i]),
                None => self.spec_junctions(start, goal) is None,
            },
            self.steady() && self.turns_map.entry(start, goal) is Some ==> junctions is Some && forall|i: int|
                0 <= i < junctions.unwrap()@.len() - 1 ==> straight(self.grid, #[trigger] junctions.unwrap()@[i], junctions.unwrap()@[i + 1]),
    {
        let mut turns_left: usize = match self.turns_map.get(start, goal) {
            Some(record) => record.0,
            None => {
                return None;
            },
        };
        let mut position = start;
        let mut path: Vec<Position> = Vec::new();
        path.push(start);
        let mut fuel: usize = self.turns_map.table.len();
        let ghost wanted = self.spec_junctions(start, goal);
        let ghost good = self.steady();
        let ghost mut run_heading = Direction::Up;
        let ghost mut run_steps = 0int;
        assert(path@ =~= seq![start]);
        proof {
            if good {
                self.lemma_walk_starts(start, goal, run_heading);
            }
        }
        while position != goal
            invariant
                self.grid.wf(),
                self.turns_map.wf(),
                self.turns_map.rows == self.grid.rows,
                self.turns_map.cols == self.grid.cols,
                self.turns_map.covers(goal),
                self.turns_map.covers(start),
                wanted == self.spec_junctions(start, goal),
                good == self.steady(),
                path@.len() >= 1,
                path@[0] == start,
                forall|i: int| 0 <= i < path@.len() ==> self.grid.contains(#[trigger] path@[i]),
                wanted == (match trail(self.turns_map, position, goal, turns_left, fuel as nat) {
                    None => None,
                    Some(rest) => Some(path@ + rest),
                }),
                good ==> self.turns_map.entry(position, goal) is Some,
                good && position != goal ==> fuel >= self.reach_bound(position, goal),
                good ==> run_between(self.grid, path@.last(), position, run_heading, run_steps),
                good && run_steps > 0 ==> self.turns_map.entry(position, goal).unwrap().0 + turn_cost(
                    run_heading,
                    self.turns_map.entry(position, goal).unwrap().1,
                ) <= turns_left,
                good ==> forall|i: int| 0 <= i < path@.len() - 1 ==> straight(self.grid, #[trigger] path@[i], path@[i + 1]),
            decreases fuel,
        {
            proof {
                if good {
                    self.lemma_walk_on(path@.last(), position, goal, run_heading, run_steps, turns_left);
                }
            }
            if fuel == 0 {
                return None;
            }
            fuel -= 1;
            let record: (usize, Option<Direction>) = match self.turns_map.get(position, goal) {
                Some(found) => *found,
                None => {
                    return None;
                },
            };
            let heading = match record.1 {
                Some(heading) => heading,
                None => {
                    return None;
                },
            };
            let ghost before = path@;
            if turns_left != record.0 {
                turns_left = record.0;
                path.push(position);
                proof {
                    if good {
                        assert(run_between(self.grid, before.last(), position, run_heading, run_steps));
                        assert forall|i: int| 0 <= i < path@.len() - 1 implies straight(self.grid, #[trigger] path@[i], path@[i + 1]) by {
                            if i < before.len() - 1 {
                                assert(path@[i] == before[i] && path@[i + 1] == before[i + 1]);
                                assert(straight(self.grid, before[i], before[i + 1]));
                            } else {
                                assert(path@[i] == before.last() && path@[i + 1] == position);
                            }
                        }
                        run_steps = 0;
                    }
                }
            }
            let next = position.step_in_direction(heading);
            proof {
                match trail(self.turns_map, position.spec_step(heading), goal, record.0, fuel as nat) {
                    Some(rest) => {
                        if path@.len() > before.len() {
                            assert(before + (seq![position] + rest) =~= path@ + rest);
                        }
                    },
                    None => {},
                }
                if good {
                    run_heading = heading;
                    run_steps = run_steps + 1;
                }
            }
            position = next;
        }
        let ghost before = path@;
        path.push(goal);
        assert(before + seq![goal] =~= path@);
        proof {
            if good {
                assert forall|i: int| 0 <= i < path@.len() - 1 implies straight(self.grid, #[trigger] path@[i], path@[i + 1]) by {
                    if i < before.len() - 1 {
                        assert(path@[i] == before[i] && path@[i + 1] == before[i + 1]);
                        assert(straight(self.grid, before[i], before[i + 1]));
                    } else {
                        assert(path@[i] == before.last() && path@[i + 1] == goal);
                        assert(run_between(self.grid, before.last(), goal, run_heading, run_steps));
                    }
                }
            }
        }
        Some(path)
    }

    /// The segments between consecutive junctions, each with its smaller
    /// end first.
    pub fn extract_segments(junctions: Vec<Position>) -> (segments: Vec<(Position, Position)>)
        ensures
            segments@ == spec_segments(junctions@),
            forall|i: int| 0 <= i < segments@.len() ==> (#[trigger] segments@[i]).0.spec_le(segments@[i].1),
    {
        let mut segments: Vec<(Position, Position)> = Vec::new();
        let mut i: usize = 1;
        while i < junctions.len()
            invariant
                1 <= i,
                junctions@.len() > 0 ==> i <= junctions@.len(),
                segments@.len() == (if junctions@.len() > 0 { i - 1 } else { 0 }),
                forall|k: int| 0 <= k < segments@.len() ==> #[trigger] segments@[k] == ordered(junctions@[k], junctions@[k + 1]),
            decreases junctions@.len() - i,
        {
            let from = junctions[i - 1];
            let to = junctions[i];
            if from.precedes(to) {
                segments.push((from, to));
            } else {
                segments.push((to, from));
            }
            i += 1;
        }
        assert(segments@ =~= spec_segments(junctions@));
        segments
    }

    /// Whether the words fill the path from `start` to `goal`: there is a
    /// complete solution over the path's segments, each word offered by the
    /// dictionary to the constraints of its segment, as long as its segment
    /// and sharing the junction letter with the word before, and the words
    /// are those of that solution in segment order.
    pub open spec fn fills(&self, word_list: WordList, start: Position, goal: Position, words: Seq<String>) -> bool {
        &&& self.spec_junctions(start, goal) is Some
        &&& exists|solution: Solution| #[trigger]
            solution.wf() && solution.chained() && solution.offered_from(word_list, 0) && solution.spec_is_complete() && solution.segments@ == spec_segments(
                self.spec_junctions(start, goal).unwrap(),
            ) && words.len() == solution.words@.len() && forall|i: int|
                0 <= i < words.len() ==> (#[trigger] words[i])@ == solution.words@[i].word@
    }

    /// Whether the path from `start` to `goal` cannot be filled any further:
    /// the turns table gives no junctions for it, being unsteady or without
    /// a record for the pair, or some chained solution over its segments is
    /// incomplete and the dictionary offers no word to its next constraints.
    pub open spec fn stuck(&self, word_list: WordList, start: Position, goal: Position) -> bool {
        match self.spec_junctions(start, goal) {
            None => !self.steady() || self.turns_map.entry(start, goal) is None,
            Some(junctions) => exists|solution: Solution| #[trigger]
                solution.wf() && solution.chained() && !solution.spec_is_complete() && solution.segments@ == spec_segments(junctions)
                    && forall|text: Seq<char>| !word_list.offers(solution.spec_next_constraints(), text),
        }
    }

    /// Whether an attempt at a level may end without one: there are no two
    /// free cells, the solver has no attempts, a table does not chart a
    /// listed free cell, or two different free cells,
    /// the second in the far third of the ranking from the first, have a
    /// path between them that is stuck.
    pub open spec fn may_fail(&self, word_list: WordList, solver_retries: usize) -> bool {
        ||| self.free_space@.len() < 2
        ||| solver_retries == 0
        ||| self.lacks_chart()
        ||| exists|start: Position, goal: Position| #[trigger]
            self.stuck(word_list, start, goal) && self.free_space@.contains(start) && self.free_space@.contains(goal) && start != goal
                && self.ranked_far(start, goal)
    }

    /// One attempt at a level: two ends, the path between them, and a word
    /// for every segment. A level that is returned has two different free
    /// cells as its ends, a copy of the generator's grid, and words that
    /// fill the path. There is no level without two free cells or with no
    /// solver attempts; with both, the attempt ends without a level only
    /// where the path between the chosen ends is stuck.
    pub fn attempt_generate_level(&self, word_list: &WordList, solver_retries: usize) -> (made: Option<Level>)
        requires
            self.usable(),
        ensures
            match made {
                Some(level) => self.free_space@.contains(level.start) && self.free_space@.contains(level.goal) && level.start
                    != level.goal && level.grid.rows == self.grid.rows && level.grid.cols == self.grid.cols && level.grid.cells@
                    == self.grid.cells@ && self.fills(*word_list, level.start, level.goal, level.words@),
                None => self.may_fail(*word_list, solver_retries),
            },
            self.free_space@.len() < 2 || solver_retries == 0 ==> made is None,
    {
        let (start, goal) = match self.choose_start_and_goal() {
            Some(ends) => ends,
            None => {
                return None;
            },
        };
        let junctions = match self.find_path_junctions(start, goal) {
            Some(junctions) => junctions,
            None => {
                assert(self.stuck(*word_list, start, goal));
                return None;
            },
        };
        let ghost path = junctions@;
        let segments = LevelGenerator::extract_segments(junctions);
        proof {
            assert forall|i: int| 0 <= i < segments@.len() implies segment_len(#[trigger] segments@[i]) <= usize::MAX by {
                assert(self.grid.contains(path[i]) && self.grid.contains(path[i + 1]));
                assert(segments@[i] == ordered(path[i], path[i + 1]));
            }
        }
        let mut solution = Solution::new(segments);
        match solution.attempt_solve(word_list, solver_retries) {
            None => {
                proof {
                    if solver_retries > 0 {
                        assert(solution.wf() && solution.chained() && !solution.spec_is_complete());
                        assert(self.stuck(*word_list, start, goal));
                    }
                }
                return None;
            },
            Some(_) => {},
        }
        let found = solution.all_words();
        let mut words: Vec<String> = Vec::new();
        let mut i: usize = 0;
        while i < found.len()
            invariant
                i <= found@.len(),
                words@.len() == i,
                found@.len() == solution.words@.len(),
                forall|j: int| 0 <= j < found@.len() ==> *(#[trigger] found@[j]) == solution.words@[j].word,
                forall|j: int| 0 <= j < i ==> (#[trigger] words@[j])@ == solution.words@[j].word@,
            decreases found@.len() - i,
        {
            words.push(found[i].clone());
            i += 1;
        }
        let level = Level { start, goal, words, grid: self.grid.duplicate() };
        assert(solution.wf() && solution.chained() && solution.offered_from(*word_list, 0) && solution.spec_is_complete());
        assert(self.fills(*word_list, start, goal, level.words@));
        Some(level)
    }
}

} // verus!
