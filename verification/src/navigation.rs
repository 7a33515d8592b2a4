//! The two navigation tables of a grid: hop distances and turn counts, both
//! built by relaxing every cell against its free neighbours until a whole
//! pass changes nothing.

use vstd::prelude::*;
use crate::edge_map::EdgeMap;
use crate::grid::{adjacent, Grid};
use crate::layout::{cell_index, lemma_cell_index_bound, lemma_cell_index_injective, lemma_total_update, total};
use crate::position::{Direction, Position};
use crate::walks::lemma_shorten;

verus! {

/// The table of hop distances.
pub type DistanceMap = EdgeMap<usize>;

/// The table of turn counts, each with the direction of the first step.
pub type TurnsMap = EdgeMap<(usize, Option<Direction>)>;

/// What an entry of a distance table adds to the table's potential: its
/// value, or `cap` while it is missing.
pub open spec fn hop_weight(entry: Option<usize>, cap: nat) -> nat {
    match entry {
        Some(hops) => hops as nat,
        None => cap,
    }
}

/// The potential of a distance table: it falls with every improvement.
pub open spec fn hop_potential(table: Seq<Option<usize>>, cap: nat) -> nat {
    total(Seq::new(table.len(), |i: int| hop_weight(table[i], cap)))
}

proof fn lemma_hop_potential_falls(table: Seq<Option<usize>>, cap: nat, slot: int, hops: usize)
    requires
        0 <= slot < table.len(),
        hops < hop_weight(table[slot], cap),
    ensures
        hop_potential(table.update(slot, Some(hops)), cap) < hop_potential(table, cap),
{
    let before = Seq::new(table.len(), |i: int| hop_weight(table[i], cap));
    let after = Seq::new(table.len(), |i: int| hop_weight(table.update(slot, Some(hops))[i], cap));
    lemma_total_update(before, slot, hops as nat);
    assert(after =~= before.update(slot, hops as nat));
}

/// What an entry of a turns table adds to the table's potential: its turn
/// count, or `cap` while it is missing.
pub open spec fn turn_weight(entry: Option<(usize, Option<Direction>)>, cap: nat) -> nat {
    match entry {
        Some(record) => record.0 as nat,
        None => cap,
    }
}

/// The potential of a turns table: it falls with every improvement.
pub open spec fn turn_potential(table: Seq<Option<(usize, Option<Direction>)>>, cap: nat) -> nat {
    total(Seq::new(table.len(), |i: int| turn_weight(table[i], cap)))
}

proof fn lemma_turn_potential_falls(table: Seq<Option<(usize, Option<Direction>)>>, cap: nat, slot: int, record: (usize, Option<Direction>))
    requires
        0 <= slot < table.len(),
        record.0 < turn_weight(table[slot], cap),
    ensures
        turn_potential(table.update(slot, Some(record)), cap) < turn_potential(table, cap),
{
    let before = Seq::new(table.len(), |i: int| turn_weight(table[i], cap));
    let after = Seq::new(table.len(), |i: int| turn_weight(table.update(slot, Some(record))[i], cap));
    lemma_total_update(before, slot, record.0 as nat);
    assert(after =~= before.update(slot, record.0 as nat));
}

/// What a step in `heading` adds to the turn count of the walk that follows
/// it: one if that walk starts in another direction, nothing if it starts in
/// the same direction or is empty.
pub open spec fn turn_cost(heading: Direction, then: Option<Direction>) -> nat {
    match then {
        Some(next) => if next != heading { 1 } else { 0 },
        None => 0,
    }
}

/// A table that measures the grid is symmetric: from `a` to `b` it records
/// what it records from `b` to `a`.
pub proof fn lemma_distance_symmetric(grid: Grid, map: EdgeMap<usize>, a: Position, b: Position)
    requires
        grid.wf(),
        grid.measures(map),
    ensures
        map.entry(a, b) == map.entry(b, a),
{
    match map.entry(a, b) {
        Some(hops) => {
            grid.lemma_reach_back(a, b, hops as nat);
            assert(grid.connected(b, a));
            match map.entry(b, a) {
                Some(back) => {
                    grid.lemma_reach_back(b, a, back as nat);
                },
                None => {},
            }
        },
        None => {
            match map.entry(b, a) {
                Some(back) => {
                    grid.lemma_reach_back(b, a, back as nat);
                    assert(grid.connected(a, b));
                },
                None => {},
            }
        },
    }
}

impl Grid {
    /// The number of cells.
    pub open spec fn cell_count(&self) -> int {
        self.rows * self.cols
    }

    /// `steps` is the least number of steps of a walk over free cells from
    /// `from` to `to`.
    pub open spec fn is_least_walk(&self, from: Position, to: Position, steps: nat) -> bool {
        &&& self.reach_in(from, to, steps)
        &&& forall|fewer: nat| fewer < steps ==> !self.reach_in(from, to, fewer)
    }

    /// The map records for every pair of cells the least number of steps of
    /// a walk between them, and nothing where no walk leads from the one to
    /// the other.
    pub open spec fn is_distance_map(&self, map: EdgeMap<usize>) -> bool {
        &&& map.wf()
        &&& map.rows == self.rows
        &&& map.cols == self.cols
        &&& self.measures(map)
    }

    /// Every record of the map is the least number of steps of a walk
    /// between its two cells, and a pair without a record is not connected.
    pub open spec fn measures(&self, map: EdgeMap<usize>) -> bool {
        forall|a: Position, b: Position|
            match #[trigger] map.entry(a, b) {
                Some(hops) => self.is_least_walk(a, b, hops as nat),
                None => !self.connected(a, b),
            }
    }

    /// Every recorded distance is the length of a walk.
    pub open spec fn hops_sound(&self, map: EdgeMap<usize>) -> bool {
        forall|a: Position, b: Position|
            match #[trigger] map.entry(a, b) {
                Some(hops) => self.reach_in(a, b, hops as nat) && hops < self.cell_count(),
                None => true,
            }
    }

    /// Every free cell is at distance zero from itself.
    pub open spec fn hops_zero(&self, map: EdgeMap<usize>) -> bool {
        forall|a: Position| self.is_free(a) ==> #[trigger] map.entry(a, a) == Some(0usize)
    }

    /// The entry of `(cell, to)` cannot be improved through `neighbour`.
    pub open spec fn hops_relaxed(&self, map: EdgeMap<usize>, cell: Position, neighbour: Position, to: Position) -> bool {
        match map.entry(neighbour, to) {
            Some(offer) => offer + 1 < self.cell_count() ==> (match map.entry(cell, to) {
                Some(hops) => hops <= offer + 1,
                None => false,
            }),
            None => true,
        }
    }

    /// No entry of `cell` can be improved through a free neighbour.
    pub open spec fn hops_closed_at(&self, map: EdgeMap<usize>, cell: Position) -> bool {
        forall|neighbour: Position, to: Position| adjacent(cell, neighbour) && self.is_free(neighbour)
            ==> #[trigger] self.hops_relaxed(map, cell, neighbour, to)
    }

    /// No entry of a free cell can be improved.
    pub open spec fn hops_fixed(&self, map: EdgeMap<usize>) -> bool {
        forall|cell: Position| self.is_free(cell) ==> #[trigger] self.hops_closed_at(map, cell)
    }

    /// One step before a walk makes a walk that is one step longer.
    pub proof fn lemma_reach_step(&self, cell: Position, neighbour: Position, to: Position, steps: nat)
        requires
            self.is_free(cell),
            adjacent(cell, neighbour),
            self.reach_in(neighbour, to, steps),
        ensures
            self.reach_in(cell, to, steps + 1),
    {
        assert((steps + 1 - 1) as nat == steps);
    }

    /// In a table that cannot be improved, a walk bounds the entry of its
    /// ends from above.
    proof fn lemma_fixed_bounds(&self, map: EdgeMap<usize>, from: Position, to: Position, steps: nat)
        requires
            self.wf(),
            self.hops_zero(map),
            self.hops_fixed(map),
            self.reach_in(from, to, steps),
            steps < self.cell_count(),
        ensures
            map.entry(from, to) is Some,
            map.entry(from, to).unwrap() <= steps,
        decreases steps,
    {
        if steps > 0 {
            let rest = (steps - 1) as nat;
            let next = if self.reach_in(from.spec_step(Direction::Up), to, rest) {
                from.spec_step(Direction::Up)
            } else if self.reach_in(from.spec_step(Direction::Down), to, rest) {
                from.spec_step(Direction::Down)
            } else if self.reach_in(from.spec_step(Direction::Left), to, rest) {
                from.spec_step(Direction::Left)
            } else {
                from.spec_step(Direction::Right)
            };
            self.lemma_fixed_bounds(map, next, to, rest);
            self.lemma_reach_ends_free(next, to, rest);
            assert(self.hops_closed_at(map, from));
            assert(self.hops_relaxed(map, from, next, to));
        }
    }

    /// A sound table that cannot be improved is the distance table.
    proof fn lemma_fixed_is_distance(&self, map: EdgeMap<usize>)
        requires
            self.wf(),
            map.wf(),
            map.rows == self.rows,
            map.cols == self.cols,
            self.hops_sound(map),
            self.hops_zero(map),
            self.hops_fixed(map),
        ensures
            self.is_distance_map(map),
    {
        assert forall|a: Position, b: Position|
            match #[trigger] map.entry(a, b) {
                Some(hops) => self.is_least_walk(a, b, hops as nat),
                None => !self.connected(a, b),
            } by {
            match map.entry(a, b) {
                Some(hops) => {
                    assert forall|fewer: nat| fewer < hops implies !self.reach_in(a, b, fewer) by {
                        if self.reach_in(a, b, fewer) {
                            self.lemma_fixed_bounds(map, a, b, fewer);
                        }
                    }
                },
                None => {
                    if self.connected(a, b) {
                        let steps = choose|steps: nat| self.reach_in(a, b, steps);
                        let fewer = lemma_shorten(*self, a, b, steps);
                        self.lemma_fixed_bounds(map, a, b, fewer);
                    }
                },
            }
        }
    }

    /// The table of hop distances between the free cells: for every pair the
    /// least number of steps of a walk over free cells, and no entry where
    /// no walk leads from the one to the other.
    pub fn generate_distance_map(&self) -> (map: DistanceMap)
        requires
            self.wf(),
            (self.rows * self.cols) * (self.rows * self.cols) <= usize::MAX,
        ensures
            self.is_distance_map(map),
    {
        let positions = self.all_positions();
        let count = positions.len();
        let mut map: EdgeMap<usize> = EdgeMap::sized(self.rows, self.cols);
        let mut i: usize = 0;
        while i < count
            invariant
                self.wf(),
                map.wf(),
                map.rows == self.rows,
                map.cols == self.cols,
                i <= count,
                count == positions@.len(),
                count == self.rows * self.cols,
                forall|j: int| 0 <= j < positions@.len() ==> self.contains(#[trigger] positions@[j])
                    && cell_index(positions@[j], self.cols as int) == j,
                self.hops_sound(map),
                forall|j: int| 0 <= j < i ==> self.is_free(#[trigger] positions@[j]) ==> map.entry(positions@[j], positions@[j]) == Some(0usize),
            decreases count - i,
        {
            let position = positions[i];
            if self.is_open(position) {
                map.insert(position, position, 0);
                assert(self.reach_in(position, position, 0));
            }
            i += 1;
        }
        proof {
            assert forall|a: Position| self.is_free(a) implies #[trigger] map.entry(a, a) == Some(0usize) by {
                self.lemma_indices();
                lemma_cell_index_injective(positions@[cell_index(a, self.cols as int)], a, self.rows as int, self.cols as int);
            }
        }
        let mut changed = true;
        while changed
            invariant
                self.wf(),
                map.wf(),
                map.rows == self.rows,
                map.cols == self.cols,
                count == positions@.len(),
                count == self.rows * self.cols,
                forall|j: int| 0 <= j < positions@.len() ==> self.contains(#[trigger] positions@[j])
                    && cell_index(positions@[j], self.cols as int) == j,
                self.hops_sound(map),
                self.hops_zero(map),
                !changed ==> self.hops_fixed(map),
            decreases hop_potential(map.table@, count as nat), (if changed { 1int } else { 0int }),
        {
            changed = false;
            let ghost pass_table = map.table@;
            let mut pi: usize = 0;
            while pi < count
                invariant
                    self.wf(),
                    map.wf(),
                    map.rows == self.rows,
                    map.cols == self.cols,
                    pi <= count,
                    count == positions@.len(),
                    count == self.rows * self.cols,
                    forall|j: int| 0 <= j < positions@.len() ==> self.contains(#[trigger] positions@[j])
                        && cell_index(positions@[j], self.cols as int) == j,
                    self.hops_sound(map),
                    self.hops_zero(map),
                    hop_potential(map.table@, count as nat) <= hop_potential(pass_table, count as nat),
                    changed ==> hop_potential(map.table@, count as nat) < hop_potential(pass_table, count as nat),
                    !changed ==> forall|j: int| 0 <= j < pi ==> self.is_free(#[trigger] positions@[j]) ==> self.hops_closed_at(map, positions@[j]),
                decreases count - pi,
            {
                let cell = positions[pi];
                if self.is_open(cell) {
                    let around = self.valid_neighbours(cell);
                    let mut ni: usize = 0;
                    while ni < around.len()
                        invariant
                            self.wf(),
                            map.wf(),
                            map.rows == self.rows,
                            map.cols == self.cols,
                            pi < count,
                            ni <= around@.len(),
                            cell == positions@[pi as int],
                            self.is_free(cell),
                            count == positions@.len(),
                            count == self.rows * self.cols,
                            forall|j: int| 0 <= j < positions@.len() ==> self.contains(#[trigger] positions@[j])
                                && cell_index(positions@[j], self.cols as int) == j,
                            forall|j: int| 0 <= j < around@.len() ==> self.contains(#[trigger] around@[j]) && adjacent(cell, around@[j]),
                            self.hops_sound(map),
                            self.hops_zero(map),
                            hop_potential(map.table@, count as nat) <= hop_potential(pass_table, count as nat),
                            changed ==> hop_potential(map.table@, count as nat) < hop_potential(pass_table, count as nat),
                            !changed ==> forall|j: int| 0 <= j < pi ==> self.is_free(#[trigger] positions@[j]) ==> self.hops_closed_at(map, positions@[j]),
                            !changed ==> forall|j: int, to: Position| 0 <= j < ni && self.is_free(around@[j])
                                ==> #[trigger] self.hops_relaxed(map, cell, around@[j], to),
                        decreases around@.len() - ni,
                    {
                        let neighbour = around[ni];
                        if self.is_open(neighbour) {
                            let mut di: usize = 0;
                            while di < count
                                invariant
                                    self.wf(),
                                    map.wf(),
                                    map.rows == self.rows,
                                    map.cols == self.cols,
                                    pi < count,
                                    ni < around@.len(),
                                    di <= count,
                                    cell == positions@[pi as int],
                                    neighbour == around@[ni as int],
                                    self.is_free(cell),
                                    self.is_free(neighbour),
                                    adjacent(cell, neighbour),
                                    count == positions@.len(),
                                    count == self.rows * self.cols,
                                    forall|j: int| 0 <= j < positions@.len() ==> self.contains(#[trigger] positions@[j])
                                        && cell_index(positions@[j], self.cols as int) == j,
                                    self.hops_sound(map),
                                    self.hops_zero(map),
                                    hop_potential(map.table@, count as nat) <= hop_potential(pass_table, count as nat),
                                    changed ==> hop_potential(map.table@, count as nat) < hop_potential(pass_table, count as nat),
                                    !changed ==> forall|j: int| 0 <= j < pi ==> self.is_free(#[trigger] positions@[j]) ==> self.hops_closed_at(map, positions@[j]),
                                    !changed ==> forall|j: int, to: Position| 0 <= j < ni && self.is_free(around@[j])
                                        ==> #[trigger] self.hops_relaxed(map, cell, around@[j], to),
                                    !changed ==> forall|j: int| 0 <= j < di ==> self.hops_relaxed(map, cell, neighbour, #[trigger] positions@[j]),
                                decreases count - di,
                            {
                                let to = positions[di];
                                let offer: Option<usize> = match map.get(neighbour, to) {
                                    Some(hops) => Some(*hops),
                                    None => None,
                                };
                                if let Some(hops) = offer {
                                    assert(map.entry(neighbour, to) == Some(hops));
                                    if hops + 1 < count {
                                        let better = match map.get(cell, to) {
                                            Some(current) => hops + 1 < *current,
                                            None => true,
                                        };
                                        if better {
                                            let ghost before = map;
                                            proof {
                                                map.lemma_slot_bound(cell, to);
                                                lemma_hop_potential_falls(map.table@, count as nat, map.slot(cell, to), (hops + 1) as usize);
                                                self.lemma_reach_step(cell, neighbour, to, hops as nat);
                                            }
                                            map.insert(cell, to, hops + 1);
                                            changed = true;
                                            proof {
                                                assert(cell != to);
                                                assert forall|a: Position, b: Position|
                                                    match #[trigger] map.entry(a, b) {
                                                        Some(h) => self.reach_in(a, b, h as nat) && h < self.cell_count(),
                                                        None => true,
                                                    } by {
                                                    if a != cell || b != to {
                                                        assert(map.entry(a, b) == before.entry(a, b));
                                                    }
                                                }
                                                assert forall|a: Position| self.is_free(a) implies #[trigger] map.entry(a, a) == Some(0usize) by {
                                                    assert(map.entry(a, a) == before.entry(a, a));
                                                }
                                            }
                                        }
                                    }
                                }
                                di += 1;
                            }
                            proof {
                                if !changed {
                                    assert forall|to: Position| #[trigger] self.hops_relaxed(map, cell, neighbour, to) by {
                                        if self.contains(to) {
                                            self.lemma_indices();
                                            lemma_cell_index_injective(positions@[cell_index(to, self.cols as int)], to, self.rows as int, self.cols as int);
                                            assert(self.hops_relaxed(map, cell, neighbour, positions@[cell_index(to, self.cols as int)]));
                                        }
                                    }
                                }
                            }
                        }
                        ni += 1;
                    }
                    proof {
                        if !changed {
                            assert forall|neighbour: Position, to: Position| adjacent(cell, neighbour) && self.is_free(neighbour)
                                implies #[trigger] self.hops_relaxed(map, cell, neighbour, to) by {
                                let d = choose|d: Direction| neighbour == cell.spec_step(d);
                                assert(self.contains(cell.spec_step(d)));
                                let j = choose|j: int| 0 <= j < around@.len() && around@[j] == neighbour;
                                assert(self.hops_relaxed(map, cell, around@[j], to));
                            }
                            assert(self.hops_closed_at(map, cell));
                        }
                    }
                }
                pi += 1;
            }
            proof {
                if !changed {
                    assert forall|cell: Position| self.is_free(cell) implies #[trigger] self.hops_closed_at(map, cell) by {
                        self.lemma_indices();
                        lemma_cell_index_injective(positions@[cell_index(cell, self.cols as int)], cell, self.rows as int, self.cols as int);
                    }
                }
            }
        }
        proof {
            self.lemma_fixed_is_distance(map);
        }
        map
    }

    /// Whether a walk of `steps` steps over free cells leads from `from` to
    /// `to`, starts in direction `heading` and changes direction `turns`
    /// times. The empty walk has no heading and no turn.
    pub open spec fn route(&self, from: Position, to: Position, turns: nat, heading: Option<Direction>, steps: nat) -> bool
        decreases steps, 1nat,
    {
        &&& self.is_free(from)
        &&& if steps == 0 {
            from == to && turns == 0 && heading is None
        } else {
            &&& heading is Some
            &&& {
                ||| self.route_on(from, to, turns, heading.unwrap(), None, steps)
                ||| self.route_on(from, to, turns, heading.unwrap(), Some(Direction::Up), steps)
                ||| self.route_on(from, to, turns, heading.unwrap(), Some(Direction::Down), steps)
                ||| self.route_on(from, to, turns, heading.unwrap(), Some(Direction::Left), steps)
                ||| self.route_on(from, to, turns, heading.unwrap(), Some(Direction::Right), steps)
            }
        }
    }

    /// Whether a walk as in `route` exists that goes on in direction `then`
    /// after its first step.
    pub open spec fn route_on(&self, from: Position, to: Position, turns: nat, heading: Direction, then: Option<Direction>, steps: nat) -> bool
        decreases steps, 0nat,
    {
        &&& steps > 0
        &&& turns >= turn_cost(heading, then)
        &&& self.route(from.spec_step(heading), to, (turns - turn_cost(heading, then)) as nat, then, (steps - 1) as nat)
    }

    /// Whether some walk leads from `from` to `to`, starts in direction
    /// `heading` and changes direction `turns` times.
    pub open spec fn routed(&self, from: Position, to: Position, turns: nat, heading: Option<Direction>) -> bool {
        exists|steps: nat| self.route(from, to, turns, heading, steps)
    }

    /// Every record is the turn count and the first direction of a walk.
    pub open spec fn turns_sound(&self, map: TurnsMap) -> bool {
        forall|a: Position, b: Position|
            match #[trigger] map.entry(a, b) {
                Some(record) => self.routed(a, b, record.0 as nat, record.1) && record.0 < self.cell_count(),
                None => true,
            }
    }

    /// Every free cell reaches itself without a turn and without a step.
    pub open spec fn turns_zero(&self, map: TurnsMap) -> bool {
        forall|a: Position| self.is_free(a) ==> #[trigger] map.entry(a, a) == Some((0usize, None::<Direction>))
    }

    /// Where a record names a direction, the cell in that direction has a
    /// record for the same destination, and its count, with the cost of
    /// the step onto it, is no larger than the count of the record: along
    /// the recorded directions the count never rises, and it falls where the
    /// direction changes.
    pub open spec fn turns_linked(&self, map: TurnsMap) -> bool {
        forall|a: Position, b: Position|
            match #[trigger] map.entry(a, b) {
                Some(record) => match record.1 {
                    Some(heading) => match map.entry(a.spec_step(heading), b) {
                        Some(next) => next.0 + turn_cost(heading, next.1) <= record.0,
                        None => false,
                    },
                    None => true,
                },
                None => true,
            }
    }

    /// No record names a direction.
    pub open spec fn turns_at_rest(&self, map: TurnsMap) -> bool {
        forall|a: Position, b: Position|
            match #[trigger] map.entry(a, b) {
                Some(record) => record.1 is None,
                None => true,
            }
    }

    /// The record of `(cell, to)` cannot be improved by stepping in
    /// `heading` and going on as the cell there records.
    pub open spec fn turns_relaxed(&self, map: TurnsMap, cell: Position, heading: Direction, to: Position) -> bool {
        match map.entry(cell.spec_step(heading), to) {
            Some(offer) => offer.0 + turn_cost(heading, offer.1) < self.cell_count() ==> (match map.entry(cell, to) {
                Some(record) => record.0 <= offer.0 + turn_cost(heading, offer.1),
                None => false,
            }),
            None => true,
        }
    }

    /// No record of `cell` can be improved through a free neighbour.
    pub open spec fn turns_closed_at(&self, map: TurnsMap, cell: Position) -> bool {
        forall|heading: Direction, to: Position| self.is_free(cell.spec_step(heading))
            ==> #[trigger] self.turns_relaxed(map, cell, heading, to)
    }

    /// No record of a free cell can be improved.
    pub open spec fn turns_fixed(&self, map: TurnsMap) -> bool {
        forall|cell: Position| self.is_free(cell) ==> #[trigger] self.turns_closed_at(map, cell)
    }

    /// Where a walk leads from one cell to another, the pair has a record,
    /// and its turn count is no more than the walk has steps.
    pub open spec fn turns_within(&self, map: TurnsMap) -> bool {
        forall|a: Position, b: Position, steps: nat| #[trigger] self.reach_in(a, b, steps)
            ==> map.entry(a, b) is Some && map.entry(a, b).unwrap().0 <= steps
    }

    /// The map is a turns table of the grid: every record describes a walk,
    /// free cells reach themselves without a turn, every pair of connected
    /// cells has a record, records follow each other to the destination,
    /// and no record can be improved.
    pub open spec fn is_turns_map(&self, map: TurnsMap) -> bool {
        &&& map.wf()
        &&& map.rows == self.rows
        &&& map.cols == self.cols
        &&& self.turns_sound(map)
        &&& self.turns_zero(map)
        &&& self.turns_within(map)
        &&& self.turns_linked(map)
        &&& self.turns_fixed(map)
    }

    /// In a turns table that cannot be improved, a walk of fewer steps than
    /// the grid has cells bounds the turn count of its ends from above.
    proof fn lemma_turns_bounds(&self, map: TurnsMap, from: Position, to: Position, steps: nat)
        requires
            self.wf(),
            self.turns_zero(map),
            self.turns_fixed(map),
            self.reach_in(from, to, steps),
            steps < self.cell_count(),
        ensures
            map.entry(from, to) is Some,
            map.entry(from, to).unwrap().0 <= steps,
        decreases steps,
    {
        if steps > 0 {
            let rest = (steps - 1) as nat;
            let heading = if self.reach_in(from.spec_step(Direction::Up), to, rest) {
                Direction::Up
            } else if self.reach_in(from.spec_step(Direction::Down), to, rest) {
                Direction::Down
            } else if self.reach_in(from.spec_step(Direction::Left), to, rest) {
                Direction::Left
            } else {
                Direction::Right
            };
            let next = from.spec_step(heading);
            self.lemma_turns_bounds(map, next, to, rest);
            self.lemma_reach_ends_free(next, to, rest);
            assert(self.turns_closed_at(map, from));
            assert(self.turns_relaxed(map, from, heading, to));
        }
    }

    /// A turns table that cannot be improved has a record for every pair of
    /// connected cells.
    proof fn lemma_turns_within(&self, map: TurnsMap)
        requires
            self.wf(),
            self.turns_zero(map),
            self.turns_fixed(map),
        ensures
            self.turns_within(map),
    {
        assert forall|a: Position, b: Position, steps: nat| #[trigger] self.reach_in(a, b, steps)
            implies map.entry(a, b) is Some && map.entry(a, b).unwrap().0 <= steps by {
            let fewer = lemma_shorten(*self, a, b, steps);
            self.lemma_turns_bounds(map, a, b, fewer);
        }
    }

    /// One step before a walk makes a walk with the step's turn cost added.
    pub proof fn lemma_route_step(&self, cell: Position, heading: Direction, to: Position, turns: nat, then: Option<Direction>, steps: nat)
        requires
            self.is_free(cell),
            self.route(cell.spec_step(heading), to, turns, then, steps),
        ensures
            self.route(cell, to, turns + turn_cost(heading, then), Some(heading), steps + 1),
    {
        let total: nat = turns + turn_cost(heading, then);
        let longer: nat = steps + 1;
        assert((longer - 1) as nat == steps);
        assert((total - turn_cost(heading, then)) as nat == turns);
        assert(self.route_on(cell, to, total, heading, then, longer));
        assert(self.route(cell, to, total, Some(heading), longer));
    }

    /// The table of turn counts between the free cells. A record holds the
    /// number of direction changes of a walk to the destination and the
    /// direction of that walk's first step; the table is one that no
    /// relaxation step can improve.
    pub fn generate_turns_map(&self) -> (map: TurnsMap)
        requires
            self.wf(),
            (self.rows * self.cols) * (self.rows * self.cols) <= usize::MAX,
        ensures
            self.is_turns_map(map),
    {
        let positions = self.all_positions();
        let count = positions.len();
        let mut map: EdgeMap<(usize, Option<Direction>)> = EdgeMap::sized(self.rows, self.cols);
        let mut i: usize = 0;
        while i < count
            invariant
                self.wf(),
                map.wf(),
                map.rows == self.rows,
                map.cols == self.cols,
                i <= count,
                count == positions@.len(),
                count == self.rows * self.cols,
                forall|j: int| 0 <= j < positions@.len() ==> self.contains(#[trigger] positions@[j])
                    && cell_index(positions@[j], self.cols as int) == j,
                self.turns_sound(map),
                self.turns_at_rest(map),
                forall|j: int| 0 <= j < i ==> self.is_free(#[trigger] positions@[j]) ==> map.entry(positions@[j], positions@[j]) == Some((0usize, None::<Direction>)),
            decreases count - i,
        {
            let position = positions[i];
            if self.is_open(position) {
                map.insert(position, position, (0, None));
                assert(self.route(position, position, 0, None, 0));
            }
            i += 1;
        }
        proof {
            assert forall|a: Position| self.is_free(a) implies #[trigger] map.entry(a, a) == Some((0usize, None::<Direction>)) by {
                self.lemma_indices();
                lemma_cell_index_injective(positions@[cell_index(a, self.cols as int)], a, self.rows as int, self.cols as int);
            }
        }
        let mut changed = true;
        while changed
            invariant
                self.wf(),
                map.wf(),
                map.rows == self.rows,
                map.cols == self.cols,
                count == positions@.len(),
                count == self.rows * self.cols,
                forall|j: int| 0 <= j < positions@.len() ==> self.contains(#[trigger] positions@[j])
                    && cell_index(positions@[j], self.cols as int) == j,
                self.turns_sound(map),
                self.turns_zero(map),
                self.turns_linked(map),
                !changed ==> self.turns_fixed(map),
            decreases turn_potential(map.table@, count as nat), (if changed { 1int } else { 0int }),
        {
            changed = false;
            let ghost pass_table = map.table@;
            let mut pi: usize = 0;
            while pi < count
                invariant
                    self.wf(),
                    map.wf(),
                    map.rows == self.rows,
                    map.cols == self.cols,
                    pi <= count,
                    count == positions@.len(),
                    count == self.rows * self.cols,
                    forall|j: int| 0 <= j < positions@.len() ==> self.contains(#[trigger] positions@[j])
                        && cell_index(positions@[j], self.cols as int) == j,
                    self.turns_sound(map),
                    self.turns_zero(map),
                    self.turns_linked(map),
                    turn_potential(map.table@, count as nat) <= turn_potential(pass_table, count as nat),
                    changed ==> turn_potential(map.table@, count as nat) < turn_potential(pass_table, count as nat),
                    !changed ==> forall|j: int| 0 <= j < pi ==> self.is_free(#[trigger] positions@[j]) ==> self.turns_closed_at(map, positions@[j]),
                decreases count - pi,
            {
                let cell = positions[pi];
                if self.is_open(cell) {
                    let around = self.valid_neighbours(cell);
                    let mut ni: usize = 0;
                    while ni < around.len()
                        invariant
                            self.wf(),
                            map.wf(),
                            map.rows == self.rows,
                            map.cols == self.cols,
                            pi < count,
                            ni <= around@.len(),
                            cell == positions@[pi as int],
                            self.is_free(cell),
                            count == positions@.len(),
                            count == self.rows * self.cols,
                            forall|j: int| 0 <= j < positions@.len() ==> self.contains(#[trigger] positions@[j])
                                && cell_index(positions@[j], self.cols as int) == j,
                            forall|j: int| 0 <= j < around@.len() ==> self.contains(#[trigger] around@[j]) && adjacent(cell, around@[j]),
                            self.turns_sound(map),
                            self.turns_zero(map),
                            self.turns_linked(map),
                            turn_potential(map.table@, count as nat) <= turn_potential(pass_table, count as nat),
                            changed ==> turn_potential(map.table@, count as nat) < turn_potential(pass_table, count as nat),
                            !changed ==> forall|j: int| 0 <= j < pi ==> self.is_free(#[trigger] positions@[j]) ==> self.turns_closed_at(map, positions@[j]),
                            !changed ==> forall|heading: Direction, to: Position|
                                self.is_free(cell.spec_step(heading)) && (exists|j: int| 0 <= j < ni && around@[j] == cell.spec_step(heading))
                                ==> #[trigger] self.turns_relaxed(map, cell, heading, to),
                        decreases around@.len() - ni,
                    {
                        let neighbour = around[ni];
                        let toward = cell.direction_to_position(neighbour);
                        if self.is_open(neighbour) {
                            if let Some(heading) = toward {
                                assert(cell.spec_step(heading) == neighbour);
                                let mut di: usize = 0;
                                while di < count
                                    invariant
                                        self.wf(),
                                        map.wf(),
                                        map.rows == self.rows,
                                        map.cols == self.cols,
                                        pi < count,
                                        ni < around@.len(),
                                        di <= count,
                                        cell == positions@[pi as int],
                                        neighbour == around@[ni as int],
                                        neighbour == cell.spec_step(heading),
                                        self.is_free(cell),
                                        self.is_free(neighbour),
                                        count == positions@.len(),
                                        count == self.rows * self.cols,
                                        forall|j: int| 0 <= j < positions@.len() ==> self.contains(#[trigger] positions@[j])
                                            && cell_index(positions@[j], self.cols as int) == j,
                                        self.turns_sound(map),
                                        self.turns_zero(map),
                                        self.turns_linked(map),
                                        turn_potential(map.table@, count as nat) <= turn_potential(pass_table, count as nat),
                                        changed ==> turn_potential(map.table@, count as nat) < turn_potential(pass_table, count as nat),
                                        !changed ==> forall|j: int| 0 <= j < pi ==> self.is_free(#[trigger] positions@[j]) ==> self.turns_closed_at(map, positions@[j]),
                                        !changed ==> forall|other: Direction, to: Position|
                                            self.is_free(cell.spec_step(other)) && (exists|j: int| 0 <= j < ni && around@[j] == cell.spec_step(other))
                                            ==> #[trigger] self.turns_relaxed(map, cell, other, to),
                                        !changed ==> forall|j: int| 0 <= j < di ==> self.turns_relaxed(map, cell, heading, #[trigger] positions@[j]),
                                    decreases count - di,
                                {
                                    let to = positions[di];
                                    let offer: Option<(usize, Option<Direction>)> = match map.get(neighbour, to) {
                                        Some(record) => Some(*record),
                                        None => None,
                                    };
                                    if let Some(record) = offer {
                                        assert(map.entry(neighbour, to) == Some(record));
                                        let extra: usize = match record.1 {
                                            Some(next) => if next != heading { 1 } else { 0 },
                                            None => 0,
                                        };
                                        assert(extra == turn_cost(heading, record.1));
                                        let candidate: usize = record.0 + extra;
                                        if candidate < count {
                                            let better = match map.get(cell, to) {
                                                Some(current) => candidate < current.0,
                                                None => true,
                                            };
                                            if better {
                                                let ghost before = map;
                                                proof {
                                                    map.lemma_slot_bound(cell, to);
                                                    lemma_turn_potential_falls(map.table@, count as nat, map.slot(cell, to), (candidate, Some(heading)));
                                                    let k = choose|k: nat| self.route(neighbour, to, record.0 as nat, record.1, k);
                                                    self.lemma_route_step(cell, heading, to, record.0 as nat, record.1, k);
                                                    assert(self.routed(cell, to, candidate as nat, Some(heading)));
                                                }
                                                map.insert(cell, to, (candidate, Some(heading)));
                                                changed = true;
                                                proof {
                                                    assert(cell != to);
                                                    assert(cell != neighbour);
                                                    assert forall|a: Position, b: Position|
                                                        match #[trigger] map.entry(a, b) {
                                                            Some(r) => self.routed(a, b, r.0 as nat, r.1) && r.0 < self.cell_count(),
                                                            None => true,
                                                        } by {
                                                        if a != cell || b != to {
                                                            assert(map.entry(a, b) == before.entry(a, b));
                                                        }
                                                    }
                                                    assert forall|a: Position| self.is_free(a) implies #[trigger] map.entry(a, a) == Some((0usize, None::<Direction>)) by {
                                                        assert(map.entry(a, a) == before.entry(a, a));
                                                    }
                                                    assert forall|a: Position, b: Position|
                                                        match #[trigger] map.entry(a, b) {
                                                            Some(r) => match r.1 {
                                                                Some(h) => match map.entry(a.spec_step(h), b) {
                                                                    Some(next) => next.0 + turn_cost(h, next.1) <= r.0,
                                                                    None => false,
                                                                },
                                                                None => true,
                                                            },
                                                            None => true,
                                                        } by {
                                                        if a != cell || b != to {
                                                            assert(map.entry(a, b) == before.entry(a, b));
                                                            match before.entry(a, b) {
                                                                Some(r) => match r.1 {
                                                                    Some(h) => {
                                                                        if a.spec_step(h) != cell || b != to {
                                                                            assert(map.entry(a.spec_step(h), b) == before.entry(a.spec_step(h), b));
                                                                        }
                                                                    },
                                                                    None => {},
                                                                },
                                                                None => {},
                                                            }
                                                        } else {
                                                            assert(map.entry(neighbour, to) == before.entry(neighbour, to));
                                                        }
                                                    }
                                                }
                                            }
                                        }
                                    }
                                    di += 1;
                                }
                                proof {
                                    if !changed {
                                        assert forall|to: Position| #[trigger] self.turns_relaxed(map, cell, heading, to) by {
                                            if self.contains(to) {
                                                self.lemma_indices();
                                                lemma_cell_index_injective(positions@[cell_index(to, self.cols as int)], to, self.rows as int, self.cols as int);
                                                assert(self.turns_relaxed(map, cell, heading, positions@[cell_index(to, self.cols as int)]));
                                            }
                                        }
                                    }
                                }
                            }
                        }
                        proof {
                            if !changed {
                                assert forall|other: Direction, to: Position|
                                    self.is_free(cell.spec_step(other)) && (exists|j: int| 0 <= j < ni + 1 && around@[j] == cell.spec_step(other))
                                    implies #[trigger] self.turns_relaxed(map, cell, other, to) by {
                                    let j = choose|j: int| 0 <= j < ni + 1 && around@[j] == cell.spec_step(other);
                                    if j == ni {
                                        assert(toward == Some(other));
                                    }
                                }
                            }
                        }
                        ni += 1;
                    }
                    proof {
                        if !changed {
                            assert forall|heading: Direction, to: Position| self.is_free(cell.spec_step(heading))
                                implies #[trigger] self.turns_relaxed(map, cell, heading, to) by {
                                assert(self.contains(cell.spec_step(heading)));
                                let j = choose|j: int| 0 <= j < around@.len() && around@[j] == cell.spec_step(heading);
                            }
                            assert(self.turns_closed_at(map, cell));
                        }
                    }
                }
                pi += 1;
            }
            proof {
                if !changed {
                    assert forall|cell: Position| self.is_free(cell) implies #[trigger] self.turns_closed_at(map, cell) by {
                        self.lemma_indices();
                        lemma_cell_index_injective(positions@[cell_index(cell, self.cols as int)], cell, self.rows as int, self.cols as int);
                    }
                }
            }
        }
        proof {
            self.lemma_turns_within(map);
        }
        map
    }
}

} // verus!
