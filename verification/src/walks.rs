//! Walks as sequences of cells: a walk that is longer than the grid has
//! cells passes some cell twice and can be cut short.

use vstd::prelude::*;
use vstd::set_lib::{lemma_int_range, lemma_len_subset, set_int_range};
use crate::grid::{adjacent, Grid};
use crate::layout::{cell_index, lemma_cell_index_bound, lemma_cell_index_injective};
use crate::position::{Direction, Position};

verus! {

/// Whether the cells are free and each is one step from the one before.
pub open spec fn is_walk(grid: Grid, path: Seq<Position>) -> bool {
    &&& path.len() > 0
    &&& forall|i: int| 0 <= i < path.len() ==> grid.is_free(#[trigger] path[i])
    &&& forall|i: int| 0 <= i < path.len() - 1 ==> adjacent(#[trigger] path[i], path[i + 1])
}

/// The cells of a walk of `steps` steps from `from` to `to`.
pub proof fn lemma_walk_of_reach(grid: Grid, from: Position, to: Position, steps: nat) -> (path: Seq<Position>)
    requires
        grid.reach_in(from, to, steps),
    ensures
        is_walk(grid, path),
        path.len() == steps + 1,
        path[0] == from,
        path.last() == to,
    decreases steps,
{
    if steps == 0 {
        seq![from]
    } else {
        let rest_steps = (steps - 1) as nat;
        let next = if grid.reach_in(from.spec_step(Direction::Up), to, rest_steps) {
            from.spec_step(Direction::Up)
        } else if grid.reach_in(from.spec_step(Direction::Down), to, rest_steps) {
            from.spec_step(Direction::Down)
        } else if grid.reach_in(from.spec_step(Direction::Left), to, rest_steps) {
            from.spec_step(Direction::Left)
        } else {
            from.spec_step(Direction::Right)
        };
        let rest = lemma_walk_of_reach(grid, next, to, rest_steps);
        let path = seq![from] + rest;
        assert forall|i: int| 0 <= i < path.len() implies grid.is_free(#[trigger] path[i]) by {
            if i > 0 {
                assert(path[i] == rest[i - 1]);
            }
        }
        assert forall|i: int| 0 <= i < path.len() - 1 implies adjacent(#[trigger] path[i], path[i + 1]) by {
            assert(path[i + 1] == rest[i]);
            if i > 0 {
                assert(path[i] == rest[i - 1]);
            }
        }
        assert(path.last() == rest.last());
        path
    }
}

/// The cells of a walk give a walk of as many steps as it has cells but one.
pub proof fn lemma_reach_of_walk(grid: Grid, path: Seq<Position>)
    requires
        is_walk(grid, path),
    ensures
        grid.reach_in(path[0], path.last(), (path.len() - 1) as nat),
    decreases path.len(),
{
    if path.len() > 1 {
        let rest = path.subrange(1, path.len() as int);
        assert forall|i: int| 0 <= i < rest.len() implies grid.is_free(#[trigger] rest[i]) by {
            assert(rest[i] == path[i + 1]);
        }
        assert forall|i: int| 0 <= i < rest.len() - 1 implies adjacent(#[trigger] rest[i], rest[i + 1]) by {
            assert(rest[i] == path[i + 1]);
            assert(rest[i + 1] == path[i + 2]);
        }
        lemma_reach_of_walk(grid, rest);
        assert(rest[0] == path[1]);
        assert(rest.last() == path.last());
        assert(adjacent(path[0], path[1]));
        grid.lemma_reach_step(path[0], path[1], path.last(), (rest.len() - 1) as nat);
    }
}

/// A walk with more cells than the grid has passes some cell twice.
pub proof fn lemma_walk_repeats(grid: Grid, path: Seq<Position>) -> (twice: (int, int))
    requires
        grid.wf(),
        is_walk(grid, path),
        path.len() > grid.cell_count(),
    ensures
        0 <= twice.0 < twice.1 < path.len(),
        path[twice.0] == path[twice.1],
{
    let cells = grid.cell_count();
    let numbers = Seq::new(path.len(), |i: int| cell_index(path[i], grid.cols as int));
    if numbers.no_duplicates() {
        numbers.unique_seq_to_set();
        lemma_int_range(0, cells);
        assert forall|n: int| numbers.to_set().contains(n) implies set_int_range(0, cells).contains(n) by {
            let i = choose|i: int| 0 <= i < numbers.len() && numbers[i] == n;
            assert(grid.is_free(path[i]));
            lemma_cell_index_bound(path[i], grid.rows as int, grid.cols as int);
        }
        lemma_len_subset(numbers.to_set(), set_int_range(0, cells));
        assert(false);
    }
    let pair = choose|i: int, j: int| 0 <= i < numbers.len() && 0 <= j < numbers.len() && i != j && numbers[i] == numbers[j];
    assert(grid.is_free(path[pair.0]) && grid.is_free(path[pair.1]));
    lemma_cell_index_injective(path[pair.0], path[pair.1], grid.rows as int, grid.cols as int);
    if pair.0 < pair.1 {
        pair
    } else {
        (pair.1, pair.0)
    }
}

/// Where a walk leads from one cell to another, a walk of fewer steps than
/// the grid has cells does so too.
pub proof fn lemma_shorten(grid: Grid, from: Position, to: Position, steps: nat) -> (fewer: nat)
    requires
        grid.wf(),
        grid.reach_in(from, to, steps),
    ensures
        grid.reach_in(from, to, fewer),
        fewer <= steps,
        fewer < grid.cell_count(),
    decreases steps,
{
    if steps < grid.cell_count() {
        steps
    } else {
        let path = lemma_walk_of_reach(grid, from, to, steps);
        let twice = lemma_walk_repeats(grid, path);
        let i = twice.0;
        let j = twice.1;
        let head = path.subrange(0, i + 1);
        let tail = path.subrange(j + 1, path.len() as int);
        let cut = head + tail;
        assert forall|k: int| 0 <= k < cut.len() implies grid.is_free(#[trigger] cut[k]) by {
            if k <= i {
                assert(cut[k] == path[k]);
            } else {
                assert(cut[k] == path[k + (j - i)]);
            }
        }
        assert forall|k: int| 0 <= k < cut.len() - 1 implies adjacent(#[trigger] cut[k], cut[k + 1]) by {
            if k < i {
                assert(cut[k] == path[k]);
                assert(cut[k + 1] == path[k + 1]);
            } else if k == i {
                assert(cut[k] == path[i]);
                assert(cut[k + 1] == path[j + 1]);
                assert(adjacent(path[j], path[j + 1]));
            } else {
                assert(cut[k] == path[k + (j - i)]);
                assert(cut[k + 1] == path[k + (j - i) + 1]);
                assert(adjacent(path[k + (j - i)], path[k + (j - i) + 1]));
            }
        }
        assert(cut[0] == path[0]);
        assert(cut.last() == path.last()) by {
            if tail.len() > 0 {
                assert(cut[cut.len() - 1] == path[cut.len() - 1 + (j - i)]);
            } else {
                assert(cut[cut.len() - 1] == path[i]);
            }
        }
        lemma_reach_of_walk(grid, cut);
        lemma_shorten(grid, from, to, (cut.len() - 1) as nat)
    }
}

} // verus!
