use wordcrossing::edge_map::EdgeMap;
use wordcrossing::grid::{Entity, Grid, Level};
use wordcrossing::position::{direction_delta, Direction, Position};

fn p(row: isize, col: isize) -> Position {
    Position::new(row, col)
}

fn sorted(mut cells: Vec<Position>) -> Vec<Position> {
    cells.sort();
    cells
}

#[test]
fn position_new_keeps_coordinates() {
    let position = Position::new(3, -4);
    assert_eq!(position.row, 3);
    assert_eq!(position.col, -4);
}

#[test]
fn position_key_joins_row_and_column() {
    assert_eq!(p(3, -4).to_key(), "3_-4");
    assert_eq!(p(0, 12).to_key(), "0_12");
}

#[test]
fn position_bounds() {
    assert!(p(0, 0).is_within_bounds(1, 1));
    assert!(!p(1, 0).is_within_bounds(1, 1));
    assert!(!p(0, -1).is_within_bounds(3, 3));
    assert!(p(2, 2).is_within_bounds(3, 3));
    assert!(!p(2, 3).is_within_bounds(3, 3));
}

#[test]
fn direction_deltas() {
    assert_eq!(direction_delta(Direction::Up), p(-1, 0));
    assert_eq!(direction_delta(Direction::Down), p(1, 0));
    assert_eq!(direction_delta(Direction::Left), p(0, -1));
    assert_eq!(direction_delta(Direction::Right), p(0, 1));
}

#[test]
fn steps_and_neighbours() {
    let at = p(2, 5);
    assert_eq!(at.step_in_direction(Direction::Up), p(1, 5));
    assert_eq!(at.step_in_direction(Direction::Right), p(2, 6));
    assert_eq!(at.neighbours(), vec![p(1, 5), p(3, 5), p(2, 4), p(2, 6)]);
}

#[test]
fn manhattan_distance_adds_both_gaps() {
    assert_eq!(p(0, 0).manhattan_distance(p(0, 2)), 2);
    assert_eq!(p(-2, 3).manhattan_distance(p(1, -1)), 7);
    assert_eq!(p(4, 4).manhattan_distance(p(4, 4)), 0);
}

#[test]
fn direction_to_a_neighbour_only() {
    let at = p(1, 1);
    assert_eq!(at.direction_to_position(p(0, 1)), Some(Direction::Up));
    assert_eq!(at.direction_to_position(p(2, 1)), Some(Direction::Down));
    assert_eq!(at.direction_to_position(p(1, 0)), Some(Direction::Left));
    assert_eq!(at.direction_to_position(p(1, 2)), Some(Direction::Right));
    assert_eq!(at.direction_to_position(p(1, 1)), None);
    assert_eq!(at.direction_to_position(p(3, 1)), None);
}

#[test]
fn positions_are_ordered_row_first() {
    assert!(p(0, 5).precedes(p(1, 0)));
    assert!(p(1, 0).precedes(p(1, 0)));
    assert!(!p(1, 1).precedes(p(1, 0)));
    assert!(p(0, 5) < p(1, 0));
}

#[test]
fn new_grid_is_empty() {
    let grid = Grid::new(2, 3);
    assert_eq!(grid.rows, 2);
    assert_eq!(grid.cols, 3);
    for position in grid.all_positions() {
        assert_eq!(grid.entity(position), Entity::Nothing);
    }
    assert_eq!(grid.entity(p(5, 5)), Entity::Nothing);
}

#[test]
fn all_positions_run_row_by_row() {
    let grid = Grid::new(2, 2);
    assert_eq!(grid.all_positions(), vec![p(0, 0), p(0, 1), p(1, 0), p(1, 1)]);
    assert!(Grid::new(0, 4).all_positions().is_empty());
}

#[test]
fn entities_are_written_in_order() {
    let mut grid = Grid::new(2, 2);
    grid.add_entities(vec![(p(0, 0), Entity::Wall), (p(0, 0), Entity::Letter('a')), (p(7, 7), Entity::Wall)]);
    assert_eq!(grid.entity(p(0, 0)), Entity::Letter('a'));
    assert_eq!(grid.entity(p(0, 1)), Entity::Nothing);
    grid.set_positions(vec![p(0, 1), p(1, 1), p(-1, 0)], Entity::Wall);
    assert_eq!(grid.entity(p(0, 1)), Entity::Wall);
    assert_eq!(grid.entity(p(1, 1)), Entity::Wall);
    assert_eq!(grid.entity(p(1, 0)), Entity::Nothing);
    assert_eq!(grid.entity(p(0, 0)), Entity::Letter('a'));
    assert!(grid.is_open(p(0, 0)));
    assert!(!grid.is_open(p(0, 1)));
    assert!(!grid.is_open(p(2, 0)));
}

#[test]
fn valid_neighbours_stay_inside() {
    let grid = Grid::new(2, 3);
    assert_eq!(grid.valid_neighbours(p(0, 0)), vec![p(1, 0), p(0, 1)]);
    assert_eq!(grid.valid_neighbours(p(1, 1)), vec![p(0, 1), p(1, 0), p(1, 2)]);
    assert_eq!(grid.valid_neighbours(p(5, 5)), Vec::<Position>::new());
}

#[test]
fn explore_section_stops_at_walls() {
    let mut grid = Grid::new(3, 3);
    grid.set_positions(vec![p(0, 1), p(1, 1), p(2, 1)], Entity::Wall);
    assert_eq!(sorted(grid.explore_section(p(0, 0))), vec![p(0, 0), p(1, 0), p(2, 0)]);
    assert_eq!(sorted(grid.explore_section(p(2, 2))), vec![p(0, 2), p(1, 2), p(2, 2)]);
    assert!(grid.explore_section(p(1, 1)).is_empty());
}

#[test]
fn walled_single_cell_has_no_section() {
    let mut grid = Grid::new(1, 1);
    grid.set_positions(vec![p(0, 0)], Entity::Wall);
    assert!(grid.explore_section(p(0, 0)).is_empty());
    assert!(grid.find_connected_sections().is_empty());
    assert!(grid.free_space().is_empty());
    assert!(grid.initialise_walls(0).is_empty());
    assert_eq!(grid.entity(p(0, 0)), Entity::Wall);
}

#[test]
fn sections_split_the_free_cells() {
    let mut grid = Grid::new(3, 3);
    grid.set_positions(vec![p(0, 1), p(1, 1), p(2, 1), p(1, 2)], Entity::Wall);
    let sections = grid.find_connected_sections();
    assert_eq!(sections.len(), 3);
    assert_eq!(sorted(sections[0].clone()), vec![p(0, 0), p(1, 0), p(2, 0)]);
    assert_eq!(sections[1], vec![p(0, 2)]);
    assert_eq!(sections[2], vec![p(2, 2)]);
    assert_eq!(grid.free_space(), vec![p(0, 0), p(0, 2), p(1, 0), p(2, 0), p(2, 2)]);
}

#[test]
fn randomise_walls_places_the_asked_number() {
    for wanted in 0..=6 {
        let mut grid = Grid::new(2, 3);
        grid.randomise_walls(wanted);
        let walls = grid.all_positions().into_iter().filter(|at| grid.entity(*at) == Entity::Wall).count();
        assert_eq!(walls, wanted);
    }
    let mut grid = Grid::new(2, 3);
    grid.randomise_walls(40);
    assert!(grid.free_space().is_empty());
}

#[test]
fn randomise_walls_varies_the_place() {
    let mut seen_elsewhere = false;
    for _ in 0..200 {
        let mut grid = Grid::new(1, 10);
        grid.randomise_walls(1);
        if grid.entity(p(0, 0)) != Entity::Wall {
            seen_elsewhere = true;
        }
    }
    assert!(seen_elsewhere);
}

#[test]
fn initialise_walls_leaves_one_region() {
    for round in 0..40 {
        let mut grid = Grid::new(5, 5);
        let space = grid.initialise_walls(4 + round % 9);
        let sections = grid.find_connected_sections();
        assert_eq!(sections.len(), 1);
        assert_eq!(sorted(sections[0].clone()), sorted(space.clone()));
        assert_eq!(sorted(grid.free_space()), sorted(space));
    }
}

#[test]
fn initialise_walls_keeps_the_largest_region() {
    let mut grid = Grid::new(3, 3);
    grid.set_positions(vec![p(0, 1), p(1, 1), p(2, 1), p(1, 2)], Entity::Wall);
    let space = grid.initialise_walls(0);
    assert_eq!(sorted(space), vec![p(0, 0), p(1, 0), p(2, 0)]);
    assert_eq!(grid.entity(p(0, 2)), Entity::Wall);
    assert_eq!(grid.entity(p(2, 2)), Entity::Wall);
}

#[test]
fn empty_edge_map_has_no_entry() {
    let map: EdgeMap<usize> = EdgeMap::new();
    assert_eq!(map.get(p(0, 0), p(0, 0)), None);
}

#[test]
fn edge_map_keeps_what_is_inserted() {
    let mut map: EdgeMap<usize> = EdgeMap::sized(2, 2);
    assert_eq!(map.get(p(0, 1), p(1, 0)), None);
    map.insert(p(0, 1), p(1, 0), 7);
    assert_eq!(map.get(p(0, 1), p(1, 0)), Some(&7));
    assert_eq!(map.get(p(1, 0), p(0, 1)), None);
    assert_eq!(map.get(p(0, 1), p(2, 0)), None);
}

#[test]
fn distance_map_of_a_row() {
    let grid = Grid::new(1, 3);
    let map = grid.generate_distance_map();
    assert_eq!(map.get(p(0, 0), p(0, 2)), Some(&2));
    assert_eq!(map.get(p(0, 2), p(0, 0)), Some(&2));
    assert_eq!(map.get(p(0, 1), p(0, 1)), Some(&0));
    assert_eq!(map.get(p(0, 0), p(0, 1)), Some(&1));
}

#[test]
fn distance_map_goes_round_walls() {
    let mut grid = Grid::new(3, 3);
    grid.set_positions(vec![p(0, 1), p(1, 1)], Entity::Wall);
    let map = grid.generate_distance_map();
    assert_eq!(map.get(p(0, 0), p(0, 2)), Some(&6));
    assert_eq!(map.get(p(0, 2), p(0, 0)), Some(&6));
    assert_eq!(map.get(p(0, 0), p(1, 1)), None);
    assert_eq!(map.get(p(1, 1), p(1, 1)), None);
    for a in grid.free_space() {
        for b in grid.free_space() {
            assert_eq!(map.get(a, b), map.get(b, a));
        }
    }
}

#[test]
fn distance_map_leaves_apart_what_walls_part() {
    let mut grid = Grid::new(1, 3);
    grid.set_positions(vec![p(0, 1)], Entity::Wall);
    let map = grid.generate_distance_map();
    assert_eq!(map.get(p(0, 0), p(0, 2)), None);
    assert_eq!(map.get(p(0, 0), p(0, 0)), Some(&0));
}

#[test]
fn turns_map_of_a_row() {
    let grid = Grid::new(1, 3);
    let map = grid.generate_turns_map();
    assert_eq!(map.get(p(0, 0), p(0, 2)), Some(&(0, Some(Direction::Right))));
    assert_eq!(map.get(p(0, 2), p(0, 0)), Some(&(0, Some(Direction::Left))));
    assert_eq!(map.get(p(0, 1), p(0, 1)), Some(&(0, None)));
}

#[test]
fn turns_map_without_obstacles_needs_one_turn_at_most() {
    let grid = Grid::new(4, 4);
    let map = grid.generate_turns_map();
    for a in grid.all_positions() {
        assert_eq!(map.get(a, a), Some(&(0, None)));
        for b in grid.all_positions() {
            let record = map.get(a, b).unwrap();
            assert!(record.0 <= 1);
            if a.row == b.row || a.col == b.col {
                assert_eq!(record.0, 0);
            } else {
                assert_eq!(record.0, 1);
            }
        }
    }
}

#[test]
fn turns_map_counts_turns_round_a_wall() {
    let mut grid = Grid::new(3, 3);
    grid.set_positions(vec![p(0, 1), p(1, 1)], Entity::Wall);
    let map = grid.generate_turns_map();
    assert_eq!(map.get(p(0, 0), p(0, 2)), Some(&(2, Some(Direction::Down))));
    assert_eq!(map.get(p(0, 0), p(2, 0)), Some(&(0, Some(Direction::Down))));
}

#[test]
fn pictures_show_walls_letters_and_ends() {
    let mut grid = Grid::new(2, 3);
    grid.add_entities(vec![(p(0, 1), Entity::Wall), (p(1, 2), Entity::Letter('x'))]);
    assert_eq!(grid.picture(), vec![vec![' ', '#', ' '], vec![' ', ' ', 'x']]);
    let level = Level { start: p(0, 0), goal: p(1, 2), words: Vec::new(), grid: grid.duplicate() };
    assert_eq!(level.picture(), vec![vec!['S', '#', ' '], vec![' ', ' ', 'G']]);
    assert_eq!(grid.duplicate().cells, grid.cells);
}

#[test]
fn positions_add_and_subtract() {
    assert_eq!(p(2, -3).plus(p(1, 5)), p(3, 2));
    assert_eq!(p(2, -3).negated(), p(-2, 3));
    assert_eq!(p(2, -3).minus(p(1, 5)), p(1, -8));
}

#[test]
fn explore_section_from_outside_the_grid() {
    let mut grid = Grid::new(2, 2);
    grid.set_positions(vec![p(0, 1)], Entity::Wall);
    assert_eq!(sorted(grid.explore_section(p(-1, 0))), vec![p(-1, 0), p(0, 0), p(1, 0), p(1, 1)]);
    assert_eq!(grid.explore_section(p(-1, 1)), vec![p(-1, 1)]);
    assert_eq!(grid.explore_section(p(-1, -1)), vec![p(-1, -1)]);
    assert_eq!(grid.explore_section(p(7, 7)), vec![p(7, 7)]);
}

#[test]
fn steps_at_the_edge_of_the_numbers() {
    let corner = p(isize::MAX, isize::MIN);
    assert_eq!(corner.step_in_direction(Direction::Up), p(isize::MAX - 1, isize::MIN));
    assert_eq!(corner.step_in_direction(Direction::Right), p(isize::MAX, isize::MIN + 1));
    assert_eq!(p(4, 4).step_in_direction(Direction::Up).step_in_direction(Direction::Down), p(4, 4));
    assert_eq!(p(4, 4).manhattan_distance(p(4, 4).step_in_direction(Direction::Left)), 1);
    assert_eq!(p(isize::MIN, 0).to_key(), format!("{}_0", isize::MIN));
}
