use wordcrossing::generator::LevelGenerator;
use wordcrossing::grid::{Entity, Grid};
use wordcrossing::position::{Direction, Position};
use wordcrossing::solver::{Solution, SolutionWord};
use wordcrossing::words::{LoadWordsError, WordConstraint, WordList};

fn at(row: isize, col: isize) -> Position {
    Position::new(row, col)
}

fn words(list: &[&str]) -> Vec<String> {
    list.iter().map(|word| word.to_string()).collect()
}

#[test]
fn word_list_folds_case_and_drops_repeats() {
    let list = WordList::from_words(words(&["CAT", "cat", "Dog", "bird"]));
    assert_eq!(list.size(), 3);
    assert!(list.is_word_valid(&"cat".to_string()));
    assert!(list.is_word_valid(&"dog".to_string()));
    assert!(!list.is_word_valid(&"CAT".to_string()));
    assert!(!list.is_word_valid(&"cow".to_string()));
    assert_eq!(WordList::from_words(Vec::new()).size(), 0);
}

#[test]
fn word_list_from_json_text() {
    let list = WordList::from_json("[\"Cat\", \"dog\"]").unwrap();
    assert_eq!(list.size(), 2);
    assert!(list.is_word_valid(&"cat".to_string()));
    assert!(matches!(WordList::from_json("{\"a\": 1}"), Err(LoadWordsError::ParseError)));
    assert!(matches!(WordList::from_json("not json"), Err(LoadWordsError::ParseError)));
}

#[test]
fn frequencies_list_every_letter_once() {
    let list = WordList::from_words(words(&["aba", "cab"]));
    let mut counts = list.frequencies();
    counts.sort();
    assert_eq!(counts, vec![('a', 3), ('b', 2), ('c', 1)]);
    assert!(WordList::from_words(Vec::new()).frequencies().is_empty());
}

#[test]
fn constraints_on_a_word() {
    let cat = "cat".to_string();
    assert!(WordConstraint::Length(3).satisfies(&cat));
    assert!(!WordConstraint::Length(4).satisfies(&cat));
    assert!(WordConstraint::CharAt(0, 'c').satisfies(&cat));
    assert!(WordConstraint::CharAt(2, 't').satisfies(&cat));
    assert!(!WordConstraint::CharAt(2, 'c').satisfies(&cat));
    assert!(!WordConstraint::CharAt(3, 't').satisfies(&cat));
    assert!(matches!(WordConstraint::Length(3).duplicate(), WordConstraint::Length(3)));
}

#[test]
fn constrained_words_meet_every_constraint() {
    let list = WordList::from_words(words(&["cat", "cot", "dog", "cart", "at"]));
    let mut found = list.find_constrained_words(vec![WordConstraint::Length(3), WordConstraint::CharAt(0, 'c')]);
    found.sort();
    assert_eq!(found, words(&["cat", "cot"]));
    let mut any = list.find_constrained_words(Vec::new());
    any.sort();
    assert_eq!(any, words(&["at", "cart", "cat", "cot", "dog"]));
    assert!(list.find_constrained_words(vec![WordConstraint::Length(7)]).is_empty());
    assert_eq!(list.find_constrained_words(vec![WordConstraint::CharAt(3, 't')]), words(&["cart"]));
}

#[test]
fn solution_word_letters() {
    let word = SolutionWord { start: at(0, 0), end: at(0, 2), word: "cat".to_string() };
    assert_eq!(word.first_letter(), 'c');
    assert_eq!(word.last_letter(), 't');
}

#[test]
fn solution_steps_through_its_segments() {
    let mut solution = Solution::new(vec![(at(0, 0), at(0, 2)), (at(0, 2), at(2, 2))]);
    assert!(!solution.is_complete());
    assert!(solution.last_word().is_none());
    assert_eq!(solution.next_segment(), Some((at(0, 0), at(0, 2))));
    let first = solution.next_constraints();
    assert_eq!(first.len(), 1);
    assert!(matches!(first[0], WordConstraint::Length(3)));
    solution.add_word(&"cat".to_string());
    assert_eq!(solution.last_word().unwrap().word, "cat");
    assert_eq!(solution.next_segment(), Some((at(0, 2), at(2, 2))));
    let second = solution.next_constraints();
    assert_eq!(second.len(), 2);
    assert!(matches!(second[0], WordConstraint::Length(3)));
    assert!(matches!(second[1], WordConstraint::CharAt(0, 't')));
    solution.add_word(&"tar".to_string());
    assert!(solution.is_complete());
    assert_eq!(solution.next_segment(), None);
    assert!(solution.next_constraints().is_empty());
    solution.add_word(&"extra".to_string());
    assert_eq!(solution.all_words(), vec![&"cat".to_string(), &"tar".to_string()]);
}

#[test]
fn next_constraints_pin_the_shared_end() {
    let mut solution = Solution::new(vec![(at(0, 2), at(2, 2)), (at(0, 0), at(0, 2))]);
    solution.add_word(&"tar".to_string());
    let shared = solution.next_constraints();
    assert!(matches!(shared[1], WordConstraint::CharAt(2, 't')));
    let mut other = Solution::new(vec![(at(0, 0), at(0, 2)), (at(0, 0), at(3, 0))]);
    other.add_word(&"cat".to_string());
    let shared = other.next_constraints();
    assert!(matches!(shared[0], WordConstraint::Length(4)));
    assert!(matches!(shared[1], WordConstraint::CharAt(0, 'c')));
    let mut last = Solution::new(vec![(at(1, 2), at(3, 2)), (at(3, 0), at(3, 2))]);
    last.add_word(&"cat".to_string());
    let shared = last.next_constraints();
    assert!(matches!(shared[1], WordConstraint::CharAt(2, 't')));
}

#[test]
fn attempt_solve_chains_the_words() {
    let list = WordList::from_words(words(&["cat", "tar", "rat", "dog"]));
    for _ in 0..20 {
        let mut solution = Solution::new(vec![(at(0, 0), at(0, 2)), (at(0, 2), at(2, 2))]);
        match solution.attempt_solve(&list, 5) {
            Some(()) => {
                assert!(solution.is_complete());
                let found = solution.all_words();
                assert_eq!(found.len(), 2);
                assert_eq!(found[0].len(), 3);
                assert_eq!(found[1].len(), 3);
                assert_eq!(found[0].chars().last(), found[1].chars().next());
            },
            None => {
                assert!(!solution.is_complete());
                assert_eq!(solution.all_words(), vec![&"dog".to_string()]);
            },
        }
    }
}

#[test]
fn attempt_solve_gives_up_without_candidates() {
    let list = WordList::from_words(words(&["cat"]));
    let mut solution = Solution::new(vec![(at(0, 0), at(0, 3))]);
    assert_eq!(solution.attempt_solve(&list, 3), None);
    assert!(solution.all_words().is_empty());
    let mut idle = Solution::new(vec![(at(0, 0), at(0, 2))]);
    assert_eq!(idle.attempt_solve(&list, 0), None);
    assert!(idle.all_words().is_empty());
    let mut done = Solution::new(Vec::new());
    assert_eq!(done.attempt_solve(&list, 1), Some(()));
    assert_eq!(done.attempt_solve(&list, 0), Some(()));
    assert!(done.all_words().is_empty());
    let mut empty = Solution::new(Vec::new());
    assert_eq!(empty.attempt_solve(&WordList::from_words(Vec::new()), 0), Some(()));
    assert!(empty.all_words().is_empty());
}

#[test]
fn segments_put_the_smaller_end_first() {
    let segments = LevelGenerator::extract_segments(vec![at(2, 2), at(0, 2), at(0, 0), at(1, 0)]);
    assert_eq!(segments, vec![(at(0, 2), at(2, 2)), (at(0, 0), at(0, 2)), (at(0, 0), at(1, 0))]);
    for (first, second) in segments {
        assert!(first <= second);
    }
    assert!(LevelGenerator::extract_segments(vec![at(1, 1)]).is_empty());
    assert!(LevelGenerator::extract_segments(Vec::new()).is_empty());
}

#[test]
fn a_row_of_three_is_filled_with_cat() {
    let generator = LevelGenerator::from_grid(Grid::new(1, 3), 0);
    let mut space = generator.free_space.clone();
    space.sort();
    assert_eq!(space, vec![at(0, 0), at(0, 1), at(0, 2)]);
    assert_eq!(generator.distance_map.get(at(0, 0), at(0, 2)), Some(&2));
    assert_eq!(generator.turns_map.get(at(0, 0), at(0, 2)), Some(&(0, Some(Direction::Right))));
    let junctions = generator.find_path_junctions(at(0, 0), at(0, 2)).unwrap();
    assert_eq!(junctions, vec![at(0, 0), at(0, 2)]);
    let segments = LevelGenerator::extract_segments(junctions);
    assert_eq!(segments, vec![(at(0, 0), at(0, 2))]);
    let list = WordList::from_words(words(&["cat"]));
    let mut solution = Solution::new(segments);
    assert_eq!(solution.attempt_solve(&list, 1), Some(()));
    assert_eq!(solution.all_words(), vec![&"cat".to_string()]);
}

#[test]
fn a_walled_cell_gives_no_level() {
    let mut grid = Grid::new(1, 1);
    grid.set_positions(vec![at(0, 0)], Entity::Wall);
    let generator = LevelGenerator::from_grid(grid, 0);
    assert!(generator.free_space.is_empty());
    assert_eq!(generator.choose_start_and_goal(), None);
    let list = WordList::from_words(words(&["cat"]));
    assert!(generator.attempt_generate_level(&list, 20).is_none());
}

#[test]
fn junctions_mark_the_turns() {
    let mut grid = Grid::new(3, 3);
    grid.set_positions(vec![at(0, 1), at(1, 1)], Entity::Wall);
    let generator = LevelGenerator::from_grid(grid, 0);
    let junctions = generator.find_path_junctions(at(0, 0), at(0, 2)).unwrap();
    assert_eq!(junctions, vec![at(0, 0), at(2, 0), at(2, 2), at(0, 2)]);
    assert_eq!(generator.find_path_junctions(at(0, 0), at(0, 0)), Some(vec![at(0, 0), at(0, 0)]));
    assert_eq!(generator.find_path_junctions(at(0, 0), at(1, 1)), None);
    assert_eq!(generator.find_path_junctions(at(0, 0), at(9, 9)), None);
}

#[test]
fn start_and_goal_are_two_free_cells() {
    let generator = LevelGenerator::from_grid(Grid::new(3, 3), 2);
    let mut starts = Vec::new();
    for _ in 0..100 {
        let (start, goal) = generator.choose_start_and_goal().unwrap();
        assert_ne!(start, goal);
        assert!(generator.free_space.contains(&start));
        assert!(generator.free_space.contains(&goal));
        if !starts.contains(&start) {
            starts.push(start);
        }
    }
    assert!(starts.len() > 1);
    let single = LevelGenerator::from_grid(Grid::new(1, 1), 0);
    assert_eq!(single.choose_start_and_goal(), None);
}

#[test]
fn goal_comes_from_the_far_third() {
    let generator = LevelGenerator::from_grid(Grid::new(1, 7), 0);
    for _ in 0..100 {
        let (start, goal) = generator.choose_start_and_goal().unwrap();
        let mut ranks: Vec<usize> = generator
            .free_space
            .iter()
            .filter(|cell| **cell != start)
            .map(|cell| start.manhattan_distance(*cell))
            .collect();
        ranks.sort();
        assert!(start.manhattan_distance(goal) >= ranks[4]);
    }
}

#[test]
fn generated_levels_hold_chained_words() {
    let list = WordList::from_words(words(&[
        "at", "to", "on", "no", "art", "tar", "rat", "tan", "ant", "net", "ten", "oat", "tone", "note", "neat", "rant", "torn", "earn",
        "near", "tare", "rate", "tear", "aorta", "otter", "eaten", "tenor", "toner", "arena",
    ]));
    let mut made = 0;
    for _ in 0..60 {
        let generator = LevelGenerator::from_grid(Grid::new(4, 4), 3);
        if let Some(level) = generator.attempt_generate_level(&list, 3) {
            made += 1;
            assert_ne!(level.start, level.goal);
            assert!(generator.free_space.contains(&level.start));
            assert!(generator.free_space.contains(&level.goal));
            let junctions = generator.find_path_junctions(level.start, level.goal).unwrap();
            let segments = LevelGenerator::extract_segments(junctions);
            assert_eq!(level.words.len(), segments.len());
            for (word, segment) in level.words.iter().zip(segments.iter()) {
                assert_eq!(word.len(), segment.0.manhattan_distance(segment.1) + 1);
            }
            assert_eq!(level.grid.cells, generator.grid.cells);
        }
    }
    assert!(made > 0);
}

#[test]
fn a_row_of_three_always_gives_a_level() {
    let list = WordList::from_words(words(&["at", "cat"]));
    for _ in 0..30 {
        let generator = LevelGenerator::from_grid(Grid::new(1, 3), 0);
        let level = generator.attempt_generate_level(&list, 1).unwrap();
        assert_eq!(level.words.len(), 1);
        let cells = level.start.manhattan_distance(level.goal) + 1;
        assert_eq!(level.words[0].len(), cells);
        assert!(generator.attempt_generate_level(&list, 0).is_none());
    }
    let empty = WordList::from_words(Vec::new());
    let generator = LevelGenerator::from_grid(Grid::new(1, 3), 0);
    assert!(generator.attempt_generate_level(&empty, 4).is_none());
}

#[test]
fn attempt_solve_takes_only_words_of_the_dictionary() {
    let list = WordList::from_words(words(&["cat", "tops", "mops"]));
    for _ in 0..20 {
        let mut solution = Solution::new(vec![(at(0, 0), at(0, 2)), (at(0, 2), at(3, 2))]);
        assert_eq!(solution.attempt_solve(&list, 1), Some(()));
        assert_eq!(solution.all_words(), vec![&"cat".to_string(), &"tops".to_string()]);
        for word in solution.all_words() {
            assert!(list.is_word_valid(word));
        }
    }
    let short = WordList::from_words(words(&["ab", "abcd"]));
    let mut solution = Solution::new(vec![(at(0, 0), at(0, 2))]);
    assert_eq!(solution.attempt_solve(&short, 3), None);
    assert!(solution.all_words().is_empty());
    assert!(!solution.is_complete());
}

#[test]
fn commit_choice_takes_the_drawn_candidate() {
    let candidates = words(&["cat", "cot"]);
    let mut solution = Solution::new(vec![(at(0, 0), at(0, 2))]);
    assert!(!solution.commit_choice(&candidates, None));
    assert!(solution.all_words().is_empty());
    assert!(solution.commit_choice(&candidates, Some(1)));
    assert_eq!(solution.all_words(), vec![&"cot".to_string()]);
}

#[test]
fn a_fresh_grid_keeps_free_cells() {
    for walls in 0..9 {
        let generator = LevelGenerator::from_grid(Grid::new(3, 3), walls);
        assert!(!generator.free_space.is_empty());
    }
    let full = LevelGenerator::from_grid(Grid::new(3, 3), 9);
    assert!(full.free_space.is_empty());
}

#[test]
fn junctions_bound_straight_runs_and_counts_fall() {
    for round in 0..20 {
        let generator = LevelGenerator::from_grid(Grid::new(5, 5), 3 + round % 6);
        for start in generator.free_space.iter() {
            for goal in generator.free_space.iter() {
                let record = *generator.turns_map.get(*start, *goal).unwrap();
                if let Some(heading) = record.1 {
                    let next = start.step_in_direction(heading);
                    assert!(generator.grid.is_open(next));
                    assert!(generator.turns_map.get(next, *goal).unwrap().0 <= record.0);
                }
                let junctions = generator.find_path_junctions(*start, *goal).unwrap();
                assert_eq!(junctions[0], *start);
                assert_eq!(junctions[junctions.len() - 1], *goal);
                for pair in junctions.windows(2) {
                    assert!(pair[0].row == pair[1].row || pair[0].col == pair[1].col);
                    let steps = pair[0].manhattan_distance(pair[1]);
                    let row_step = (pair[1].row - pair[0].row).signum();
                    let col_step = (pair[1].col - pair[0].col).signum();
                    for k in 0..=steps as isize {
                        assert!(generator.grid.is_open(Position::new(pair[0].row + k * row_step, pair[0].col + k * col_step)));
                    }
                }
            }
        }
    }
}
