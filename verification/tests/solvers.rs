use advent::day17::Direction;
use advent::day17::GridIndex;
use advent::day17::State;
use advent::day4::Scratch;

#[test]
fn calibration_sum_of_plain_digits() {
    let content = "1abc2\npqr3stu8vwx\na1b2c3d4e5f\ntreb7uchet".to_string();
    assert_eq!(advent::day1::solve_part1(content), 142);
}

#[test]
fn calibration_sum_with_spelled_digits() {
    let content = "two1nine\neightwothree\nabcone2threexyz\nxtwone3four\n4nineeightseven2\nzoneight234\n7pqrstsixteen"
        .to_string();
    assert_eq!(advent::day1::solve_part2(content), 281);
}

#[test]
fn calibration_line_without_digits_is_refused() {
    assert_eq!(advent::day1::try_solve_part1("abc"), None);
}

#[test]
fn digits_are_found_in_order() {
    assert_eq!(advent::day1::find_digits("a1b2c3"), vec![1, 2, 3]);
    assert_eq!(advent::day1::find_digits("xyz"), Vec::<i32>::new());
}

#[test]
fn first_and_last_digit_combine() {
    assert_eq!(advent::day1::combine_first_and_last(vec![7]), 77);
    assert_eq!(advent::day1::combine_first_and_last(vec![1, 5, 2]), 12);
}

#[test]
fn cube_draws_are_counted_but_empty() {
    let draws = advent::day2::parse_line("Game 1: 3 blue, 4 red; 1 red, 2 green; 2 green");
    assert_eq!(draws.len(), 3);
    assert_eq!(draws[0].red, 0);
    assert_eq!(advent::day2::solve_part1("Game 1: 3 blue".to_string()), 0);
    assert_eq!(advent::day2::solve_part2("Game 1: 3 blue".to_string()), 0);
}

#[test]
fn scratch_card_scores_its_matches() {
    let card = advent::day4::parse_line("Card 1: 41 48 83 86 17 | 83 86  6 31 17  9 48 53");
    assert_eq!(card.winners(), 4);
    assert_eq!(card.score(), 8);
}

#[test]
fn scratch_card_without_matches_scores_nothing() {
    let card = Scratch { winning: vec![1, 2], numbers: vec![3, 4] };
    assert_eq!(card.winners(), 0);
    assert_eq!(card.score(), 0);
}

#[test]
fn scratch_numbers_are_read() {
    assert_eq!(advent::day4::parse_number_string(" 41 48 83"), vec![41, 48, 83]);
}

#[test]
fn scratch_points_add_up() {
    let content = "Card 1: 41 48 83 86 17 | 83 86  6 31 17  9 48 53\n\
Card 2: 13 32 20 16 61 | 61 30 68 82 17 32 24 19\n\
Card 3:  1 21 53 59 44 | 69 82 63 72 16 21 14  1\n\
Card 4: 41 92 73 84 69 | 59 84 76 51 58  5 54 83\n\
Card 5: 87 83 26 28 32 | 88 30 70 12 93 22 82 36\n\
Card 6: 31 18 13 56 72 | 74 77 10 23 35 67 36 11"
        .to_string();
    assert_eq!(advent::day4::solve_part1(content), 13);
}

#[test]
fn scratch_copies_breed() {
    let content = "Card 1: 41 48 83 86 17 | 83 86  6 31 17  9 48 53\n\
Card 2: 13 32 20 16 61 | 61 30 68 82 17 32 24 19\n\
Card 3:  1 21 53 59 44 | 69 82 63 72 16 21 14  1\n\
Card 4: 41 92 73 84 69 | 59 84 76 51 58  5 54 83\n\
Card 5: 87 83 26 28 32 | 88 30 70 12 93 22 82 36\n\
Card 6: 31 18 13 56 72 | 74 77 10 23 35 67 36 11"
        .to_string();
    assert_eq!(advent::day4::solve_part2(content), 30);
}

#[test]
fn next_value_is_extrapolated() {
    assert_eq!(advent::day9::predict_next_value(vec![0, 3, 6, 9, 12, 15]), 18);
    assert_eq!(advent::day9::predict_next_value(vec![1, 3, 6, 10, 15, 21]), 28);
    assert_eq!(advent::day9::predict_next_value(vec![10, 13, 16, 21, 30, 45]), 68);
}

#[test]
fn previous_value_is_extrapolated() {
    assert_eq!(advent::day9::predict_prev_value(vec![10, 13, 16, 21, 30, 45]), 5);
}

#[test]
fn history_sums_extrapolate_both_ways() {
    let content = "0 3 6 9 12 15\n1 3 6 10 15 21\n10 13 16 21 30 45".to_string();
    assert_eq!(advent::day9::solve_part1(content.clone()), 114);
    assert_eq!(advent::day9::solve_part2(content), 2);
}

#[test]
fn too_short_history_is_refused() {
    assert_eq!(advent::day9::try_solve_part1("7"), None);
    assert_eq!(advent::day9::try_solve_part2("x y"), None);
}

#[test]
fn directions_turn_and_reverse() {
    assert_eq!(Direction::Up.turn_left(), Direction::Left);
    assert_eq!(Direction::Up.turn_right(), Direction::Right);
    assert_eq!(Direction::Left.opposite(), Direction::Right);
}

#[test]
fn grid_index_steps_stay_inside() {
    let x = GridIndex { i: 0, j: 0, rows: 2, cols: 2 };
    assert_eq!(x.step(Direction::Up), None);
    assert_eq!(x.step(Direction::Down), Some(GridIndex { i: 1, j: 0, rows: 2, cols: 2 }));
    assert_eq!(x.manhattan_distance(&GridIndex { i: 1, j: 1, rows: 2, cols: 2 }), 2);
}

#[test]
fn a_run_of_three_forbids_a_fourth_straight_step() {
    let s = State {
        position: GridIndex { i: 4, j: 4, rows: 9, cols: 9 },
        direction: Direction::Right,
        steps: 3,
    };
    let nexts = s.next_states();
    assert_eq!(nexts.len(), 2);
    for ns in nexts {
        assert_ne!(ns.direction, Direction::Right);
        assert_eq!(ns.steps, 1);
    }
}

#[test]
fn cheapest_walk_over_a_uniform_square() {
    let content = "11\n11".to_string();
    assert_eq!(advent::day17::solve_part1(content), Some(2));
}

#[test]
fn grid_cells_are_read_back() {
    let grid = advent::day17::content_to_matrix("12\n34".to_string());
    assert_eq!(grid.rows, 2);
    assert_eq!(grid.cols, 2);
    let got = grid.get(GridIndex { i: 1, j: 0, rows: 2, cols: 2 });
    assert_eq!(got.copied(), Some(3));
    assert_eq!(advent::day17::solve_part2(String::new()), 0);
}

#[test]
fn goal_beyond_a_single_row_is_never_reached() {
    // one row, two columns: the far corner asked for lies outside the row
    let content = "11".to_string();
    assert_eq!(advent::day17::solve_part1(content), None);
}

#[test]
fn largest_scratch_number_is_read() {
    assert_eq!(
        advent::day4::parse_number_string("4294967295 7"),
        vec![4294967295u32, 7]
    );
}

#[test]
fn malformed_scratch_cards_are_refused() {
    assert_eq!(advent::day4::try_solve_part1("Card 1: 1 2 3"), None);
    assert_eq!(advent::day4::try_solve_part2("no separators here"), None);
    assert_eq!(advent::day4::try_parse_numbers("4294967296"), None);
    assert_eq!(
        advent::day4::try_solve_part1("Card 1: 1 | 1"),
        Some(1)
    );
}
