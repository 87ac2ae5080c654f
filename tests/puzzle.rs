use sudoku::parse::ParseError;
use sudoku::puzzle::{map_row_col_to_sqr, map_row_col_to_sqr_index, map_sqr_to_row_col};
use sudoku::{Puzzle, PuzzleState, SudokuError};

fn parse_data(data: Vec<&str>) -> Result<Puzzle, ParseError> {
    let data_string = data.iter().map(|s| s.to_string()).collect();
    Puzzle::parse_puzzle(data_string)
}

fn values(puzzle: &Puzzle) -> Vec<Option<usize>> {
    let mut out = Vec::new();
    for r in 0..9 {
        for c in 0..9 {
            out.push(puzzle.element(r, c).value());
        }
    }
    out
}

fn assert_valid_solution(puzzle: &Puzzle) {
    let v = values(puzzle);
    assert!(v.iter().all(|x| x.is_some()));
    for i in 0..81 {
        for j in 0..81 {
            if i == j {
                continue;
            }
            let (ri, ci, rj, cj) = (i / 9, i % 9, j / 9, j % 9);
            let same_block = map_row_col_to_sqr(ri, ci) == map_row_col_to_sqr(rj, cj);
            if ri == rj || ci == cj || same_block {
                assert_ne!(v[i], v[j], "cells {} and {} share a value", i, j);
            }
        }
    }
}

#[test]
fn row_col_to_sqr_index_map() {
    for x in 0..3 {
        for y in 0..3 {
            for r in 0..3 {
                for c in 0..3 {
                    assert_eq!(
                        map_row_col_to_sqr_index(r + (x * 3), c + (y * 3)),
                        (r * 3) + c
                    )
                }
            }
        }
    }
}

#[test]
fn parse_good_puzzle() {
    let good_num_cols = vec![
        "8 7 X 1 X X X X X",
        "X X 2 X X X 1 X 4",
        "X X X X 5 9 7 8 X",
        "",
        "3 X X 4 X 6 X X X",
        "X X 7 X X X 9 X X",
        "X X X 8 X 3 X X 6",
        "",
        "X 4 5 9 X X X X X",
        "2 X 3 X X X 4 X X",
        "X X X X X 7 X 5 9",
    ];

    let result = parse_data(good_num_cols);
    println!("result: {:?}", result);
    assert!(result.is_ok());
}

#[test]
fn parse_bad_puzzle() {
    let bad_num_cols = vec![
        "8 7 X 1 X X X X",
        "X X 2 X X X 1 X 4",
        "X X X X 5 9 7 8 X",
        "",
        "3 X X 4 X 6 X X X",
        "X X 7 X X X 9 X X",
        "X X X 8 X 3 X X 6",
        "",
        "X 4 5 9 X X X X X",
        "2 X 3 X X X 4 X X",
        "X X X X X 7 X 5 9",
    ];
    let result = parse_data(bad_num_cols);
    println!("result: {:?}", result);
    assert!(result.is_err());

    let bad_num_rows = vec![
        "8 7 X 1 X X X X X",
        "X X 2 X X X 1 X 4",
        "X X X X 5 9 7 8 X",
    ];
    let result = parse_data(bad_num_rows);
    println!("result: {:?}", result);
    assert!(result.is_err());

    let bad_not_valid_char = vec![
        "8 7 X 1 X X X X X",
        "X X 2 X X X 1 X 4",
        "X X X X 5 9 7 8 X",
        "",
        "3 X X 4 X 6 X X X",
        "X X 7 X X X 9 X X",
        "X X X 8 * 3 X X 6",
        "",
        "X 4 5 9 X X X X X",
        "2 X 3 X X X 4 X X",
        "X X X X X 7 X 5 9",
    ];

    let result = parse_data(bad_not_valid_char);
    println!("result: {:?}", result);
    assert!(result.is_err());

    let bad_not_valid_number1 = vec![
        "8 7 X 1 X X X X X",
        "X X 2 X X X 1 X 4",
        "X X X X 5 9 7 8 X",
        "",
        "3 X X 4 X 6 X X X",
        "X X 7 X 0 X 9 X X",
        "X X X 8 X 3 X X 6",
        "",
        "X 4 5 9 X X X X X",
        "2 X 3 X X X 4 X X",
        "X X X X X 7 X 5 9",
    ];

    let result = parse_data(bad_not_valid_number1);
    println!("result: {:?}", result);
    assert!(result.is_err());

    let bad_not_valid_number2 = vec![
        "8 7 X 1 X X X X X",
        "X X 2 X X X 1 X 4",
        "X X X X 5 9 7 8 X",
        "",
        "3 X X 4 X 6 X X X",
        "X X 7 X 10 X 9 X X",
        "X X X 8 X 3 X X 6",
        "",
        "X 4 5 9 X X X X X",
        "2 X 3 X X X 4 X X",
        "X X X X X 7 X 5 9",
    ];

    let result = parse_data(bad_not_valid_number2);
    println!("result: {:?}", result);
    assert!(result.is_err());
}

#[test]
fn solve_good_puzzles() {
    let input1 = vec![
        "8 X X X 4 6 2 9 X",
        "7 X X X X 9 X X 5",
        "X X 2 X X 5 X X X",
        "",
        "X 6 X 2 1 X 8 4 X",
        "X 2 7 X 8 X 5 3 X",
        "X 3 8 X 6 7 X 2 X",
        "",
        "X X X 4 X X 6 X X",
        "9 X X 3 X X X X X",
        "X 4 1 6 5 X X X 3",
    ];
    let mut puzzle = parse_data(input1).unwrap();
    assert!(puzzle.solve().is_ok());

    let input2 = vec![
        "5 4 X 6 X X X 2 X",
        "1 X 8 X 3 X X X 4",
        "X X 2 5 X X X 7 X",
        "",
        "X X X X X 7 2 5 X",
        "X X 5 8 X 9 4 X X",
        "X 2 6 3 X X X X X",
        "",
        "X 6 X X X 3 7 X X",
        "4 X X X 9 X 6 X 2",
        "X 8 X X X 6 X 4 5",
    ];
    let mut puzzle = parse_data(input2).unwrap();
    assert!(puzzle.solve().is_ok());

    let input3 = vec![
        "8 1 X X X X X X X",
        "X X 9 X X 4 2 8 X",
        "X X X X X 1 6 X 9",
        "5 7 X X X 9 X X 8",
        "X X X X 7 X X X X",
        "9 X X 1 X X X 5 4",
        "3 X 1 2 X X X X X",
        "X 4 6 3 X X 8 X X",
        "X X X X X X X 3 6",
    ];
    let mut puzzle = parse_data(input3).unwrap();
    assert!(puzzle.solve().is_ok());

    let input4 = vec![
        "X 3 5 X X X 9 X X",
        "X X X X 1 6 X 5 X",
        "X 2 X 4 X X 8 X X",
        "X X X 5 X 2 X X 4",
        "X X 4 X 8 X 2 X X",
        "9 X X 6 X 4 X X X",
        "X X 9 X X 5 X 8 X",
        "X 1 X 8 6 X X X X",
        "X X 6 X X X 7 2 X",
    ];
    let mut puzzle = parse_data(input4).unwrap();
    assert!(puzzle.solve().is_ok());

    let input5 = vec![
        "X X X X 4 X X X 3",
        "X X 2 X X X X 9 7",
        "X 6 X X X 3 1 2 X",
        "6 X X 8 X 9 X X 1",
        "X X 9 X X X 2 X X",
        "2 X X 3 X 6 X X 5",
        "X 1 4 6 X X X 5 X",
        "5 9 X X X X 7 X X",
        "7 X X X 1 X X X X",
    ];
    let mut puzzle = parse_data(input5).unwrap();
    assert!(puzzle.solve().is_ok());
}

fn puzzle_one() -> Vec<&'static str> {
    vec![
        "8 X X X 4 6 2 9 X",
        "7 X X X X 9 X X 5",
        "X X 2 X X 5 X X X",
        "X 6 X 2 1 X 8 4 X",
        "X 2 7 X 8 X 5 3 X",
        "X 3 8 X 6 7 X 2 X",
        "X X X 4 X X 6 X X",
        "9 X X 3 X X X X X",
        "X 4 1 6 5 X X X 3",
    ]
}

const SOLVED: [&str; 9] = [
    "5 3 4 6 7 8 9 1 2",
    "6 7 2 1 9 5 3 4 8",
    "1 9 8 3 4 2 5 6 7",
    "8 5 9 7 6 1 4 2 3",
    "4 2 6 8 5 3 7 9 1",
    "7 1 3 9 2 4 8 5 6",
    "9 6 1 5 3 7 2 8 4",
    "2 8 7 4 1 9 6 3 5",
    "3 4 5 2 8 6 1 7 9",
];

#[test]
fn zero_clues_is_unsolvable_at_once() {
    let mut puzzle = Puzzle::new_from_clues(&Vec::new());
    assert_eq!(puzzle.state(), PuzzleState::Unsolved);
    assert_eq!(puzzle.solve(), Err((SudokuError::PuzzleUnsolvable, 0)));
    assert_eq!(puzzle.state(), PuzzleState::Unsolvable);
    assert!(values(&puzzle).iter().all(|v| v.is_none()));
}

#[test]
fn one_empty_cell_is_solved_in_one_round() {
    let mut lines: Vec<String> = SOLVED.iter().map(|s| s.to_string()).collect();
    lines[4] = "4 2 6 8 X 3 7 9 1".to_string();
    let mut puzzle = Puzzle::parse_puzzle(lines).unwrap();
    assert_eq!(puzzle.state(), PuzzleState::Unsolved);
    assert_eq!(puzzle.element(4, 4).ready(), Some(4));
    assert_eq!(puzzle.solve(), Ok(1));
    assert_eq!(puzzle.state(), PuzzleState::Solved);
    assert_eq!(puzzle.element(4, 4).value(), Some(4));
}

#[test]
fn known_puzzle_is_solved_with_unique_values() {
    let mut puzzle = parse_data(puzzle_one()).unwrap();
    let given = values(&puzzle);
    let rounds = puzzle.solve().unwrap();
    assert!(rounds >= 1 && rounds <= 81);
    assert_eq!(puzzle.state(), PuzzleState::Solved);
    assert_valid_solution(&puzzle);
    let after = values(&puzzle);
    for i in 0..81 {
        if given[i].is_some() {
            assert_eq!(given[i], after[i]);
        }
    }
}

#[test]
fn duplicate_clue_in_row_is_detected() {
    let clues = vec![(0, 0, 5), (0, 1, 5)];
    let mut puzzle = Puzzle::new_from_clues(&clues);
    assert_eq!(puzzle.element(0, 0).possible().len(), 0);
    assert_eq!(puzzle.element(0, 1).possible().len(), 1);
    assert_eq!(
        puzzle.solve(),
        Err((SudokuError::PuzzleStateInconsistent(0, 0, 5), 0))
    );
    assert_eq!(puzzle.state(), PuzzleState::Unsolvable);
}

#[test]
fn rendered_solution_reads_back_solved() {
    let mut puzzle = parse_data(puzzle_one()).unwrap();
    puzzle.solve().unwrap();
    let text = puzzle.render();
    assert_eq!(text.len(), 11);
    assert_eq!(text[3], "");
    assert_eq!(text[7], "");
    let mut again = Puzzle::parse_puzzle(text).unwrap();
    assert_eq!(again.state(), PuzzleState::Solved);
    assert_eq!(values(&again), values(&puzzle));
    assert_eq!(again.solve(), Ok(0));
}

#[test]
fn render_writes_values_and_placeholders() {
    let puzzle = parse_data(puzzle_one()).unwrap();
    let text = puzzle.render();
    assert_eq!(text[0], "8 X X   X 4 6   2 9 X   ");
    assert_eq!(text[10], "X 4 1   6 5 X   X X 3   ");
}

#[test]
fn candidates_only_shrink_while_solving() {
    let mut puzzle = parse_data(puzzle_one()).unwrap();
    let before: Vec<Vec<usize>> = (0..81)
        .map(|i| puzzle.element(i / 9, i % 9).possible().iter().collect())
        .collect();
    let given = values(&puzzle);
    puzzle.solve().unwrap();
    for i in 0..81 {
        let now: Vec<usize> = puzzle.element(i / 9, i % 9).possible().iter().collect();
        assert!(now.iter().all(|v| before[i].contains(v)));
        if given[i].is_some() {
            assert_eq!(puzzle.element(i / 9, i % 9).value(), given[i]);
        }
    }
}

#[test]
fn solve_again_runs_no_round() {
    let mut puzzle = parse_data(puzzle_one()).unwrap();
    assert!(puzzle.solve().is_ok());
    assert_eq!(puzzle.solve(), Ok(0));

    let mut stuck = Puzzle::new_from_clues(&vec![(0, 0, 1)]);
    assert_eq!(stuck.solve(), Err((SudokuError::PuzzleUnsolvable, 0)));
    assert_eq!(stuck.solve(), Err((SudokuError::PuzzleUnsolvable, 0)));
}

#[test]
fn full_clues_are_solved_on_load() {
    let puzzle = Puzzle::parse_puzzle(SOLVED.iter().map(|s| s.to_string()).collect()).unwrap();
    assert_eq!(puzzle.state(), PuzzleState::Solved);
}

#[test]
fn parse_errors_name_line_and_column() {
    let mut lines: Vec<String> = SOLVED.iter().map(|s| s.to_string()).collect();
    lines[2] = "1 9 8 3 4 2 5 6".to_string();
    assert_eq!(
        Puzzle::parse_puzzle(lines).unwrap_err(),
        ParseError::ColumnCount { line: 3, count: 8 }
    );

    let mut lines: Vec<String> = SOLVED.iter().map(|s| s.to_string()).collect();
    lines[1] = "6 7 2 1 * 5 3 4 8".to_string();
    assert_eq!(
        Puzzle::parse_puzzle(lines).unwrap_err(),
        ParseError::NotANumber { line: 2, col: 5 }
    );

    let mut lines: Vec<String> = SOLVED.iter().map(|s| s.to_string()).collect();
    lines[0] = "5 3 4 6 7 8 9 1 10".to_string();
    assert_eq!(
        Puzzle::parse_puzzle(lines).unwrap_err(),
        ParseError::OutOfRange { line: 1, col: 9, value: 10 }
    );

    let mut lines: Vec<String> = SOLVED.iter().map(|s| s.to_string()).collect();
    lines[0] = "0 3 4 6 7 8 9 1 2".to_string();
    assert_eq!(
        Puzzle::parse_puzzle(lines).unwrap_err(),
        ParseError::OutOfRange { line: 1, col: 1, value: 0 }
    );

    let lines: Vec<String> = SOLVED[..3].iter().map(|s| s.to_string()).collect();
    assert_eq!(Puzzle::parse_puzzle(lines).unwrap_err(), ParseError::RowCount(3));

    let mut lines: Vec<String> = SOLVED.iter().map(|s| s.to_string()).collect();
    lines.push("X X X X X X X X X".to_string());
    assert_eq!(Puzzle::parse_puzzle(lines).unwrap_err(), ParseError::RowCount(10));

    let mut lines: Vec<String> = SOLVED.iter().map(|s| s.to_string()).collect();
    lines[0] = "5 3 4 6 7 8 9 1 99999999999999999999999".to_string();
    assert_eq!(
        Puzzle::parse_puzzle(lines).unwrap_err(),
        ParseError::NotANumber { line: 1, col: 9 }
    );
}

#[test]
fn parse_accepts_blank_lines_signs_and_tabs() {
    let mut lines: Vec<String> = SOLVED.iter().map(|s| s.to_string()).collect();
    lines.insert(0, "   ".to_string());
    lines[1] = "+5\t3 4 6 7 8 9 1 x".to_string();
    let puzzle = Puzzle::parse_puzzle(lines).unwrap();
    assert_eq!(puzzle.element(0, 0).value(), Some(4));
    assert_eq!(puzzle.element(0, 8).value(), None);
    assert_eq!(puzzle.element(0, 8).ready(), Some(1));
}

#[test]
fn block_maps_agree() {
    for sqr in 0..9 {
        for (k, (r, c)) in map_sqr_to_row_col(sqr).into_iter().enumerate() {
            assert_eq!(map_row_col_to_sqr(r, c), sqr);
            assert_eq!(map_row_col_to_sqr_index(r, c), k);
        }
    }
    assert_eq!(map_row_col_to_sqr(4, 7), 5);
}

#[test]
fn verbose_render_shows_state_and_candidates() {
    let puzzle = Puzzle::new_from_clues(&vec![(0, 0, 5)]);
    let text = puzzle.render_debug();
    assert_eq!(text.len(), 12);
    assert_eq!(text[0], "Puzzle state: Unsolved");
    assert!(text[1].starts_with("5:000010000 X:111101111 X:111101111   X:111101111 "));
    assert!(text[4].is_empty());
    assert!(text[5].starts_with("X:111101111 X:111111111 "));
}

#[test]
fn verbose_render_of_solved_grid() {
    let puzzle = Puzzle::parse_puzzle(SOLVED.iter().map(|s| s.to_string()).collect()).unwrap();
    let text = puzzle.render_debug();
    assert_eq!(text[0], "Puzzle state: Solved");
    assert!(text[1].starts_with("5:000010000 3:001000000 4:000100000   "));
}
