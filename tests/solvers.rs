use sudoku::annealing::{self, violation_counts, Annealer};
use sudoku::backtrack::{backtrack, SolveError};
use sudoku::conflicts::{conflict_pairs, is_consistent};
use sudoku::grid::{Sudoku, SudokuCell};

fn board(rows: &[&[usize]]) -> Sudoku {
    let mut s = Sudoku::empty(rows.len());
    for (r, row) in rows.iter().enumerate() {
        for (c, &d) in row.iter().enumerate() {
            if d != 0 {
                s.set(r, c, SudokuCell::Digit(d));
            }
        }
    }
    s
}

fn digits(s: &Sudoku) -> Vec<usize> {
    let n = s.side() * s.side();
    (0..n)
        .map(|i| match *s.get_raw(i) {
            SudokuCell::Digit(d) => d,
            SudokuCell::Empty => 0,
        })
        .collect()
}

fn all_pairs_differ(s: &Sudoku) -> bool {
    conflict_pairs(s.side(), s.box_side())
        .iter()
        .all(|&(i, j)| matches!(s.get_raw(i), SudokuCell::Digit(_)) && s.get_raw(i) != s.get_raw(j))
}

const SOLVED: [[usize; 9]; 9] = [
    [5, 3, 4, 6, 7, 8, 9, 1, 2],
    [6, 7, 2, 1, 9, 5, 3, 4, 8],
    [1, 9, 8, 3, 4, 2, 5, 6, 7],
    [8, 5, 9, 7, 6, 1, 4, 2, 3],
    [4, 2, 6, 8, 5, 3, 7, 9, 1],
    [7, 1, 3, 9, 2, 4, 8, 5, 6],
    [9, 6, 1, 5, 3, 7, 2, 8, 4],
    [2, 8, 7, 4, 1, 9, 6, 3, 5],
    [3, 4, 5, 2, 8, 6, 1, 7, 9],
];

fn solved_board() -> Sudoku {
    let rows: Vec<&[usize]> = SOLVED.iter().map(|r| &r[..]).collect();
    board(&rows)
}

#[test]
fn conflict_pairs_count_neighbours() {
    // each cell has 2(N-1) + (B-1)^2 neighbours
    assert_eq!(conflict_pairs(4, 2).len(), 16 * 7 / 2);
    assert_eq!(conflict_pairs(9, 3).len(), 81 * 20 / 2);
    assert_eq!(conflict_pairs(1, 1).len(), 0);
    let pairs = conflict_pairs(4, 2);
    assert_eq!(pairs[0], (0, 1));
    assert!(pairs.contains(&(0, 5)));
    assert!(!pairs.contains(&(0, 6)));
    assert!(pairs.windows(2).all(|w| w[0] < w[1]));
}

#[test]
fn backtracking_completes_a_given_row() {
    let mut s = board(&[&[1, 2, 3, 4], &[0, 0, 0, 0], &[0, 0, 0, 0], &[0, 0, 0, 0]]);
    assert!(backtrack(&mut s).is_ok());
    assert!(all_pairs_differ(&s));
    assert_eq!(&digits(&s)[0..4], &[1, 2, 3, 4]);
    assert!(digits(&s).iter().all(|&d| (1..=4).contains(&d)));
}

#[test]
fn backtracking_visits_cells_with_fewest_candidates_first() {
    // several completions exist; in plain index order the search would end
    // with 1 2 in row 1 and 2 1 in row 3
    let mut s = board(&[&[2, 1, 3, 0], &[3, 0, 0, 0], &[1, 2, 0, 0], &[4, 0, 0, 0]]);
    assert!(backtrack(&mut s).is_ok());
    assert_eq!(digits(&s), vec![2, 1, 3, 4, 3, 4, 2, 1, 1, 2, 4, 3, 4, 3, 1, 2]);
}

#[test]
fn backtracking_solves_a_classic_puzzle() {
    let mut s = board(&[
        &[5, 3, 0, 0, 7, 0, 0, 0, 0],
        &[6, 0, 0, 1, 9, 5, 0, 0, 0],
        &[0, 9, 8, 0, 0, 0, 0, 6, 0],
        &[8, 0, 0, 0, 6, 0, 0, 0, 3],
        &[4, 0, 0, 8, 0, 3, 0, 0, 1],
        &[7, 0, 0, 0, 2, 0, 0, 0, 6],
        &[0, 6, 0, 0, 0, 0, 2, 8, 0],
        &[0, 0, 0, 4, 1, 9, 0, 0, 5],
        &[0, 0, 0, 0, 8, 0, 0, 7, 9],
    ]);
    assert!(backtrack(&mut s).is_ok());
    assert!(all_pairs_differ(&s));
    assert_eq!(digits(&s), digits(&solved_board()));
}

#[test]
fn backtracking_rejects_equal_clues_in_a_row() {
    let mut s = board(&[&[1, 1, 0, 0], &[0, 0, 0, 0], &[0, 0, 0, 0], &[0, 0, 0, 0]]);
    let before = digits(&s);
    assert!(matches!(backtrack(&mut s), Err(SolveError::Infeasible)));
    assert_eq!(digits(&s), before);
}

#[test]
fn backtracking_reports_a_board_without_completion() {
    // consistent clues, but cell (0, 0) can hold no digit
    let mut s = board(&[&[0, 2, 0, 0], &[3, 4, 0, 0], &[0, 0, 0, 0], &[1, 0, 0, 0]]);
    let before = digits(&s);
    assert!(matches!(backtrack(&mut s), Err(SolveError::Infeasible)));
    assert_eq!(digits(&s), before);
}

#[test]
fn backtracking_accepts_a_complete_board() {
    let mut s = solved_board();
    assert!(backtrack(&mut s).is_ok());
    assert_eq!(digits(&s), digits(&solved_board()));
}

#[test]
fn consistency_check() {
    assert!(is_consistent(&solved_board()));
    assert!(is_consistent(&Sudoku::empty(4)));
    let s = board(&[&[1, 0, 0, 0], &[0, 1, 0, 0], &[0, 0, 0, 0], &[0, 0, 0, 0]]);
    assert!(!is_consistent(&s));
}

#[test]
fn annealing_on_a_complete_valid_board_stops_at_once() {
    let mut s = solved_board();
    let state = Annealer::start(&mut s, None).ok().unwrap();
    assert_eq!(state.score(), 0);
    assert!(state.counts().iter().all(|&c| c == 0));
    assert!(state.finish(&s).is_ok());
    assert_eq!(digits(&s), digits(&solved_board()));
}

#[test]
fn annealing_rejects_a_digit_given_too_often() {
    // the digit 1 five times on a 4x4 board
    let mut s = board(&[&[1, 0, 0, 0], &[0, 0, 1, 0], &[0, 1, 0, 0], &[0, 0, 0, 1]]);
    s.set(0, 3, SudokuCell::Digit(1));
    let before = digits(&s);
    assert!(matches!(Annealer::start(&mut s, None), Err(annealing::SolveError::Infeasible)));
    assert_eq!(digits(&s), before);
}

#[test]
fn annealing_seeds_missing_digits_in_ascending_order() {
    let mut s = board(&[&[1, 2, 0, 0], &[0, 0, 0, 0], &[0, 0, 0, 0], &[0, 0, 0, 0]]);
    let state = Annealer::start(&mut s, None).ok().unwrap();
    assert_eq!(
        digits(&s),
        vec![1, 2, 1, 1, 1, 2, 2, 2, 3, 3, 3, 3, 4, 4, 4, 4]
    );
    assert_eq!(state.counts(), &violation_counts(&s));
    assert_eq!(state.score(), violation_counts(&s).iter().sum::<usize>());
}

#[test]
fn annealing_hint_errors() {
    let mut s = board(&[&[1, 0, 0, 0], &[0, 0, 0, 0], &[0, 0, 0, 0], &[0, 0, 0, 0]]);
    let mut hint = board(&[&[1, 2, 3, 4], &[3, 4, 1, 2], &[2, 1, 4, 3], &[4, 3, 2, 1]]);
    hint.set_raw(6, SudokuCell::Empty);
    assert!(matches!(Annealer::start(&mut s, Some(hint)), Err(annealing::SolveError::EmptyHint)));
    let hint = board(&[&[2, 1, 3, 4], &[3, 4, 1, 2], &[1, 2, 4, 3], &[4, 3, 2, 1]]);
    assert!(matches!(
        Annealer::start(&mut s, Some(hint)),
        Err(annealing::SolveError::IncompatibleHint)
    ));
    assert_eq!(digits(&s)[0], 1);
    let hint = board(&[&[1, 2, 3, 4], &[3, 4, 1, 2], &[2, 1, 4, 3], &[4, 3, 2, 1]]);
    let state = Annealer::start(&mut s, Some(hint)).ok().unwrap();
    assert_eq!(digits(&s), vec![1, 2, 3, 4, 3, 4, 1, 2, 2, 1, 4, 3, 4, 3, 2, 1]);
    assert_eq!(state.score(), 0);
}

#[test]
fn annealing_counts_follow_every_move() {
    let mut s = board(&[
        &[5, 3, 0, 0, 7, 0, 0, 0, 0],
        &[6, 0, 0, 1, 9, 5, 0, 0, 0],
        &[0, 9, 8, 0, 0, 0, 0, 6, 0],
        &[8, 0, 0, 0, 6, 0, 0, 0, 3],
        &[4, 0, 0, 8, 0, 3, 0, 0, 1],
        &[7, 0, 0, 0, 2, 0, 0, 0, 6],
        &[0, 6, 0, 0, 0, 0, 2, 8, 0],
        &[0, 0, 0, 4, 1, 9, 0, 0, 5],
        &[0, 0, 0, 0, 8, 0, 0, 7, 9],
    ]);
    let clues = digits(&s);
    let rng = alea::Rng::with_seed(7);
    let mut state = Annealer::start(&mut s, None).ok().unwrap();
    assert_eq!(state.counts(), &violation_counts(&s));
    for step in 0..500 {
        let current = state.score();
        let new_score = state.propose(&mut s, &rng);
        assert_eq!(state.counts(), &violation_counts(&s));
        assert_eq!(new_score, violation_counts(&s).iter().sum::<usize>());
        if new_score < current || step % 3 == 0 {
            state.accept();
        } else {
            state.reject(&mut s);
            assert_eq!(state.score(), current);
        }
        assert_eq!(state.counts(), &violation_counts(&s));
    }
    for (i, &d) in clues.iter().enumerate() {
        if d != 0 {
            assert_eq!(*s.get_raw(i), SudokuCell::Digit(d));
        }
    }
}

#[test]
fn annealing_swap_of_chosen_cells() {
    let mut s = board(&[&[1, 0, 0, 0], &[0, 0, 0, 0], &[0, 0, 0, 0], &[0, 0, 0, 0]]);
    let mut state = Annealer::start(&mut s, None).ok().unwrap();
    let before = digits(&s);
    // free cells are 1..16; picks 0 and 14 are cells 1 and 15
    let score = state.propose_swap(&mut s, 0, 14);
    let after = digits(&s);
    assert_eq!(after[1], before[15]);
    assert_eq!(after[15], before[1]);
    assert_eq!(score, violation_counts(&s).iter().sum::<usize>());
    state.reject(&mut s);
    assert_eq!(digits(&s), before);
    assert_eq!(state.counts(), &violation_counts(&s));
}

#[test]
fn score_is_zero_exactly_on_consistent_boards() {
    let mut good = solved_board();
    let state = Annealer::start(&mut good, None).ok().unwrap();
    assert_eq!(state.score() == 0, is_consistent(&good));
    let mut bad = solved_board();
    bad.swap_raw(0, 1);
    let counts = violation_counts(&bad);
    assert!(!is_consistent(&bad));
    assert!(counts.iter().sum::<usize>() > 0);
    assert_eq!(counts[0], 1);
    assert_eq!(counts[1], 1);
}

#[test]
fn annealing_reports_glassed_board() {
    let mut s = Sudoku::empty(4);
    let state = Annealer::start(&mut s, None).ok().unwrap();
    // seeded as 1 1 1 1 / 2 2 2 2 / ...: each cell clashes with its 3 row-mates
    assert_eq!(state.score(), 16 * 3);
    assert!(matches!(state.finish(&s), Err(annealing::SolveError::Glassed)));
}

#[test]
fn annealing_seeds_rows_after_a_full_first_row() {
    let mut s = board(&[&[1, 2, 3, 4], &[0, 0, 0, 0], &[0, 0, 0, 0], &[0, 0, 0, 0]]);
    let state = Annealer::start(&mut s, None).ok().unwrap();
    assert_eq!(&digits(&s)[4..], &[1, 1, 1, 2, 2, 2, 3, 3, 3, 4, 4, 4]);
    assert_eq!(&digits(&s)[0..4], &[1, 2, 3, 4]);
    assert_eq!(state.score(), violation_counts(&s).iter().sum::<usize>());
}

#[test]
fn rejected_move_restores_board_and_clues() {
    let mut s = board(&[&[1, 2, 3, 4], &[0, 0, 0, 0], &[0, 0, 0, 0], &[0, 0, 0, 0]]);
    let mut state = Annealer::start(&mut s, None).ok().unwrap();
    let before = digits(&s);
    let rng = alea::Rng::with_seed(3);
    for _ in 0..50 {
        state.propose(&mut s, &rng);
        state.reject(&mut s);
        assert_eq!(digits(&s), before);
        assert_eq!(state.score(), violation_counts(&s).iter().sum::<usize>());
    }
}
