use sudoku::{
    col, count, group, neighbors_of, row, set_to_num, NeighborIndex, ParseError, SudokuBoard,
    FULL_SET,
};

const SOLVED: &str =
    "534678912672195348198342567859761423426853791713924856961537284287419635345286179";
const ONE_BLANK: &str =
    ".34678912672195348198342567859761423426853791713924856961537284287419635345286179";

fn board_cells(b: &SudokuBoard) -> Vec<u32> {
    (0..81).map(|i| b.candidates(i)).collect()
}

#[test]
fn test_row_col() {
    assert_eq!(row(11), 1);
    assert_eq!(col(11), 2);
}

#[test]
fn test_group() {
    assert_eq!(group(0), 0);
    assert_eq!(group(1), 0);
    assert_eq!(group(2), 0);
    assert_eq!(group(9), 0);
    assert_eq!(group(10), 0);
    assert_eq!(group(11), 0);
    assert_eq!(group(18), 0);
    assert_eq!(group(19), 0);
    assert_eq!(group(20), 0);
    assert_eq!(group(60), 60);
    assert_eq!(group(61), 60);
    assert_eq!(group(62), 60);
    assert_eq!(group(69), 60);
    assert_eq!(group(70), 60);
    assert_eq!(group(71), 60);
    assert_eq!(group(78), 60);
    assert_eq!(group(79), 60);
    assert_eq!(group(80), 60);
}

#[test]
fn neighbors_count_and_self() {
    for c in 0..81 {
        let n = neighbors_of(c);
        assert_eq!(n.len(), 20);
        assert!(!n.contains(&c));
        for k in 0..19 {
            assert!(n[k] < n[k + 1]);
        }
        assert!(n.iter().all(|&j| j < 81));
    }
}

#[test]
fn neighbors_symmetric() {
    for c in 0..81 {
        for n in 0..81 {
            assert_eq!(neighbors_of(n).contains(&c), neighbors_of(c).contains(&n));
        }
    }
}

#[test]
fn neighbors_of_first_cell() {
    let n = neighbors_of(0);
    assert_eq!(n, vec![1, 2, 3, 4, 5, 6, 7, 8, 9, 10, 11, 18, 19, 20, 27, 36, 45, 54, 63, 72]);
}

#[test]
fn neighbors_of_center_cell() {
    let n = neighbors_of(40);
    assert_eq!(n, vec![4, 13, 22, 30, 31, 32, 36, 37, 38, 39, 41, 42, 43, 44, 48, 49, 50, 58, 67, 76]);
}

#[test]
fn count_and_set_to_num() {
    assert_eq!(count(0), 0);
    assert_eq!(count(FULL_SET), 9);
    assert_eq!(count(0b101), 2);
    assert_eq!(set_to_num(0), 0);
    assert_eq!(set_to_num(1), 1);
    assert_eq!(set_to_num(1 << 4), 5);
    assert_eq!(set_to_num(1 << 8), 9);
}

#[test]
fn parse_cells() {
    let idx = NeighborIndex::build();
    let b = SudokuBoard::from_str(ONE_BLANK, &idx).unwrap();
    assert_eq!(b.candidates(0), FULL_SET);
    assert_eq!(b.candidates(1), 1 << 2);
    assert_eq!(b.candidates(80), 1 << 8);
    assert!(!b.cell_solved(0));
    assert!(b.cell_solved(1));
    assert!(!b.solved());
    assert!(b.solvable());
}

#[test]
fn parse_bad_length() {
    let idx = NeighborIndex::build();
    let line = &ONE_BLANK[..80];
    match SudokuBoard::from_str(line, &idx) {
        Err(e) => assert_eq!(e, ParseError::InvalidLength { expected: 81, actual: 80 }),
        Ok(_) => panic!("an 80-character line was accepted"),
    }
    match SudokuBoard::from_str("", &idx) {
        Err(e) => assert_eq!(e, ParseError::InvalidLength { expected: 81, actual: 0 }),
        Ok(_) => panic!("an empty line was accepted"),
    }
}

#[test]
fn parse_bad_char() {
    let idx = NeighborIndex::build();
    for pos in [0usize, 40, 80] {
        let mut line: Vec<char> = ONE_BLANK.chars().collect();
        line[pos] = 'x';
        let line: String = line.into_iter().collect();
        match SudokuBoard::from_str(&line, &idx) {
            Err(e) => assert_eq!(e, ParseError::InvalidChar { ch: 'x' }),
            Ok(_) => panic!("a line with 'x' was accepted"),
        }
    }
    let zero = format!("0{}", &ONE_BLANK[1..]);
    match SudokuBoard::from_str(&zero, &idx) {
        Err(e) => assert_eq!(e, ParseError::InvalidChar { ch: '0' }),
        Ok(_) => panic!("a line with '0' was accepted"),
    }
}

#[test]
fn non_candidates_of_blank() {
    let idx = NeighborIndex::build();
    let b = SudokuBoard::from_str(ONE_BLANK, &idx).unwrap();
    // every digit but 5 is among the neighbours of the first cell
    assert_eq!(b.non_candidates(0), FULL_SET & !(1 << 4));
}

#[test]
fn forced_single_blank() {
    let idx = NeighborIndex::build();
    let b = SudokuBoard::from_str(ONE_BLANK, &idx).unwrap();
    let s = b.solve().expect("a solution");
    assert_eq!(s.to_str(), SOLVED);
}

#[test]
fn contradiction_has_no_solution() {
    let idx = NeighborIndex::build();
    let line = format!("55{}", ".".repeat(79));
    let b = SudokuBoard::from_str(&line, &idx).unwrap();
    assert!(b.solve().is_none());
}

#[test]
fn solved_input_unchanged() {
    let idx = NeighborIndex::build();
    let b = SudokuBoard::from_str(SOLVED, &idx).unwrap();
    assert!(b.solved());
    let s = b.solve().expect("a solution");
    assert_eq!(s.to_str(), SOLVED);
    assert_eq!(board_cells(&s), board_cells(&b));
}

#[test]
fn to_str_of_unsolved_board() {
    let idx = NeighborIndex::build();
    let b = SudokuBoard::from_str(ONE_BLANK, &idx).unwrap();
    assert_eq!(b.to_str(), ONE_BLANK);
}

#[test]
fn propagate_monotone_and_idempotent() {
    let idx = NeighborIndex::build();
    let line =
        "4.....8.5.3..........7......2.....6.....8.4......1.......6.3.7.5..2.....1.4......";
    let b = SudokuBoard::from_str(line, &idx).unwrap();
    let p = b.propagate();
    for i in 0..81 {
        assert!(count(p.candidates(i)) <= count(b.candidates(i)));
        assert_eq!(p.candidates(i) & b.candidates(i), p.candidates(i));
    }
    let q = p.propagate();
    assert_eq!(board_cells(&q), board_cells(&p));
}

#[test]
fn propagate_fills_forced_cell() {
    let idx = NeighborIndex::build();
    let b = SudokuBoard::from_str(ONE_BLANK, &idx).unwrap();
    let p = b.propagate();
    assert_eq!(p.candidates(0), 1 << 4);
    assert!(p.solved());
}

#[test]
fn most_promising_picks_fewest_candidates() {
    let idx = NeighborIndex::build();
    let empty = ".".repeat(81);
    let b = SudokuBoard::from_str(&empty, &idx).unwrap();
    assert_eq!(b.most_promising(), Some(0));
    let s = SudokuBoard::from_str(SOLVED, &idx).unwrap();
    assert_eq!(s.most_promising(), None);
    let p = SudokuBoard::from_str(ONE_BLANK, &idx).unwrap();
    assert_eq!(p.most_promising(), Some(0));
}

fn assert_valid_solution(s: &str, puzzle: &str) {
    let d: Vec<u32> = s.chars().map(|c| c.to_digit(10).unwrap()).collect();
    assert_eq!(d.len(), 81);
    for unit in 0..27 {
        let mut seen = [false; 10];
        for k in 0..9 {
            let cell = if unit < 9 {
                9 * unit + k
            } else if unit < 18 {
                9 * k + (unit - 9)
            } else {
                let b = unit - 18;
                9 * (3 * (b / 3) + k / 3) + 3 * (b % 3) + k % 3
            };
            assert!(!seen[d[cell] as usize]);
            seen[d[cell] as usize] = true;
        }
    }
    for (a, b) in s.chars().zip(puzzle.chars()) {
        if b != '.' {
            assert_eq!(a, b);
        }
    }
}

#[test]
fn solves_hard_puzzle() {
    let idx = NeighborIndex::build();
    let line =
        "4.....8.5.3..........7......2.....6.....8.4......1.......6.3.7.5..2.....1.4......";
    let b = SudokuBoard::from_str(line, &idx).unwrap();
    let s = b.solve().expect("a solution").to_str();
    assert_valid_solution(&s, line);
}

#[test]
fn solves_empty_board() {
    let idx = NeighborIndex::build();
    let empty = ".".repeat(81);
    let b = SudokuBoard::from_str(&empty, &idx).unwrap();
    let s = b.solve().expect("a solution").to_str();
    assert_valid_solution(&s, &empty);
}

#[test]
fn solve_is_deterministic() {
    let idx = NeighborIndex::build();
    let line =
        "..9748...7.........2.1.9.....7...24..64.1.59..98...3.....8.3.2.........6...2759..";
    let b = SudokuBoard::from_str(line, &idx).unwrap();
    let first = b.solve().map(|s| s.to_str());
    let second = b.solve().map(|s| s.to_str());
    assert!(first.is_some());
    assert_eq!(first, second);
    assert_valid_solution(&first.unwrap(), line);
}

#[test]
fn solution_never_has_empty_cell() {
    let idx = NeighborIndex::build();
    let line =
        "..9748...7.........2.1.9.....7...24..64.1.59..98...3.....8.3.2.........6...2759..";
    let b = SudokuBoard::from_str(line, &idx).unwrap();
    let s = b.solve().unwrap();
    for i in 0..81 {
        assert_eq!(count(s.candidates(i)), 1);
    }
}

#[test]
fn solvable_detects_empty_cell() {
    let idx = NeighborIndex::build();
    let line = format!("55{}", ".".repeat(79));
    let b = SudokuBoard::from_str(&line, &idx).unwrap();
    let p = b.propagate();
    assert!(!p.solvable());
    // the first cell loses its 5 to the second; the second, whose only
    // solved neighbour is then empty, keeps it
    assert!(!p.cell_solvable(0));
    assert!(p.cell_solvable(1));
    assert_eq!(p.candidates(1), 1 << 4);
    assert!(b.cell_solvable(0));
}
