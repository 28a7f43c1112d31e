use nonogram::grid::Nonogram;
use nonogram::line::{
    check, check_first_set, make_all_combos, make_group_cnf, make_possible_combos, negate, one_to_n,
    universal_set,
};
use nonogram::parse::{parse_clue_line, parse_nonogram, parse_number, split_bytes, ParseError};
use nonogram::solver::{bind_clause, cell_literal, decode_model, line_literals, solve_puzzle, write_cells, SolveError};

fn signs(v: &[i32]) -> Vec<bool> {
    v.iter().map(|&x| x > 0).collect()
}

fn solved_grid(text: &str) -> (Nonogram, Result<(), SolveError>) {
    let mut p = parse_nonogram(text.as_bytes()).expect("puzzle parses");
    let r = solve_puzzle(&mut p);
    (p, r)
}

#[test]
fn trivial_single_cell() {
    let (p, r) = solved_grid("1\n1\n1\n");
    assert_eq!(r, Ok(()));
    assert!(p.get(0, 0));
    assert!(p.validate());
}

#[test]
fn cross_pattern() {
    let (p, r) = solved_grid("3\n1\n3\n1\n1\n3\n1\n");
    assert_eq!(r, Ok(()));
    let expected = [[false, true, false], [true, true, true], [false, true, false]];
    for i in 0..3 {
        for j in 0..3 {
            assert_eq!(p.get(i, j), expected[i][j]);
        }
    }
    assert!(p.validate());
}

#[test]
fn infeasible_line_has_no_placement() {
    let possible = make_possible_combos(0, one_to_n(2), &[3]);
    assert!(possible.is_empty());
}

#[test]
fn infeasible_line_makes_puzzle_unsatisfiable() {
    let (p, r) = solved_grid("2\n1\n1\n3\n\n");
    assert_eq!(r, Err(SolveError::Unsatisfiable));
    assert!(!p.get(0, 0) && !p.get(1, 1));
}

#[test]
fn missing_column_lines() {
    assert!(matches!(parse_nonogram(b"3\n1\n1\n"), Err(ParseError::MissingLine)));
}

#[test]
fn final_newline_ends_the_last_line() {
    assert!(matches!(parse_nonogram(b"1\n1\n"), Err(ParseError::MissingLine)));
    assert!(matches!(parse_nonogram(b"1\n1"), Err(ParseError::MissingLine)));
    let p = parse_nonogram(b"1\n1\n\n").unwrap();
    assert_eq!(p.row_rules, vec![Vec::<usize>::new()]);
    let q = parse_nonogram(b"1\n1\n1").unwrap();
    assert_eq!(q.row_rules, vec![vec![1]]);
}

#[test]
fn bad_size_and_clues() {
    assert!(matches!(parse_nonogram(b"0\n"), Err(ParseError::BadSize)));
    assert!(matches!(parse_nonogram(b"x\n1\n1\n"), Err(ParseError::BadSize)));
    assert!(matches!(parse_nonogram(b"1\n1 a\n1\n"), Err(ParseError::BadClue)));
    assert!(matches!(parse_nonogram(b"1\n0\n1\n"), Err(ParseError::BadClue)));
}

#[test]
fn parse_reads_clues_and_size() {
    let p = parse_nonogram(b"2\r\n1 \r\n\r\n2\n1\n").err();
    assert_eq!(p, Some(ParseError::BadClue));
    let p = parse_nonogram(b"2\r\n1\r\n\r\n2\n1\n").unwrap();
    assert_eq!(p.get_size(), 2);
    assert_eq!(p.col_rules, vec![vec![1], vec![]]);
    assert_eq!(p.row_rules, vec![vec![2], vec![1]]);
    assert!(!p.get(0, 0) && !p.get(1, 1));
}

#[test]
fn numbers_and_clue_lines() {
    assert_eq!(parse_number(b"42"), Some(42));
    assert_eq!(parse_number(b"007"), Some(7));
    assert_eq!(parse_number(b"0"), None);
    assert_eq!(parse_number(b""), None);
    assert_eq!(parse_number(b"4x"), None);
    assert_eq!(parse_number(b"99999999999999999999999"), None);
    assert_eq!(parse_clue_line(b"3 1 2"), Some(vec![3, 1, 2]));
    assert_eq!(parse_clue_line(b""), Some(vec![]));
    assert_eq!(parse_clue_line(b"\r"), Some(vec![]));
    assert_eq!(parse_clue_line(b"1  2"), None);
}

#[test]
fn splitting_keeps_empty_pieces() {
    let parts = split_bytes(b"a\n\nbc\n", b'\n');
    assert_eq!(parts, vec![b"a".to_vec(), vec![], b"bc".to_vec(), vec![]]);
    assert_eq!(split_bytes(b"", b'\n'), vec![Vec::<u8>::new()]);
}

#[test]
fn universal_set_is_full_truth_table() {
    for n in 1..=5usize {
        let all = universal_set(n);
        assert_eq!(all.len(), 1 << n);
        for v in &all {
            assert_eq!(v.len(), n);
            for (j, &x) in v.iter().enumerate() {
                assert_eq!(x.abs() as usize, j + 1);
            }
        }
        for a in 0..all.len() {
            for b in a + 1..all.len() {
                assert_ne!(all[a], all[b]);
            }
        }
    }
}

#[test]
fn all_combos_keep_the_prefix() {
    let all = make_all_combos(vec![9], &[1, 2]);
    assert_eq!(all, vec![vec![9, 1, 2], vec![9, 1, -2], vec![9, -1, 2], vec![9, -1, -2]]);
}

#[test]
fn placements_of_fitting_clues() {
    let possible = make_possible_combos(0, one_to_n(5), &[2, 1]);
    assert_eq!(possible.len(), 3);
    assert!(possible.contains(&vec![1, 2, -3, 4, -5]));
    assert!(possible.contains(&vec![1, 2, -3, -4, 5]));
    assert!(possible.contains(&vec![-1, 2, 3, -4, 5]));
    let exact = make_possible_combos(0, one_to_n(3), &[1, 1]);
    assert_eq!(exact, vec![vec![1, -2, 3]]);
    let full = make_possible_combos(0, one_to_n(4), &[4]);
    assert_eq!(full, vec![vec![1, 2, 3, 4]]);
}

#[test]
fn placements_of_no_clues_are_all_empty() {
    let possible = make_possible_combos(0, one_to_n(3), &[]);
    assert_eq!(possible, vec![vec![-1, -2, -3]]);
}

#[test]
fn placements_agree_with_validator() {
    let n = 5;
    let all = universal_set(n);
    for clues in [vec![], vec![1], vec![2, 1], vec![1, 1, 1], vec![5], vec![3, 2]] {
        let possible = make_possible_combos(0, one_to_n(n), &clues);
        for v in &all {
            assert_eq!(check(&signs(v), &clues), possible.contains(v));
        }
    }
}

#[test]
fn cnf_models_are_the_placements() {
    let n = 4;
    let all = universal_set(n);
    for clues in [vec![], vec![1], vec![1, 2], vec![4], vec![5], vec![1, 1]] {
        let cnf = make_group_cnf(&all, n, &clues);
        let possible = make_possible_combos(0, one_to_n(n), &clues);
        assert_eq!(cnf.len(), all.len() - possible.len());
        for v in &all {
            let meets = cnf.iter().all(|c| c.iter().any(|l| v.contains(l)));
            assert_eq!(meets, possible.contains(v));
        }
    }
}

#[test]
fn negate_flips_every_sign() {
    assert_eq!(negate(vec![1, -2, 3]), vec![-1, 2, -3]);
    assert_eq!(negate(vec![]), Vec::<i32>::new());
}

#[test]
fn validator_scans_runs() {
    assert!(check(&[false, true, true, false, true], &[2, 1]));
    assert!(!check(&[false, true, true, true, true], &[2, 1]));
    assert!(!check(&[true, true, false, false, false], &[2, 1]));
    assert!(!check(&[true, false, true, false, true], &[2, 1]));
    assert!(check(&[false, false], &[]));
    assert!(!check(&[false, true], &[]));
    assert!(!check(&[], &[1]));
    assert_eq!(check_first_set(&[false, true, true, false], 0, 2), Some(3));
    assert_eq!(check_first_set(&[false, true, true, false], 0, 1), None);
    assert_eq!(check_first_set(&[false, false], 0, 1), None);
    assert_eq!(check_first_set(&[true, false, true], 1, 1), Some(3));
}

#[test]
fn literals_are_row_major() {
    assert_eq!(cell_literal(3, 0, 0), 1);
    assert_eq!(cell_literal(3, 1, 2), 6);
    assert_eq!(cell_literal(3, 2, 2), 9);
    assert_eq!(line_literals(3, 1, true), vec![4, 5, 6]);
    assert_eq!(line_literals(3, 1, false), vec![2, 5, 8]);
    assert_eq!(bind_clause(&vec![-1, 2, -3], &[2, 5, 8]), vec![-2, 5, -8]);
}

#[test]
fn decoding_models() {
    assert_eq!(decode_model(2, &vec![1, -2, -3, 4]), vec![vec![true, false], vec![false, true]]);
    assert_eq!(decode_model(2, &vec![-4, 3, 2, -1]), vec![vec![false, true], vec![true, false]]);
    assert_eq!(decode_model(2, &vec![1, -2, 3]), vec![vec![true, false], vec![true, false]]);
}

#[test]
fn group_cnf_exact_clauses() {
    let all = vec![vec![1, 2], vec![1, -2], vec![-1, 2], vec![-1, -2]];
    assert_eq!(make_group_cnf(&all, 2, &[1]), vec![vec![-1, -2], vec![1, 2]]);
    assert_eq!(make_group_cnf(&all, 2, &[]), vec![vec![-1, -2], vec![-1, 2], vec![1, -2]]);
    assert_eq!(make_group_cnf(&all, 2, &[3]), vec![vec![-1, -2], vec![-1, 2], vec![1, -2], vec![1, 2]]);
    assert_eq!(make_group_cnf(&[vec![1], vec![-1]], 1, &[1]), vec![vec![1]]);
}

#[test]
fn placements_with_cursor_past_the_end() {
    assert_eq!(make_possible_combos(4, one_to_n(3), &[]), vec![vec![1, 2, 3]]);
    assert!(make_possible_combos(5, one_to_n(3), &[1]).is_empty());
    assert_eq!(make_possible_combos(2, vec![1, -2, 3, 4], &[1]), vec![vec![1, -2, 3, -4], vec![1, -2, -3, 4]]);
}

#[test]
fn placements_exact_lists() {
    assert_eq!(make_possible_combos(0, one_to_n(3), &[1]), vec![vec![1, -2, -3], vec![-1, 2, -3], vec![-1, -2, 3]]);
    assert_eq!(
        make_possible_combos(0, one_to_n(5), &[1, 2]),
        vec![vec![1, -2, 3, 4, -5], vec![1, -2, -3, 4, 5], vec![-1, 2, -3, 4, 5]]
    );
}

#[test]
fn grid_cells_and_validation() {
    let mut p = Nonogram::new(2, vec![vec![1], vec![1]], vec![vec![1], vec![1]]);
    assert_eq!(p.get_size(), 2);
    assert!(!p.validate());
    p.set(0, 0, true);
    assert!(p.get(0, 0));
    assert!(!p.get(0, 1));
    p.set(1, 1, true);
    assert!(p.validate());
    write_cells(&mut p, &vec![vec![false, true], vec![true, false]]);
    assert!(p.get(0, 1) && p.get(1, 0) && !p.get(0, 0));
    assert!(p.validate());
}
