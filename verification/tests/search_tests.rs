use magic_squares::check_permutations;
use magic_squares::check_square;
use magic_squares::find_magic_squares;
use magic_squares::initial_bound;
use magic_squares::next_bound;
use magic_squares::search_m_square;
use magic_squares::search_m_square_iterative;
use magic_squares::ConfigError;
use magic_squares::SearchMode;

fn sorted_records(mut records: Vec<Vec<u32>>) -> Vec<Vec<u32>> {
    records.sort();
    records
}

const CLASSIC: [u32; 9] = [2, 7, 6, 9, 5, 1, 4, 3, 8];

#[test]
fn classic_square_is_valid() {
    assert!(check_square(&CLASSIC.to_vec(), 3));
}

#[test]
fn row_mismatch_is_rejected() {
    // swapping two entries of the classic square breaks a row and a column
    let grid = vec![7, 2, 6, 9, 5, 1, 4, 3, 8];
    assert!(!check_square(&grid, 3));
}

#[test]
fn diagonal_mismatch_is_rejected() {
    // all rows and columns sum to 6, the diagonals do not
    let grid = vec![1, 2, 3, 3, 1, 2, 2, 3, 1];
    assert!(!check_square(&grid, 3));
}

#[test]
fn anti_diagonal_mismatch_is_rejected() {
    // rows, columns and the main diagonal agree, the anti-diagonal differs
    let grid = vec![1, 2, 2, 1];
    assert!(!check_square(&grid, 2));
}

#[test]
fn single_cell_grid_is_valid() {
    assert!(check_square(&vec![5], 1));
}

#[test]
fn four_by_four_uses_true_anti_diagonal() {
    // Duerer's square, magic constant 34; a checker that kept the
    // three-by-three stride for the anti-diagonal would reject it
    let grid = vec![16, 3, 2, 13, 5, 10, 11, 8, 9, 6, 7, 12, 4, 15, 14, 1];
    assert!(check_square(&grid, 4));
    // breaking one anti-diagonal entry must reject
    let mut broken = grid.clone();
    broken[3] = 14;
    assert!(!check_square(&broken, 4));
}

#[test]
fn five_by_five_uses_true_anti_diagonal() {
    // Siamese-method square, magic constant 65
    let grid = vec![
        17, 24, 1, 8, 15, 23, 5, 7, 14, 16, 4, 6, 13, 20, 22, 10, 12, 19, 21, 3, 11, 18, 25, 2, 9,
    ];
    assert!(check_square(&grid, 5));
    let mut broken = grid.clone();
    broken[4] = 16;
    assert!(!check_square(&broken, 5));
}

#[test]
fn permutations_of_classic_set_give_eight_squares() {
    let values: Vec<u32> = (1..=9).collect();
    let found = check_permutations(&values, 3);
    assert_eq!(found.len(), 8);
    for square in &found {
        assert!(check_square(square, 3));
    }
}

#[test]
fn domain_too_small_yields_empty_round() {
    // eight available values cannot fill nine cells: zero results, no error
    let result = find_magic_squares(8, 3, SearchMode::Exhaustive).unwrap();
    assert_eq!(result.len(), 0);
}

#[test]
fn classic_exhaustive_round_finds_eight_squares() {
    let result = find_magic_squares(9, 3, SearchMode::Exhaustive).unwrap();
    assert_eq!(result.len(), 8);
    assert!(result.iter().any(|r| r[..] == CLASSIC[..]));
}

#[test]
fn climbing_round_matches_exhaustive_round() {
    let climbing = find_magic_squares(9, 3, SearchMode::Climbing).unwrap();
    let exhaustive = find_magic_squares(9, 3, SearchMode::Exhaustive).unwrap();
    assert_eq!(sorted_records(climbing), sorted_records(exhaustive));
}

#[test]
fn records_hold_distinct_values_from_the_domain() {
    let result = find_magic_squares(9, 3, SearchMode::Exhaustive).unwrap();
    for record in &result {
        assert_eq!(record.len(), 9);
        for (i, &v) in record.iter().enumerate() {
            assert!((1..=9).contains(&v));
            for &w in &record[i + 1..] {
                assert_ne!(v, w);
            }
        }
    }
}

#[test]
fn anchored_round_keeps_only_records_with_the_new_bound() {
    let result = search_m_square_iterative(9, 3);
    assert_eq!(result.len(), 8);
    for record in &result {
        assert!(record.contains(&9));
    }
}

#[test]
fn anchored_rounds_union_to_the_exhaustive_search() {
    let mut union: Vec<Vec<u32>> = Vec::new();
    for bound in 9..=10 {
        let round = find_magic_squares(bound, 3, SearchMode::AnchoredIncremental).unwrap();
        for record in &round {
            assert!(!union.contains(record));
        }
        union.extend(round);
    }
    let exhaustive = find_magic_squares(10, 3, SearchMode::Exhaustive).unwrap();
    assert_eq!(sorted_records(union), sorted_records(exhaustive));
}

#[test]
fn exhaustive_search_is_idempotent_up_to_order() {
    let first = search_m_square(9, 3);
    let second = search_m_square(9, 3);
    assert_eq!(sorted_records(first), sorted_records(second));
}

#[test]
fn zero_side_is_a_configuration_error() {
    let result = find_magic_squares(9, 0, SearchMode::Exhaustive);
    assert_eq!(result.unwrap_err(), ConfigError::ZeroSide);
}

#[test]
fn open_ended_modes_skip_bounds_below_the_grid_size() {
    assert_eq!(initial_bound(5, 3, SearchMode::Climbing), 9);
    assert_eq!(initial_bound(5, 3, SearchMode::AnchoredIncremental), 9);
    assert_eq!(initial_bound(12, 3, SearchMode::Climbing), 12);
    assert_eq!(initial_bound(5, 3, SearchMode::Exhaustive), 5);
}

#[test]
fn exhaustive_mode_is_terminal_and_open_modes_climb() {
    assert_eq!(next_bound(9, SearchMode::Exhaustive), None);
    assert_eq!(next_bound(9, SearchMode::Climbing), Some(10));
    assert_eq!(next_bound(9, SearchMode::AnchoredIncremental), Some(10));
    assert_eq!(next_bound(u32::MAX, SearchMode::Climbing), None);
}
