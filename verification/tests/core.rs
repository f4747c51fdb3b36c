use puzzle_finder::canon::standardize_tile_tuple;
use puzzle_finder::combos::CombinationIterator;
use puzzle_finder::grid::cyclic_latin_square;
use puzzle_finder::solver::complete_latin_square_backtrack_all_solutions;

fn is_latin(n: usize, s: &Vec<Vec<usize>>) -> bool {
    if s.len() != n {
        return false;
    }
    for row in s {
        if row.len() != n {
            return false;
        }
    }
    for i in 0..n {
        for v in 1..=n {
            if !(0..n).any(|j| s[i][j] == v) {
                return false;
            }
            if !(0..n).any(|j| s[j][i] == v) {
                return false;
            }
        }
    }
    true
}

#[test]
fn cyclic_square_matches_formula() {
    let g = cyclic_latin_square(3);
    assert_eq!(g, vec![vec![1, 2, 3], vec![2, 3, 1], vec![3, 1, 2]]);
}

#[test]
fn cyclic_square_rows_and_cols_are_permutations() {
    for n in 1..=7 {
        let g = cyclic_latin_square(n);
        assert!(is_latin(n, &g));
    }
}

#[test]
fn unconstrained_solution_counts_match_known_totals() {
    let empty_kv: Vec<((usize, usize), usize)> = Vec::new();
    let empty_kw: Vec<((usize, usize), Vec<usize>)> = Vec::new();
    assert_eq!(
        complete_latin_square_backtrack_all_solutions(1, &empty_kv, &empty_kw, None).len(),
        1
    );
    assert_eq!(
        complete_latin_square_backtrack_all_solutions(2, &empty_kv, &empty_kw, None).len(),
        2
    );
    assert_eq!(
        complete_latin_square_backtrack_all_solutions(3, &empty_kv, &empty_kw, None).len(),
        12
    );
    assert_eq!(
        complete_latin_square_backtrack_all_solutions(4, &empty_kv, &empty_kw, None).len(),
        576
    );
}

#[test]
fn bounded_call_returns_prefix_of_unbounded_call() {
    let empty_kv: Vec<((usize, usize), usize)> = Vec::new();
    let empty_kw: Vec<((usize, usize), Vec<usize>)> = Vec::new();
    let all = complete_latin_square_backtrack_all_solutions(3, &empty_kv, &empty_kw, None);
    assert_eq!(all.len(), 12);
    for m in 0..=12 {
        let bounded =
            complete_latin_square_backtrack_all_solutions(3, &empty_kv, &empty_kw, Some(m));
        assert_eq!(bounded.len(), m);
        assert_eq!(bounded[..], all[..m]);
    }
}

#[test]
fn bounded_call_never_exceeds_cap() {
    let empty_kv: Vec<((usize, usize), usize)> = Vec::new();
    let empty_kw: Vec<((usize, usize), Vec<usize>)> = Vec::new();
    let sols = complete_latin_square_backtrack_all_solutions(4, &empty_kv, &empty_kw, Some(5));
    assert_eq!(sols.len(), 5);
    let none = complete_latin_square_backtrack_all_solutions(4, &empty_kv, &empty_kw, Some(0));
    assert!(none.is_empty());
}

#[test]
fn solutions_respect_knowns_and_wrongs() {
    let kv: Vec<((usize, usize), usize)> = vec![((0, 0), 1)];
    let kw: Vec<((usize, usize), Vec<usize>)> = vec![((1, 1), vec![2])];
    let sols = complete_latin_square_backtrack_all_solutions(3, &kv, &kw, None);
    assert!(!sols.is_empty());
    for s in &sols {
        assert!(is_latin(3, s));
        assert_eq!(s[0][0], 1);
        assert_ne!(s[1][1], 2);
    }
}

#[test]
fn forbidden_value_restricts_completions() {
    let kv: Vec<((usize, usize), usize)> = Vec::new();
    let kw: Vec<((usize, usize), Vec<usize>)> = vec![((0, 0), vec![1])];
    let sols = complete_latin_square_backtrack_all_solutions(2, &kv, &kw, None);
    assert_eq!(sols.len(), 1);
    assert_eq!(sols[0], vec![vec![2, 1], vec![1, 2]]);
}

#[test]
fn row_duplicate_in_knowns_yields_no_solutions() {
    let kv: Vec<((usize, usize), usize)> = vec![((0, 0), 1), ((0, 2), 1)];
    let kw: Vec<((usize, usize), Vec<usize>)> = Vec::new();
    let sols = complete_latin_square_backtrack_all_solutions(3, &kv, &kw, None);
    assert!(sols.is_empty());
}

#[test]
fn column_duplicate_in_knowns_yields_no_solutions() {
    let kv: Vec<((usize, usize), usize)> = vec![((0, 1), 2), ((2, 1), 2)];
    let kw: Vec<((usize, usize), Vec<usize>)> = Vec::new();
    let sols = complete_latin_square_backtrack_all_solutions(3, &kv, &kw, None);
    assert!(sols.is_empty());
}

#[test]
fn standardize_sorts_by_row_then_column() {
    let tiles = vec![(2, 0), (0, 1), (0, 0), (1, 2)];
    let canon = standardize_tile_tuple(&tiles);
    assert_eq!(canon, vec![(0, 0), (0, 1), (1, 2), (2, 0)]);
}

#[test]
fn standardize_is_idempotent() {
    let canon = vec![(0, 0), (0, 2), (1, 1), (2, 0)];
    assert_eq!(standardize_tile_tuple(&canon), canon);
    let empty: Vec<(usize, usize)> = Vec::new();
    assert_eq!(standardize_tile_tuple(&empty), empty);
}

#[test]
fn standardize_maps_permutations_to_one_form() {
    let a = vec![(1, 1), (0, 2), (2, 0)];
    let b = vec![(2, 0), (1, 1), (0, 2)];
    let c = vec![(0, 2), (2, 0), (1, 1)];
    let ca = standardize_tile_tuple(&a);
    assert_eq!(ca, standardize_tile_tuple(&b));
    assert_eq!(ca, standardize_tile_tuple(&c));
    assert_eq!(ca, vec![(0, 2), (1, 1), (2, 0)]);
}

#[test]
fn combinations_come_in_lexicographic_order() {
    let items = vec![(0, 0), (0, 1), (1, 0), (1, 1)];
    let mut it = CombinationIterator::new(items, 2);
    let mut got = Vec::new();
    while let Some(c) = it.next() {
        got.push(c);
    }
    assert_eq!(
        got,
        vec![
            vec![(0, 0), (0, 1)],
            vec![(0, 0), (1, 0)],
            vec![(0, 0), (1, 1)],
            vec![(0, 1), (1, 0)],
            vec![(0, 1), (1, 1)],
            vec![(1, 0), (1, 1)],
        ]
    );
    assert!(it.next().is_none());
    assert!(it.next().is_none());
}

#[test]
fn empty_and_oversized_combinations_are_exhausted() {
    let items = vec![(0, 0), (0, 1)];
    let mut zero = CombinationIterator::new(items.clone(), 0);
    assert!(zero.next().is_none());
    let mut oversized = CombinationIterator::new(items, 3);
    assert!(oversized.next().is_none());
}
