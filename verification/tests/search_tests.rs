use puzzle_finder::grid::cyclic_latin_square;
use puzzle_finder::search::{find_single_solution_puzzles, validate_args};

fn truth(n: usize, i: usize, j: usize) -> usize {
    (i + j) % n + 1
}

fn check_puzzle(n: usize, k: usize, tiles: &Vec<(usize, usize)>, sol: &Vec<Vec<usize>>) {
    assert_eq!(tiles.len(), k);
    for w in tiles.windows(2) {
        assert!(w[0] < w[1], "given-set not in canonical order");
    }
    assert_eq!(sol.len(), n);
    for i in 0..n {
        assert_eq!(sol[i].len(), n);
        for j in 0..n {
            if tiles.contains(&(i, j)) {
                assert_eq!(sol[i][j], truth(n, i, j));
            } else {
                assert_ne!(sol[i][j], truth(n, i, j));
            }
        }
    }
}

#[test]
fn exhaustive_search_finds_puzzles_for_order_three() {
    let results = find_single_solution_puzzles(3, 3, None);
    assert!(!results.is_empty());
    let grid = cyclic_latin_square(3);
    assert_eq!(grid, vec![vec![1, 2, 3], vec![2, 3, 1], vec![3, 1, 2]]);
    for (tiles, sol) in &results {
        check_puzzle(3, 3, tiles, sol);
        for &(i, j) in tiles {
            assert_eq!(sol[i][j], grid[i][j]);
        }
    }
    for a in 0..results.len() {
        for b in (a + 1)..results.len() {
            assert_ne!(results[a].0, results[b].0, "two puzzles share a given-set");
        }
    }
}

#[test]
fn no_givens_force_nothing_for_order_four() {
    let results = find_single_solution_puzzles(4, 0, None);
    assert!(results.is_empty());
}

#[test]
fn random_mode_terminates_when_tries_exceed_subsets() {
    // 9 cells and size-3 subsets: 84 in all, far fewer than the requested
    // sample count, so the sampler must stop once nothing new turns up.
    let results = find_single_solution_puzzles(3, 3, Some(500));
    for (tiles, sol) in &results {
        check_puzzle(3, 3, tiles, sol);
    }
    for a in 0..results.len() {
        for b in (a + 1)..results.len() {
            assert_ne!(results[a].0, results[b].0);
        }
    }
}

#[test]
fn random_mode_handles_tiny_universe() {
    let results = find_single_solution_puzzles(2, 1, Some(100));
    for (tiles, sol) in &results {
        check_puzzle(2, 1, tiles, sol);
    }
}

#[test]
fn argument_validation_bounds_placed_tiles() {
    assert!(validate_args(3, 0));
    assert!(validate_args(3, 9));
    assert!(!validate_args(3, 10));
    assert!(validate_args(9, 81));
    assert!(!validate_args(9, 82));
}
