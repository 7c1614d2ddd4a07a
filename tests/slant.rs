use slant::CellState::{Backward, Forward};
use slant::{
    calculate_numbers, check_deductive_solvability, deduce_solution, fill_from_order, find_cycles,
    generate_puzzle, hide_hints,
    get_node_index, CellState, Dsu, Puzzle,
};

fn flat(solution: &Vec<Vec<CellState>>) -> Vec<CellState> {
    let mut out = Vec::new();
    for row in solution {
        for &s in row {
            out.push(s);
        }
    }
    out
}

fn codes(solution: &Vec<Vec<CellState>>) -> Vec<u8> {
    flat(solution)
        .into_iter()
        .map(|s| match s {
            CellState::Empty => 0,
            CellState::Forward => 1,
            CellState::Backward => 2,
        })
        .collect()
}

fn all_revealed(numbers: &Vec<Vec<u8>>) -> Vec<Vec<Option<u8>>> {
    numbers.iter().map(|row| row.iter().map(|&n| Some(n)).collect()).collect()
}

fn hints_match(p: &Puzzle, rows: usize, cols: usize) -> bool {
    let full = calculate_numbers(&flat(&p.solution), rows, cols);
    for r in 0..=rows {
        for c in 0..=cols {
            if let Some(n) = p.numbers[r][c] {
                if n != full[r][c] {
                    return false;
                }
            }
        }
    }
    true
}

#[test]
fn node_index_is_row_major_over_corners() {
    assert_eq!(get_node_index(0, 0, 3), 0);
    assert_eq!(get_node_index(1, 2, 3), 6);
    assert_eq!(get_node_index(2, 3, 3), 11);
}

#[test]
fn dsu_joins_and_reports_classes() {
    let mut d = Dsu::new(5);
    assert!(!d.connected(0, 1));
    assert!(d.union(0, 1));
    assert!(d.connected(1, 0));
    assert!(!d.union(1, 0));
    assert!(d.union(2, 3));
    assert!(!d.connected(0, 3));
    assert!(d.union(3, 1));
    assert!(d.connected(0, 2));
    assert_eq!(d.find(0), d.find(3));
    assert!(!d.connected(4, 0));
}

#[test]
fn numbers_count_diagonals_at_each_corner() {
    // Forward in (0,0), Backward in (0,1).
    let n = calculate_numbers(&vec![Forward, Backward], 1, 2);
    assert_eq!(n, vec![vec![0, 2, 0], vec![1, 0, 1]]);
    let n = calculate_numbers(&vec![Backward, Forward, Forward, Backward], 2, 2);
    assert_eq!(n, vec![vec![1, 0, 1], vec![0, 4, 0], vec![1, 0, 1]]);
}

#[test]
fn numbers_of_empty_grid_are_zero() {
    let n = calculate_numbers(&vec![CellState::Empty; 4], 2, 2);
    assert_eq!(n, vec![vec![0; 3]; 3]);
    assert_eq!(calculate_numbers(&vec![], 0, 2), vec![vec![0, 0, 0]]);
}

#[test]
fn no_cycles_in_empty_grid() {
    assert!(find_cycles(&vec![0; 9], 3, 3).is_empty());
    assert!(find_cycles(&vec![], 0, 0).is_empty());
}

#[test]
fn diamond_loop_reports_its_four_cells() {
    let found = find_cycles(&vec![1, 2, 2, 1], 2, 2);
    assert_eq!(found, vec![(0, 0), (0, 1), (1, 0), (1, 1)]);
}

#[test]
fn loop_with_a_tail_reports_only_the_loop() {
    // The diamond in the top-left 2x2 block of a 3x3 grid, plus stray diagonals.
    let grid = vec![1, 2, 2, 2, 1, 1, 1, 0, 2];
    let found = find_cycles(&grid, 3, 3);
    assert_eq!(found, vec![(0, 0), (0, 1), (1, 0), (1, 1)]);
}

#[test]
fn two_disjoint_loops_are_both_reported() {
    // Diamonds in columns 0-1 and 2-3 of a 2x4 grid.
    let grid = vec![1, 2, 1, 2, 2, 1, 2, 1];
    let found = find_cycles(&grid, 2, 4);
    assert_eq!(found.len(), 8);
}

#[test]
fn loop_free_grid_has_no_cycles() {
    assert!(find_cycles(&vec![1, 1, 1, 1], 2, 2).is_empty());
    assert!(find_cycles(&vec![1, 2, 0, 1], 2, 2).is_empty());
}

#[test]
fn single_cell_is_deduced_from_a_zero() {
    let masked = vec![vec![Some(0), None], vec![None, None]];
    assert_eq!(deduce_solution(&masked, 1, 1), Some(vec![CellState::Forward]));
    assert!(check_deductive_solvability(&masked, 1, 1));
}

#[test]
fn no_hints_is_not_solvable() {
    let masked = vec![vec![None; 3]; 3];
    assert!(!check_deductive_solvability(&masked, 2, 2));
}

#[test]
fn inconsistent_hints_are_rejected() {
    let masked = vec![vec![Some(1), Some(1)], vec![Some(1), Some(1)]];
    assert!(!check_deductive_solvability(&masked, 1, 1));
}

#[test]
fn deduction_that_closes_a_loop_fails() {
    let mut masked = vec![vec![None; 3]; 3];
    masked[1][1] = Some(0);
    assert!(!check_deductive_solvability(&masked, 2, 2));
}

#[test]
fn empty_grid_is_trivially_solvable() {
    assert!(check_deductive_solvability(&vec![vec![Some(0), Some(0), Some(0)]], 0, 2));
    assert!(check_deductive_solvability(&vec![vec![None], vec![None]], 1, 0));
}

#[test]
fn generated_hints_match_solution_and_solve() {
    for seed in 0..20u64 {
        let p = generate_puzzle(4, 5, seed, 0);
        assert!(hints_match(&p, 4, 5));
        assert!(check_deductive_solvability(&p.numbers, 4, 5));
        assert_eq!(deduce_solution(&p.numbers, 4, 5), Some(flat(&p.solution)));
    }
}

#[test]
fn generated_solution_has_no_loop() {
    for seed in 0..20u64 {
        let p = generate_puzzle(5, 4, seed, 0);
        assert!(p.solution.iter().all(|row| row.iter().all(|&s| s != CellState::Empty)));
        assert!(find_cycles(&codes(&p.solution), 5, 4).is_empty());
    }
}

#[test]
fn solver_gives_the_same_answer_twice() {
    let p = generate_puzzle(4, 4, 7, 0);
    let first = check_deductive_solvability(&p.numbers, 4, 4);
    let second = check_deductive_solvability(&p.numbers, 4, 4);
    assert_eq!(first, second);
    let mut hidden = p.numbers.clone();
    hidden[0][0] = None;
    hidden[2][2] = None;
    assert_eq!(
        check_deductive_solvability(&hidden, 4, 4),
        check_deductive_solvability(&hidden, 4, 4)
    );
}

#[test]
fn revealing_more_hints_keeps_puzzle_solvable() {
    for seed in 0..10u64 {
        let p = generate_puzzle(4, 4, seed, 0);
        assert!(check_deductive_solvability(&p.numbers, 4, 4));
        let full = calculate_numbers(&flat(&p.solution), 4, 4);
        let mut more = p.numbers.clone();
        let mut revealed = 0;
        for r in 0..=4 {
            for c in 0..=4 {
                if more[r][c].is_none() && revealed < 3 {
                    more[r][c] = Some(full[r][c]);
                    revealed += 1;
                }
            }
        }
        assert!(check_deductive_solvability(&more, 4, 4));
    }
}

#[test]
fn full_density_reveals_every_corner() {
    let p = generate_puzzle(2, 2, 12345, 9);
    assert_eq!(p.numbers.len(), 3);
    let hints = p.numbers.iter().flatten().filter(|n| n.is_some()).count();
    assert_eq!(hints, 9);
    assert!(hints_match(&p, 2, 2));
    assert!(check_deductive_solvability(&p.numbers, 2, 2));
    let full = calculate_numbers(&flat(&p.solution), 2, 2);
    assert_eq!(p.numbers, all_revealed(&full));
}

#[test]
fn same_seed_gives_same_puzzle() {
    let a = generate_puzzle(3, 3, 2024, 4);
    let b = generate_puzzle(3, 3, 2024, 4);
    assert_eq!(a, b);
}

#[test]
fn zero_rows_or_cols_give_empty_puzzle() {
    let p = generate_puzzle(0, 3, 1, 0);
    assert!(p.solution.is_empty());
    assert_eq!(p.numbers.len(), 1);
    assert_eq!(p.numbers[0].len(), 4);
    assert!(check_deductive_solvability(&p.numbers, 0, 3));
    let q = generate_puzzle(2, 0, 1, 0);
    assert_eq!(q.solution, vec![Vec::<CellState>::new(), Vec::new()]);
    assert!(check_deductive_solvability(&q.numbers, 2, 0));
}

#[test]
fn fewer_hints_are_kept_at_low_density() {
    let p = generate_puzzle(5, 5, 99, 0);
    let hints = p.numbers.iter().flatten().filter(|n| n.is_some()).count();
    assert!(hints < 36);
    assert!(hints_match(&p, 5, 5));
}

#[test]
fn hidden_corner_depends_on_seed() {
    let mut hidden = Vec::new();
    for seed in 0..20u64 {
        let p = generate_puzzle(3, 3, seed, 15);
        let mut spots = Vec::new();
        for r in 0..=3 {
            for c in 0..=3 {
                if p.numbers[r][c].is_none() {
                    spots.push((r, c));
                }
            }
        }
        assert!(spots.len() <= 1);
        hidden.push(spots);
    }
    assert!(hidden.iter().any(|s| s != &hidden[0]));
}

#[test]
fn different_seeds_give_different_solutions() {
    let first = generate_puzzle(4, 4, 0, 25).solution;
    assert!((1..10u64).any(|seed| generate_puzzle(4, 4, seed, 25).solution != first));
}

#[test]
fn fill_follows_order_and_coins() {
    let order = vec![(0, 0), (0, 1), (1, 0), (1, 1)];
    assert_eq!(fill_from_order(&order, &vec![true; 4], 2, 2), Some(vec![Forward; 4]));
    // The last cell cannot take a forward diagonal without closing the diamond.
    assert_eq!(
        fill_from_order(&order, &vec![true, false, false, true], 2, 2),
        Some(vec![Forward, Backward, Backward, Backward])
    );
}

#[test]
fn hide_hints_keeps_only_needed_numbers() {
    let numbers = vec![vec![0, 1], vec![1, 0]];
    let masked = hide_hints(&numbers, &vec![(0, 0)], 1, 1, 0);
    assert_eq!(masked, vec![vec![None, Some(1)], vec![Some(1), Some(0)]]);
    assert!(check_deductive_solvability(&masked, 1, 1));
    let kept = hide_hints(&numbers, &vec![(0, 0), (1, 1)], 1, 1, 4);
    assert_eq!(kept, vec![vec![Some(0), Some(1)], vec![Some(1), Some(0)]]);
}

#[test]
fn single_one_at_corner_forces_backward() {
    let masked = vec![vec![Some(1), None], vec![None, None]];
    assert_eq!(deduce_solution(&masked, 1, 1), Some(vec![Backward]));
}
