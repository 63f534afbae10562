use picross::common_possibility;
use picross::take_col;
use picross::Cell::Empty;
use picross::Cell::False;
use picross::Cell::True;
use picross::Picross;

#[test]
fn test_take_col() {
    let v = vec![vec![1, 2, 3], vec![4, 5, 6]];
    assert_eq!(take_col(&v, 0), vec![1, 4]);
    assert_eq!(take_col(&v, 1), vec![2, 5]);
    assert_eq!(take_col(&v, 2), vec![3, 6]);
}

#[test]
fn test_common_possibility() {
    let possibilities = vec![
        vec![True, True, False, Empty],
        vec![True, False, False, Empty],
        vec![True, True, False, Empty],
    ];
    assert_eq!(
        common_possibility(&possibilities),
        Some(vec![True, Empty, False, Empty])
    );
    let possibilities = vec![vec![True, True, False]];
    assert_eq!(
        common_possibility(&possibilities),
        Some(vec![True, True, False])
    );
    let possibilities = vec![];
    assert_eq!(common_possibility(&possibilities), None);
}

#[test]
fn test_solve_full_cell() {
    let width = 5;
    let height = 5;
    let row_hints = vec![vec![5], vec![5], vec![5], vec![5], vec![5]];
    let col_hints = vec![vec![5], vec![5], vec![5], vec![5], vec![5]];
    let mut picross = Picross::new(width, height, row_hints, col_hints);
    picross.solve();
    assert_eq!(picross.grid, vec![vec![True; 5]; 5]);
    assert_eq!(
        picross.to_string(),
        "⬜⬜⬜⬜⬜\n⬜⬜⬜⬜⬜\n⬜⬜⬜⬜⬜\n⬜⬜⬜⬜⬜\n⬜⬜⬜⬜⬜\n"
    );
}

#[test]
fn test_solve_empty_cell() {
    let width = 5;
    let height = 6;
    let row_hints = vec![vec![]; 6];
    let col_hints = vec![vec![]; 5];
    let mut picross = Picross::new(width, height, row_hints, col_hints);
    picross.solve();
    assert_eq!(picross.grid, vec![vec![False; 5]; 6]);
    assert_eq!(
        picross.to_string(),
        "XXXXX\nXXXXX\nXXXXX\nXXXXX\nXXXXX\nXXXXX\n"
    );
}

#[test]
fn test_sample() {
    let width = 5;
    let height = 5;
    let row_hints = vec![vec![4], vec![1, 1], vec![3], vec![2, 2], vec![1, 2]];
    let col_hints = vec![vec![1, 1], vec![1, 2], vec![3], vec![1, 3], vec![1, 3]];
    let mut picross = Picross::new(width, height, row_hints, col_hints);
    picross.solve();
    assert_eq!(
        picross.to_string(),
        "X⬜⬜⬜⬜\n⬜X⬜XX\nXX⬜⬜⬜\n⬜⬜X⬜⬜\nX⬜X⬜⬜\n"
    );
}

#[test]
fn test_dfs() {
    let mut possibilities = vec![];
    Picross::dfs(
        &[3],
        0,
        0,
        &mut possibilities,
        vec![Empty, Empty, True, True, True],
    );
    assert_eq!(possibilities, vec![vec![False, False, True, True, True]]);
}

#[test]
fn test_dfs_empty_hints() {
    // An empty hint list has exactly one completion: the all-crossed line.
    let mut possibilities = vec![];
    Picross::dfs(&[], 0, 0, &mut possibilities, vec![Empty; 4]);
    assert_eq!(possibilities, vec![vec![False; 4]]);
}

#[test]
fn test_dfs_empty_hints_contradiction() {
    // A filled cell leaves an empty hint list with no completion at all.
    let mut possibilities = vec![];
    Picross::dfs(&[], 0, 0, &mut possibilities, vec![Empty, True, Empty]);
    assert_eq!(possibilities, Vec::<Vec<picross::Cell>>::new());
}

#[test]
fn test_dfs_single_full_run() {
    // A single hint as long as the line has one completion: all filled.
    let mut possibilities = vec![];
    Picross::dfs(&[4], 0, 0, &mut possibilities, vec![Empty; 4]);
    assert_eq!(possibilities, vec![vec![True; 4]]);
}

#[test]
fn test_dfs_crossed_cell_blocks_run() {
    // A run can never cover a crossed-out cell.
    let mut possibilities = vec![];
    Picross::dfs(&[1], 0, 0, &mut possibilities, vec![False]);
    assert_eq!(possibilities, Vec::<Vec<picross::Cell>>::new());
}

#[test]
fn test_dfs_separator_after_run() {
    // The cell just after a run must stay crossable: with hints [2] on
    // . . #  the run cannot sit at the start, so only F # # remains.
    let mut possibilities = vec![];
    Picross::dfs(&[2], 0, 0, &mut possibilities, vec![Empty, Empty, True]);
    assert_eq!(possibilities, vec![vec![False, True, True]]);
}

#[test]
fn test_dfs_run_ends_at_line_end() {
    // Boundary case: a run reaching the exact last position needs no
    // separator after it.
    let mut possibilities = vec![];
    Picross::dfs(&[2], 0, 0, &mut possibilities, vec![Empty; 3]);
    assert_eq!(
        possibilities,
        vec![vec![True, True, False], vec![False, True, True]]
    );
}

#[test]
fn test_enumeration_is_ordered() {
    // All placements come out, smallest leading gap first.
    let mut possibilities = vec![];
    Picross::dfs(&[1], 0, 0, &mut possibilities, vec![Empty; 3]);
    assert_eq!(
        possibilities,
        vec![
            vec![True, False, False],
            vec![False, True, False],
            vec![False, False, True],
        ]
    );
}

#[test]
fn test_solve_converged_grid_unchanged() {
    // Running solve on an already-converged grid changes nothing.
    let width = 5;
    let height = 5;
    let row_hints = vec![vec![4], vec![1, 1], vec![3], vec![2, 2], vec![1, 2]];
    let col_hints = vec![vec![1, 1], vec![1, 2], vec![3], vec![1, 3], vec![1, 3]];
    let mut picross = Picross::new(width, height, row_hints, col_hints);
    picross.solve();
    let first = picross.grid.clone();
    let first_text = picross.to_string();
    picross.solve();
    assert_eq!(picross.grid, first);
    assert_eq!(picross.to_string(), first_text);
}

#[test]
fn test_solve_keeps_decided_cells() {
    // Monotonicity, concretely: the cells decided after one solve stay
    // exactly as they are through another full solve.
    let width = 2;
    let height = 2;
    let row_hints = vec![vec![2], vec![]];
    let col_hints = vec![vec![1], vec![1]];
    let mut picross = Picross::new(width, height, row_hints, col_hints);
    picross.solve();
    assert_eq!(picross.grid, vec![vec![True, True], vec![False, False]]);
    picross.solve();
    assert_eq!(picross.grid, vec![vec![True, True], vec![False, False]]);
}

#[test]
fn test_unsolvable_line_left_unknown() {
    // Two mirrored placements never agree, so nothing is ever decided.
    let width = 2;
    let height = 2;
    let row_hints = vec![vec![1], vec![1]];
    let col_hints = vec![vec![1], vec![1]];
    let mut picross = Picross::new(width, height, row_hints, col_hints);
    picross.solve();
    assert_eq!(picross.grid, vec![vec![Empty, Empty], vec![Empty, Empty]]);
    assert_eq!(picross.to_string(), "..\n..\n");
}

#[test]
fn test_solve_deterministic() {
    // Equal starting states end in equal grids.
    let row_hints = vec![vec![4], vec![1, 1], vec![3], vec![2, 2], vec![1, 2]];
    let col_hints = vec![vec![1, 1], vec![1, 2], vec![3], vec![1, 3], vec![1, 3]];
    let mut first = Picross::new(5, 5, row_hints.clone(), col_hints.clone());
    let mut second = Picross::new(5, 5, row_hints, col_hints);
    first.solve();
    second.solve();
    assert_eq!(first.grid, second.grid);
}

#[test]
fn test_new_all_unknown() {
    let picross = Picross::new(2, 3, vec![vec![1], vec![2], vec![1]], vec![vec![2], vec![2]]);
    assert_eq!(picross.width, 2);
    assert_eq!(picross.height, 3);
    assert_eq!(picross.grid, vec![vec![Empty; 2]; 3]);
    assert_eq!(picross.to_string(), "..\n..\n..\n");
}
