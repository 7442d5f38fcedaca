use minesweeper_core::neighbors::with_surrounding_cells;

#[test]
fn corner_cell_has_three_neighbors() {
    let mut ns = with_surrounding_cells(0, 0, 16, 30);
    ns.sort();
    assert_eq!(ns, vec![(0, 1), (1, 0), (1, 1)]);
}

#[test]
fn edge_cell_has_five_neighbors() {
    let mut ns = with_surrounding_cells(0, 7, 16, 30);
    ns.sort();
    assert_eq!(ns, vec![(0, 6), (0, 8), (1, 6), (1, 7), (1, 8)]);
}

#[test]
fn interior_cell_has_eight_neighbors() {
    let mut ns = with_surrounding_cells(3, 4, 16, 30);
    ns.sort();
    assert_eq!(
        ns,
        vec![(2, 3), (2, 4), (2, 5), (3, 3), (3, 5), (4, 3), (4, 4), (4, 5)]
    );
}

#[test]
fn single_cell_grid_has_no_neighbors() {
    let ns = with_surrounding_cells(0, 0, 1, 1);
    assert!(ns.is_empty());
}
