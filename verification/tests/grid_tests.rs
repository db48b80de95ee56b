use clank_wasm::grid::AgentGrid;
use clank_wasm::cells::clamped_cell;

#[test]
fn clamped_cell_clamps_both_axes() {
    assert_eq!(clamped_cell(3, 2, 9, 6), 21);
    assert_eq!(clamped_cell(50, 2, 9, 6), 26);
    assert_eq!(clamped_cell(3, 70, 9, 6), 48);
    assert_eq!(clamped_cell(usize::MAX, usize::MAX, 9, 6), 53);
}

#[test]
fn new_grid_default_layout() {
    let g = AgentGrid::new();
    assert_eq!(g.grid_nx(), 9);
    assert_eq!(g.grid_ny(), 6);
    assert_eq!(g.linked_count(), 0);
}

#[test]
fn rebuild_clamps_dimensions() {
    let mut g = AgentGrid::new();
    g.rebuild_grid_layout(1, 500);
    assert_eq!(g.grid_nx(), 3);
    assert_eq!(g.grid_ny(), 100);
    g.rebuild_grid_layout(12, 7);
    assert_eq!(g.grid_nx(), 12);
    assert_eq!(g.grid_ny(), 7);
    assert_eq!(g.get_agent_cell(100, 100), 6 * 12 + 11);
}

#[test]
fn near_candidates_visit_block_in_table_order() {
    let mut g = AgentGrid::new();
    g.build_grid(&vec![0, 1, 10, 0, 53]);
    assert_eq!(g.linked_count(), 5);
    // block of cell 0: 0, 53, 45, 46, 8, 1, 17, 9, 10; list of cell 0 is [3, 0]
    assert_eq!(g.near_candidates(0), vec![3, 4, 1, 2]);
    assert_eq!(g.near_candidates(3), vec![0, 4, 1, 2]);
}

#[test]
fn far_creatures_are_not_candidates() {
    let mut g = AgentGrid::new();
    g.build_grid(&vec![0, 31, 30]);
    // cell 31 is column 4, row 3: not around cell 0
    assert_eq!(g.near_candidates(0), Vec::<usize>::new());
    assert_eq!(g.near_candidates(1), vec![2]);
}

#[test]
fn update_moves_creature_between_cells() {
    let mut g = AgentGrid::new();
    g.build_grid(&vec![0, 0, 20]);
    assert_eq!(g.near_candidates(2), Vec::<usize>::new());
    g.update_agent_cell(0, 20);
    assert_eq!(g.near_candidates(2), vec![0]);
    assert_eq!(g.near_candidates(1), Vec::<usize>::new());
    // moving to the cell it is in changes nothing
    g.update_agent_cell(0, 20);
    assert_eq!(g.near_candidates(2), vec![0]);
}

#[test]
fn insert_links_newest_at_head() {
    let mut g = AgentGrid::new();
    g.build_grid(&vec![5, 5]);
    g.insert_agent_cell(2, 5);
    assert_eq!(g.linked_count(), 3);
    assert_eq!(g.near_candidates(0), vec![2, 1]);
    g.ensure_grid_capacity(40);
    assert_eq!(g.near_candidates(0), vec![2, 1]);
}

#[test]
fn rebuild_unlinks_everyone() {
    let mut g = AgentGrid::new();
    g.build_grid(&vec![0, 1]);
    g.rebuild_grid_layout(9, 6);
    assert_eq!(g.linked_count(), 0);
}

#[test]
fn wrapped_block_on_small_grid() {
    let mut g = AgentGrid::new();
    g.rebuild_grid_layout(3, 3);
    // every cell of a 3x3 grid is in every block
    g.build_grid(&vec![4, 0, 8, 2, 6]);
    assert_eq!(g.near_candidates(0), vec![1, 3, 4, 2]);
    assert_eq!(g.near_candidates(1).len(), 4);
}
