use chunkworld::nav::{AgentMove, GridCell, InitError, NavCell, NavWrite, NavigationGrid, StaleIndex};

fn cell(x: u32, y: u32) -> GridCell {
    GridCell { x, y }
}

fn built_grid(w: u32, h: u32) -> NavigationGrid {
    let mut g = NavigationGrid::new(w, h, 4);
    g.build();
    g
}

#[test]
fn new_grid_is_passable_and_unbuilt() {
    let g = NavigationGrid::new(6, 5, 3);
    assert_eq!(g.width(), 6);
    assert_eq!(g.height(), 5);
    assert!(!g.is_built());
    assert_eq!(g.get_nav(0, 0), Some(NavCell::Passable(1)));
    assert_eq!(g.get_nav(5, 4), Some(NavCell::Passable(1)));
    assert_eq!(g.get_nav(6, 0), None);
    assert_eq!(g.get_nav(0, 5), None);
    assert_eq!(g.query(1, 1), Err(StaleIndex));
}

#[test]
fn toggle_scenario() {
    let mut g = built_grid(10, 10);
    assert_eq!(g.get_nav(5, 5), Some(NavCell::Passable(1)));
    assert!(g.toggle(5, 5));
    assert_eq!(g.get_nav(5, 5), Some(NavCell::Impassable));
    assert!(g.is_built());
    assert!(g.toggle(5, 5));
    assert_eq!(g.get_nav(5, 5), Some(NavCell::Passable(1)));
    assert_eq!(g.query(5, 5), Ok(Some(NavCell::Passable(1))));
}

#[test]
fn toggle_twice_restores_impassable() {
    let mut g = built_grid(8, 8);
    g.set_nav(2, 3, NavCell::Impassable);
    g.build();
    g.toggle(2, 3);
    assert_eq!(g.get_nav(2, 3), Some(NavCell::Passable(1)));
    g.toggle(2, 3);
    assert_eq!(g.get_nav(2, 3), Some(NavCell::Impassable));
    assert_eq!(g.query(2, 3), Ok(Some(NavCell::Impassable)));
}

#[test]
fn toggle_of_costly_cell_makes_it_cost_one() {
    let mut g = built_grid(8, 8);
    g.set_nav(1, 1, NavCell::Passable(5));
    g.build();
    g.toggle(1, 1);
    g.toggle(1, 1);
    assert_eq!(g.get_nav(1, 1), Some(NavCell::Passable(1)));
}

#[test]
fn toggle_outside_the_grid_is_a_no_op() {
    let mut g = built_grid(4, 4);
    assert!(!g.toggle(4, 0));
    assert!(g.is_built());
}

#[test]
fn writes_wait_for_a_build() {
    let mut g = built_grid(6, 6);
    assert!(g.set_nav(1, 2, NavCell::Impassable));
    assert_eq!(g.get_nav(1, 2), Some(NavCell::Impassable));
    assert!(!g.is_built());
    assert_eq!(g.query(1, 2), Err(StaleIndex));
    assert!(g.request_path(cell(0, 0), cell(5, 5)).is_err());
    g.build();
    assert_eq!(g.query(1, 2), Ok(Some(NavCell::Impassable)));
    assert_eq!(g.query(9, 9), Ok(None));
    assert!(g.request_path(cell(0, 0), cell(5, 5)).is_ok());
    assert_eq!(g.request_path(cell(0, 0), cell(6, 5)), Ok(None));
}

#[test]
fn write_outside_the_grid_is_skipped() {
    let mut g = built_grid(6, 6);
    assert!(!g.set_nav(6, 0, NavCell::Impassable));
    assert!(g.is_built());
}

#[test]
fn batched_writes_match_writes_built_one_by_one() {
    let writes = vec![
        NavWrite { cell: cell(1, 1), nav: NavCell::Impassable },
        NavWrite { cell: cell(2, 1), nav: NavCell::Passable(3) },
        NavWrite { cell: cell(1, 1), nav: NavCell::Passable(2) },
        NavWrite { cell: cell(9, 9), nav: NavCell::Impassable },
        NavWrite { cell: cell(0, 4), nav: NavCell::Impassable },
    ];
    let mut batched = built_grid(5, 5);
    batched.apply_writes(&writes);
    let mut each = built_grid(5, 5);
    for w in &writes {
        each.set_nav(w.cell.x, w.cell.y, w.nav);
        each.build();
    }
    assert!(batched.is_built() && each.is_built());
    for x in 0..6 {
        for y in 0..6 {
            assert_eq!(batched.get_nav(x, y), each.get_nav(x, y));
            assert_eq!(batched.query(x, y), each.query(x, y));
        }
    }
    assert_eq!(batched.get_nav(1, 1), Some(NavCell::Passable(2)));
    assert_eq!(batched.get_nav(2, 1), Some(NavCell::Passable(3)));
    assert_eq!(batched.get_nav(0, 4), Some(NavCell::Impassable));
}

#[test]
fn agent_move_updates_occupancy() {
    let mut g = built_grid(8, 8);
    g.set_nav(2, 2, NavCell::Impassable);
    g.build();
    g.apply_moves(&vec![AgentMove { from: cell(2, 2), to: cell(3, 2) }]);
    assert!(g.is_built());
    assert_eq!(g.get_nav(2, 2), Some(NavCell::Passable(1)));
    assert_eq!(g.get_nav(3, 2), Some(NavCell::Impassable));
    assert_eq!(g.query(3, 2), Ok(Some(NavCell::Impassable)));
}

#[test]
fn moves_apply_in_order() {
    let mut g = built_grid(8, 8);
    g.apply_moves(&vec![
        AgentMove { from: cell(0, 0), to: cell(1, 0) },
        AgentMove { from: cell(5, 5), to: cell(0, 0) },
    ]);
    assert_eq!(g.get_nav(0, 0), Some(NavCell::Impassable));
    assert_eq!(g.get_nav(1, 0), Some(NavCell::Impassable));
    assert_eq!(g.get_nav(5, 5), Some(NavCell::Passable(1)));
}

#[test]
fn initialize_from_noise_samples() {
    let mut g = NavigationGrid::new(3, 4, 3);
    let mut samples = vec![200; 12];
    samples[0] = -600; // cell (0, 0): water
    samples[4 + 3] = -300; // cell (1, 3): shallows
    samples[8 + 1] = -950; // cell (2, 1): deep water stays walkable
    assert_eq!(g.initialize(&samples), Ok(()));
    assert!(g.is_built());
    assert_eq!(g.get_nav(0, 0), Some(NavCell::Impassable));
    assert_eq!(g.get_nav(1, 3), Some(NavCell::Impassable));
    assert_eq!(g.get_nav(2, 1), Some(NavCell::Passable(1)));
    assert_eq!(g.get_nav(1, 1), Some(NavCell::Passable(1)));
    assert_eq!(g.initialize(&vec![0; 11]), Err(InitError::SampleCount));
}
