use chunkworld::agents::{Agent, MoveOrder, Object, SelectedEntities};
use chunkworld::nav::{AgentMove, GridCell};

fn cell(x: u32, y: u32) -> GridCell {
    GridCell { x, y }
}

#[test]
fn click_toggles_the_agent_on_the_cell() {
    let agents = vec![Agent { id: 1, cell: cell(8, 0) }, Agent { id: 2, cell: cell(4, 0) }];
    let mut s = SelectedEntities::new();
    s.click(Object::Nothing, &agents, cell(4, 0));
    assert!(s.contains(2));
    assert_eq!(s.len(), 1);
    s.click(Object::Action, &agents, cell(8, 0));
    assert_eq!(s.len(), 2);
    s.click(Object::Nothing, &agents, cell(4, 0));
    assert!(!s.contains(2));
    assert!(s.contains(1));
}

#[test]
fn click_on_empty_cell_clears() {
    let agents = vec![Agent { id: 7, cell: cell(1, 1) }];
    let mut s = SelectedEntities::new();
    s.click(Object::Nothing, &agents, cell(1, 1));
    assert_eq!(s.len(), 1);
    s.click(Object::Nothing, &agents, cell(2, 2));
    assert_eq!(s.len(), 0);
}

#[test]
fn click_with_a_worker_in_hand_keeps_the_selection() {
    let agents = vec![Agent { id: 4, cell: cell(0, 0) }];
    let mut s = SelectedEntities::new();
    s.click(Object::Worker, &agents, cell(0, 0));
    assert_eq!(s.len(), 0);
    s.click(Object::Action, &agents, cell(0, 0));
    s.click(Object::Worker, &agents, cell(3, 3));
    assert!(s.contains(4));
}

#[test]
fn move_orders_follow_selection_order() {
    let mut s = SelectedEntities::new();
    assert!(s.move_orders(cell(3, 3)).is_empty());
    s.toggle(5);
    s.toggle(9);
    assert_eq!(
        s.move_orders(cell(3, 3)),
        vec![MoveOrder { agent: 5, goal: cell(3, 3) }, MoveOrder { agent: 9, goal: cell(3, 3) }]
    );
    s.clear();
    assert_eq!(s.len(), 0);
}

#[test]
fn agent_advance_reports_moves() {
    let mut a = Agent { id: 3, cell: cell(2, 2) };
    assert_eq!(a.advance(cell(3, 2)), Some(AgentMove { from: cell(2, 2), to: cell(3, 2) }));
    assert_eq!(a.cell, cell(3, 2));
    assert_eq!(a.advance(cell(3, 2)), None);
}
