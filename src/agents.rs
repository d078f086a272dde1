//! Agents on the navigation grid, and the set of agents the player selected.

use vstd::prelude::*;
use crate::nav::{AgentMove, GridCell};

verus! {

/// An agent standing on a grid cell.
#[derive(Clone, Copy, Debug, PartialEq, Eq, Structural)]
pub struct Agent {
    pub id: u64,
    pub cell: GridCell,
}

/// What the player holds in hand; agents are picked only with nothing or
/// with the action tool.
#[derive(Clone, Copy, Debug, PartialEq, Eq, Structural)]
pub enum Object {
    Nothing,
    Action,
    Worker,
}

/// A path request for one agent.
#[derive(Clone, Copy, Debug, PartialEq, Eq, Structural)]
pub struct MoveOrder {
    pub agent: u64,
    pub goal: GridCell,
}

impl Agent {
    /// Moves the agent onto `next`, the next cell of its path. When the cell
    /// changes, the move is returned for the occupancy update.
    pub fn advance(&mut self, next: GridCell) -> (m: Option<AgentMove>)
        ensures
            final(self).id == old(self).id,
            final(self).cell == next,
            m == (if old(self).cell == next {
                None
            } else {
                Some(AgentMove { from: old(self).cell, to: next })
            }),
    {
        let from = self.cell;
        self.cell = next;
        if from == next {
            None
        } else {
            Some(AgentMove { from, to: next })
        }
    }
}

/// Index of the first agent of `agents` standing on `cell`.
pub open spec fn first_at(agents: Seq<Agent>, cell: GridCell, i: int) -> bool {
    &&& 0 <= i < agents.len()
    &&& agents[i].cell == cell
    &&& forall|j: int| 0 <= j < i ==> (#[trigger] agents[j]).cell != cell
}

/// The agents the player has selected, in the order they were selected.
pub struct SelectedEntities {
    ids: Vec<u64>,
}

impl SelectedEntities {
    pub closed spec fn ids(self) -> Seq<u64> {
        self.ids@
    }

    /// The selected agents.
    pub open spec fn view(self) -> Set<u64> {
        self.ids().to_set()
    }

    /// Each agent is selected at most once.
    pub open spec fn wf(self) -> bool {
        self.ids().no_duplicates()
    }

    pub fn new() -> (s: SelectedEntities)
        ensures
            s.wf(),
            s.view() == Set::<u64>::empty(),
    {
        let s = SelectedEntities { ids: Vec::new() };
        assert(s.view() =~= Set::<u64>::empty());
        s
    }

    /// Number of selected agents.
    pub fn len(&self) -> (n: usize)
        requires
            self.wf(),
        ensures
            n == self.view().len(),
    {
        proof {
            self.ids().unique_seq_to_set();
        }
        self.ids.len()
    }

    fn position(&self, id: u64) -> (r: Option<usize>)
        ensures
            match r {
                Some(i) => i < self.ids().len() && self.ids()[i as int] == id,
                None => !self.ids().contains(id),
            },
    {
        let mut i: usize = 0;
        while i < self.ids.len()
            invariant
                0 <= i <= self.ids().len(),
                forall|j: int| 0 <= j < i ==> self.ids()[j] != id,
            decreases self.ids().len() - i,
        {
            if self.ids[i] == id {
                return Some(i);
            }
            i = i + 1;
        }
        None
    }

    /// Whether agent `id` is selected.
    pub fn contains(&self, id: u64) -> (b: bool)
        ensures
            b == self.view().contains(id),
    {
        self.position(id).is_some()
    }

    /// Selects agent `id` if it was not selected, else deselects it.
    pub fn toggle(&mut self, id: u64)
        requires
            old(self).wf(),
        ensures
            final(self).wf(),
            old(self).view().contains(id) ==> final(self).view() == old(self).view().remove(id),
            !old(self).view().contains(id) ==> final(self).view() == old(self).view().insert(id),
    {
        match self.position(id) {
            Some(i) => {
                let ghost before = self.ids@;
                self.ids.remove(i);
                proof {
                    assert(self.ids@ =~= before.remove(i as int));
                    assert forall|a: int, b: int|
                        0 <= a < self.ids@.len() && 0 <= b < self.ids@.len() && a != b implies self.ids@[a]
                        != self.ids@[b] by {
                        let a0 = if a < i { a } else { a + 1 };
                        let b0 = if b < i { b } else { b + 1 };
                        assert(before[a0] != before[b0]);
                    }
                    assert(self.view() =~= before.to_set().remove(id)) by {
                        assert forall|x: u64| self.view().contains(x) <==> before.to_set().remove(id).contains(x) by {
                            if self.ids@.contains(x) {
                                let k = choose|k: int| 0 <= k < self.ids@.len() && self.ids@[k] == x;
                                if k < i { assert(before[k] == x); } else { assert(before[k + 1] == x); }
                            }
                            if before.contains(x) && x != id {
                                let k = choose|k: int| 0 <= k < before.len() && before[k] == x;
                                if k < i { assert(self.ids@[k] == x); } else { assert(self.ids@[k - 1] == x); }
                            }
                        }
                    }
                }
            },
            None => {
                let ghost before = self.ids@;
                self.ids.push(id);
                proof {
                    assert(self.view() =~= before.to_set().insert(id)) by {
                        assert forall|x: u64| self.view().contains(x) <==> before.to_set().insert(id).contains(x) by {
                            if self.ids@.contains(x) && x != id {
                                let k = choose|k: int| 0 <= k < self.ids@.len() && self.ids@[k] == x;
                                assert(before[k] == x);
                            }
                            if before.contains(x) {
                                let k = choose|k: int| 0 <= k < before.len() && before[k] == x;
                                assert(self.ids@[k] == x);
                            }
                            if x == id {
                                assert(self.ids@[before.len() as int] == id);
                            }
                        }
                    }
                }
            },
        }
    }

    /// Deselects every agent.
    pub fn clear(&mut self)
        ensures
            final(self).wf(),
            final(self).view() == Set::<u64>::empty(),
    {
        self.ids = Vec::new();
        assert(self.view() =~= Set::<u64>::empty());
    }

    /// A click on `cell` while holding `tool`. With nothing or the action
    /// tool in hand, the first agent standing there is selected, or
    /// deselected if it was selected, and a click on a cell without an agent
    /// clears the selection. With any other tool the selection stays.
    pub fn click(&mut self, tool: Object, agents: &Vec<Agent>, cell: GridCell)
        requires
            old(self).wf(),
        ensures
            final(self).wf(),
            tool == Object::Worker ==> final(self).view() == old(self).view(),
            tool != Object::Worker ==> forall|i: int| #[trigger]
                first_at(agents@, cell, i) ==> (if old(self).view().contains(agents@[i].id) {
                    final(self).view() == old(self).view().remove(agents@[i].id)
                } else {
                    final(self).view() == old(self).view().insert(agents@[i].id)
                }),
            tool != Object::Worker && (forall|i: int|
                0 <= i < agents@.len() ==> (#[trigger] agents@[i]).cell != cell)
                ==> final(self).view() == Set::<u64>::empty(),
    {
        if tool != Object::Action && tool != Object::Nothing {
            return;
        }
        let mut i: usize = 0;
        while i < agents.len()
            invariant
                tool != Object::Worker,
                self.ids() == old(self).ids(),
                old(self).wf(),
                0 <= i <= agents@.len(),
                forall|j: int| 0 <= j < i ==> (#[trigger] agents@[j]).cell != cell,
            decreases agents@.len() - i,
        {
            if agents[i].cell == cell {
                let id = agents[i].id;
                self.toggle(id);
                proof {
                    assert forall|k: int| #[trigger] first_at(agents@, cell, k) implies k == i by {
                        if k < i {
                        } else if k > i {
                            assert(agents@[i as int].cell != cell);
                        }
                    }
                }
                return;
            }
            i = i + 1;
        }
        self.clear();
    }

    /// One path request per selected agent, in selection order, all towards
    /// `goal`; none when nothing is selected.
    pub fn move_orders(&self, goal: GridCell) -> (orders: Vec<MoveOrder>)
        ensures
            orders@.len() == self.ids().len(),
            forall|i: int|
                0 <= i < orders@.len() ==> #[trigger] orders@[i] == (MoveOrder {
                    agent: self.ids()[i],
                    goal,
                }),
    {
        let mut orders: Vec<MoveOrder> = Vec::new();
        let mut i: usize = 0;
        while i < self.ids.len()
            invariant
                0 <= i <= self.ids().len(),
                orders@.len() == i,
                forall|j: int|
                    0 <= j < i ==> #[trigger] orders@[j] == (MoveOrder { agent: self.ids()[j], goal }),
            decreases self.ids().len() - i,
        {
            orders.push(MoveOrder { agent: self.ids[i], goal });
            i = i + 1;
        }
        orders
    }
}

} // verus!
