use vstd::prelude::*;

use std::collections::VecDeque;

use crate::jugs::State;
use crate::search::{bfs_search, Node, Search};

verus! {

/// Breadth-first search over the jug states: a FIFO frontier of nodes
/// awaiting expansion, and the list of states already discovered.
pub struct BreadthFirstSearch {
    frontier: VecDeque<Node>,
    visited: Vec<State>,
}

impl Search for BreadthFirstSearch {
    closed spec fn ready(&self) -> bool {
        self.frontier@.len() == 0 && self.visited@.len() == 0
    }

    closed spec fn visited_states(&self) -> Seq<State> {
        self.visited@
    }

    fn search(&mut self, initial_state: State) -> (r: Option<Node>) {
        bfs_search(&mut self.frontier, &mut self.visited, initial_state)
    }
}

impl Default for BreadthFirstSearch {
    /// A fresh engine: empty frontier, nothing visited.
    fn default() -> (r: Self)
        ensures
            r.ready(),
            r.visited_states() == Seq::<State>::empty(),
    {
        BreadthFirstSearch { frontier: VecDeque::new(), visited: Vec::new() }
    }
}

} // verus!
