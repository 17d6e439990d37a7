pub mod bfs;
pub mod jugs;
pub mod search;
