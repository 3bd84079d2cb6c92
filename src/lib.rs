pub mod coordinator;
pub mod dataset;
pub mod draw;
pub mod evaluate;
pub mod evolve;
pub mod heap_tree;
pub mod invariance;
pub mod path_tally;
pub mod search;
pub mod tree;
pub mod worker;
