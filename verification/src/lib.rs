//! A rank-priority index: a self-balancing binary search tree keyed by an
//! integer priority ("rank"), where tasks sharing a rank are held in a FIFO
//! chain so that insertion order breaks ties.

pub mod task;
pub mod chain;
pub mod model;
pub mod avl;
pub mod laws;

pub use avl::testing;
pub use avl::AvlTree;
pub use avl::TaskorLink;
pub use chain::RankChain;
pub use task::Task;
