//! An ordered map from `i64` keys to values, stored in a B-tree whose nodes are
//! rebalanced on the way down: full children are split before an insert enters
//! them, and minimal children are topped up before a removal enters them.

pub mod laws;
pub mod map;
pub mod node;
pub mod seqmap;
pub mod tree;

mod insert;
mod remove;
mod search;
