//! Budget-constrained selection of items (a 0/1 knapsack over prices and
//! profit percentages), solved by five search strategies, together with a
//! checker that recomputes the totals of any reported selection.

pub mod model;
pub mod units;
pub mod greedy;
pub mod exhaustive;
pub mod pruned;
pub mod checker;
pub mod algorithms;
