// Decides whether a recorded history of concurrent operations is
// linearizable against a sequential model of the object: `linearizer` holds
// the search and its specification, `model` the history types and the model
// contract, `models` a key-value register model, and `bitset` the compact
// sets of committed operations that the search memoizes on.

pub mod bitset;
pub mod linearizer;
pub mod model;
pub mod models;
