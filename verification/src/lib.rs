//! A recurrent network of freely wired neurons, trained as a character-level
//! language model: sparse topology, truncated backpropagation through time,
//! Adam, and prune-and-grow rewiring. Beside it, a small dense network.
pub mod arith;
pub mod backprop;
pub mod calls;
pub mod checkpoint;
pub mod config;
pub mod data;
pub mod effect;
pub mod graph;
pub mod mlp;
pub mod network;
pub mod optim;
mod parallel;
pub mod random;
pub mod ranking;
pub mod rigl;
pub mod scalar;
pub mod text;
pub mod train;
