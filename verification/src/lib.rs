//! A scalar-valued reverse-mode automatic differentiation engine and a small
//! multi-layer perceptron built on it.
//!
//! The library keeps the computation graph, decides the order of the backward
//! pass and walks it, builds and runs the network structure and keeps its
//! parameters; the scalar arithmetic itself (the value of each operation and
//! its local derivatives) is supplied by the caller.
pub mod hyper_engine;
pub mod hyper_neuron;
pub mod text;
pub mod topo;

pub use hyper_engine::{Graph, Op, Value};
pub use hyper_neuron::{Layer, Module, Neuron, MLP};
