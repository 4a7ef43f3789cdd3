//! Neural network model: neurons, weighted connections, and the network
//! that holds them.

pub mod connection;
pub mod lemmas;
pub mod math;
pub mod model;
pub mod network;
pub mod neuron;
pub mod theorems;
