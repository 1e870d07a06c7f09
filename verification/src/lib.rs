//! A feed-forward spiking neural network engine with fixed-point weights.
//!
//! A network is a chain of layers. Each layer owns stateful neurons, the weights of the
//! connections that reach them from the layer before (the extra weights), the weights of the
//! connections between them (the intra weights), and the spikes that it emitted at the
//! previous instant. Weights and weighted sums are integers that count millionths of one
//! weight unit, so that every run is exact.
//!
//! A spike train is handed in as a matrix with one row per input and one column per instant.
//! It is encoded into one event per instant, the events run through the layers in order,
//! every layer emitting one event for each event that it receives, and the events that
//! leave the last layer are decoded into a matrix with one row per neuron of that layer.
//! A network can withhold the instants without any input spike from its first layer; then
//! no layer computes them, and their output columns stay zero.
//!
//! The model of a run is a function of the network and its input, written over sequences:
//! see [`layer::LayerView`] and [`network::NetworkView`]. What holds of every run is stated
//! in [`laws`]. The layers may as well work side by side, one worker per layer with a
//! channel between each two: [`pipeline`] models such a run and shows that it ends, and
//! ends with the same result, in whatever order the workers move.

pub mod builders;
pub mod codec;
pub mod dyn_snn;
pub mod error;
pub mod input;
pub mod laws;
pub mod layer;
pub mod models;
pub mod network;
pub mod neuron;
pub mod pipeline;
pub mod snn;
pub mod spike;
pub mod topology;
pub mod weights;
pub mod worker;

pub use dyn_snn::DynSNN;
pub use error::{ConstructionError, InputContractError};
pub use layer::Layer;
pub use neuron::Neuron;
pub use snn::SNN;
pub use spike::SpikeEvent;
