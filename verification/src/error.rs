//! The ways in which building a network or handing it an input can fail.

use vstd::prelude::*;

verus! {

/// A topology was rejected while it was being assembled.
#[derive(Clone, Copy, Debug, PartialEq, Eq, Structural)]
pub enum ConstructionError {
    /// The network has no layer.
    NoLayers,
    /// The extra-weight matrix does not have one row per neuron.
    ExtraWeightsRows,
    /// A row of the extra-weight matrix does not have one entry per input of the layer.
    ExtraWeightsColumns,
    /// An extra weight lies outside the range from zero to one unit.
    ExtraWeightsRange,
    /// The intra-weight matrix does not have one row per neuron.
    IntraWeightsRows,
    /// A row of the intra-weight matrix does not have one entry per neuron.
    IntraWeightsColumns,
    /// An intra weight lies outside the range from minus one unit to zero.
    IntraWeightsRange,
    /// A layer does not take as many inputs as the layer before it has neurons.
    LayerWidthMismatch,
    /// The first layer does not take as many inputs as the type of the network states.
    InputWidthMismatch,
    /// The last layer does not have as many neurons as the type of the network states.
    OutputWidthMismatch,
    /// The lists of neurons, extra weights and intra weights do not describe the same
    /// number of layers.
    LayerCountMismatch,
}

/// An input was rejected before any of it was processed.
#[derive(Clone, Copy, Debug, PartialEq, Eq, Structural)]
pub enum InputContractError {
    /// The matrix does not have one row per input of the first layer.
    WrongWidth,
    /// A row does not span as many instants as the first row.
    RaggedRows,
    /// A spike value other than 0 and 1.
    NonBinarySpike,
}

} // verus!
