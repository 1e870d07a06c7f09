//! The neuron capability.

use vstd::prelude::*;

verus! {

/// One weight unit. Weights and weighted sums are fixed-point numbers counted in millionths
/// of a unit.
pub const WEIGHT_ONE: i32 = 1_000_000;

/// A stateful neuron model.
///
/// A model is described by two functions of its state, the instant and the weighted sum of
/// the spikes that reach it: whether it fires, and the state it is left in. The step that
/// the engine calls has to agree with both. The engine hands a neuron the instants of one
/// run in strictly increasing order.
pub trait Neuron: Sized {
    /// Whether a neuron in this state fires when it is handed `weighted_sum` at instant `t`.
    spec fn fires(&self, t: u64, weighted_sum: i128) -> bool;

    /// The state in which that step leaves the neuron.
    spec fn next(&self, t: u64, weighted_sum: i128) -> Self;

    /// Integrates `weighted_sum` at instant `t`, updates the membrane potential and reports
    /// whether the neuron fired.
    fn compute_v_mem(&mut self, t: u64, weighted_sum: i128) -> (fired: bool)
        ensures
            fired == old(self).fires(t, weighted_sum),
            *final(self) == old(self).next(t, weighted_sum),
    ;
}

} // verus!
