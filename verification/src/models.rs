//! Neuron models that need nothing but integers.

use vstd::prelude::*;
use crate::codec::{is_binary_matrix, is_rectangular};
use crate::laws::{
    fires_from, is_silent_matrix, layer_at_rest, lemma_selecting_layer_copies_input,
    lemma_silent_input_silent_output, quiet_at_rest, selects_inputs, silent_matrix,
};
use crate::network::NetworkView;
use crate::neuron::{Neuron, WEIGHT_ONE};

verus! {

/// A neuron without memory: it fires exactly on the weighted sums that reach its threshold.
#[derive(Clone, Copy, Debug)]
pub struct ThresholdNeuron {
    /// The least weighted sum on which the neuron fires, in millionths of a weight unit.
    pub threshold: i128,
}

impl ThresholdNeuron {
    /// A neuron that fires on the weighted sums from `threshold` on.
    pub fn new(threshold: i128) -> (neuron: Self)
        ensures
            neuron.threshold == threshold,
    {
        ThresholdNeuron { threshold }
    }
}

impl Neuron for ThresholdNeuron {
    open spec fn fires(&self, t: u64, weighted_sum: i128) -> bool {
        weighted_sum >= self.threshold
    }

    open spec fn next(&self, t: u64, weighted_sum: i128) -> Self {
        *self
    }

    fn compute_v_mem(&mut self, t: u64, weighted_sum: i128) -> (fired: bool) {
        weighted_sum >= self.threshold
    }
}

/// A network of threshold neurons with thresholds above zero, none of whose layers emitted a
/// spike last, gives no spike for an input without a spike.
pub proof fn lemma_threshold_network_stays_silent(
    net: NetworkView<ThresholdNeuron>,
    matrix: Seq<Seq<u8>>,
    duration: nat,
)
    requires
        net.wf(),
        matrix.len() == net.input_dim(),
        is_rectangular(matrix, duration),
        is_silent_matrix(matrix),
        forall|l: int|
            0 <= l < net.layers.len() ==> layer_at_rest(
                #[trigger] net.layers[l],
                |n: ThresholdNeuron| n.threshold > 0,
            ),
    ensures
        net.output(matrix, duration) == silent_matrix(net.output_dim(), duration),
{
    let rest = |n: ThresholdNeuron| n.threshold > 0;
    assert(quiet_at_rest(rest));
    lemma_silent_input_silent_output(net, matrix, duration, rest);
}

/// A network of one layer of threshold neurons that selects its inputs gives back the input
/// matrix, if the threshold of every neuron is `threshold`, above zero and at most one unit.
pub proof fn lemma_threshold_layer_copies_input(
    net: NetworkView<ThresholdNeuron>,
    matrix: Seq<Seq<u8>>,
    duration: nat,
    threshold: i128,
)
    requires
        net.wf(),
        net.layers.len() == 1,
        selects_inputs(net.layers[0], |n: ThresholdNeuron| n.threshold == threshold),
        0 < threshold <= WEIGHT_ONE,
        matrix.len() == net.input_dim(),
        is_rectangular(matrix, duration),
        is_binary_matrix(matrix),
        duration <= u64::MAX,
    ensures
        net.output(matrix, duration) == matrix,
{
    let model = |n: ThresholdNeuron| n.threshold == threshold;
    assert(fires_from(model, threshold));
    lemma_selecting_layer_copies_input(net, matrix, duration, model, threshold);
}

} // verus!
