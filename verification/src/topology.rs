//! The parts of a network, layer by layer, and how they are assembled into layers.

use vstd::prelude::*;
use crate::error::ConstructionError;
use crate::layer::{check_shape, shape_defect, silence, Layer, LayerView};
use crate::network::is_chain;
use crate::neuron::{Neuron, WEIGHT_ONE};
use crate::weights::{lemma_rows_defect_none, ranged_defect};

verus! {

/// The lists of neurons that a vector of vectors holds.
pub open spec fn neuron_lists<N>(neurons: Seq<Vec<N>>) -> Seq<Seq<N>> {
    Seq::new(neurons.len(), |l: int| neurons[l]@)
}

/// The parts of a network before they are assembled: for each layer its neurons, its extra
/// weights and its intra weights.
pub struct TopologyView<N> {
    /// The number of inputs of the network.
    pub input_dim: nat,
    /// The neurons of each layer.
    pub neurons: Seq<Seq<N>>,
    /// The extra weights of each layer.
    pub extra_weights: Seq<Seq<Seq<i32>>>,
    /// The intra weights of each layer.
    pub intra_weights: Seq<Seq<Seq<i32>>>,
}

impl<N: Neuron> TopologyView<N> {
    /// The number of inputs that layer `l` is to take: those of the network for the first
    /// layer, and for any other the number of neurons of the layer before it.
    pub open spec fn layer_input_dim(self, l: int) -> nat {
        if l <= 0 {
            self.input_dim
        } else {
            self.neurons[l - 1].len()
        }
    }

    /// Layer `l` as it is assembled: it has emitted no spike yet.
    pub open spec fn layer(self, l: int) -> LayerView<N> {
        LayerView {
            input_dim: self.layer_input_dim(l),
            neurons: self.neurons[l],
            extra_weights: self.extra_weights[l],
            intra_weights: self.intra_weights[l],
            prev_output_spikes: silence(self.neurons[l].len()),
        }
    }

    /// The layers as they are assembled.
    pub open spec fn layers(self) -> Seq<LayerView<N>> {
        Seq::new(self.neurons.len(), |l: int| self.layer(l))
    }

    /// The shape defect of layer `l`, if it has one.
    pub open spec fn layer_defect(self, l: int) -> Option<ConstructionError> {
        shape_defect(
            self.layer_input_dim(l),
            self.neurons[l].len(),
            self.extra_weights[l],
            self.intra_weights[l],
        )
    }

    /// The defect of the first defective layer among the first `k`.
    pub open spec fn layers_defect(self, k: int) -> Option<ConstructionError>
        decreases k,
    {
        if k <= 0 {
            None
        } else {
            match self.layers_defect(k - 1) {
                Some(e) => Some(e),
                None => self.layer_defect(k - 1),
            }
        }
    }

    /// The defect for which the parts are rejected, if they have one: the three lists have
    /// to describe the same number of layers, at least one, and then the layers are looked
    /// at in their order.
    pub open spec fn defect(self) -> Option<ConstructionError> {
        if self.extra_weights.len() != self.neurons.len() || self.intra_weights.len()
            != self.neurons.len() {
            Some(ConstructionError::LayerCountMismatch)
        } else if self.neurons.len() == 0 {
            Some(ConstructionError::NoLayers)
        } else {
            self.layers_defect(self.neurons.len() as int)
        }
    }

    /// The defect of layer `l` where weights have to lie in their ranges, if it has one.
    pub open spec fn ranged_layer_defect(self, l: int) -> Option<ConstructionError> {
        ranged_defect(
            self.layer_input_dim(l),
            self.neurons[l].len(),
            self.extra_weights[l],
            self.intra_weights[l],
        )
    }

    /// The three lists describe the same number of layers, and every layer has weights of
    /// the right shape that lie in their ranges: extra weights between zero and one unit,
    /// intra weights between minus one unit and zero.
    pub open spec fn is_conventional(self) -> bool {
        &&& self.extra_weights.len() == self.neurons.len()
        &&& self.intra_weights.len() == self.neurons.len()
        &&& forall|l: int|
            0 <= l < self.neurons.len() ==> #[trigger] self.ranged_layer_defect(l) is None
    }

    /// Parts whose weights have the right shape and lie in their ranges have no defect
    /// other than that there may be no layer.
    pub proof fn lemma_conventional_assembles(self)
        requires
            self.is_conventional(),
        ensures
            self.neurons.len() > 0 ==> self.defect() is None,
            self.neurons.len() == 0 ==> self.defect() == Some(ConstructionError::NoLayers),
    {
        self.lemma_layers_defect_none(self.neurons.len() as int);
        assert forall|l: int| 0 <= l < self.neurons.len() implies #[trigger] self.layer_defect(
            l,
        ) is None by {
            assert(self.ranged_layer_defect(l) is None);
            let n = self.neurons[l].len();
            let extra = self.extra_weights[l];
            let intra = self.intra_weights[l];
            lemma_rows_defect_none(
                extra,
                self.layer_input_dim(l),
                0,
                WEIGHT_ONE as int,
                extra.len() as int,
            );
            lemma_rows_defect_none(intra, n, -(WEIGHT_ONE as int), 0, intra.len() as int);
        }
    }

    /// The first `k` layers have no defect exactly if none of them has one.
    pub proof fn lemma_layers_defect_none(self, k: int)
        requires
            0 <= k,
        ensures
            self.layers_defect(k) is None <==> (forall|l: int|
                0 <= l < k ==> #[trigger] self.layer_defect(l) is None),
        decreases k,
    {
        if k > 0 {
            self.lemma_layers_defect_none(k - 1);
        }
    }

    /// The first defect found stays the answer however many more layers are looked at.
    pub proof fn lemma_layers_defect_stays(self, n: int, k: int)
        requires
            n <= k,
            self.layers_defect(n) is Some,
        ensures
            self.layers_defect(k) == self.layers_defect(n),
        decreases k - n,
    {
        if n < k {
            self.lemma_layers_defect_stays(n, k - 1);
        }
    }

    /// Parts without a defect assemble into a chain of at least one layer.
    pub proof fn lemma_assembles_into_chain(self)
        requires
            self.defect() is None,
        ensures
            self.layers().len() > 0,
            is_chain(self.layers()),
            self.layers()[0].input_dim == self.input_dim,
    {
        self.lemma_layers_defect_none(self.neurons.len() as int);
        assert forall|l: int| 0 <= l < self.layers().len() implies (#[trigger] self.layers()[l]).wf(
        ) by {
            assert(self.layer_defect(l) is None);
        }
    }
}

/// `copy` holds what cloning the parts `parts` gives: the same widths and weights, and a
/// clone of each neuron in its place.
pub open spec fn is_topology_clone<N: Neuron + Clone>(
    parts: TopologyView<N>,
    copy: TopologyView<N>,
) -> bool {
    &&& copy.input_dim == parts.input_dim
    &&& copy.extra_weights == parts.extra_weights
    &&& copy.intra_weights == parts.intra_weights
    &&& copy.neurons.len() == parts.neurons.len()
    &&& forall|l: int|
        0 <= l < parts.neurons.len() ==> (#[trigger] copy.neurons[l]).len()
            == parts.neurons[l].len()
    &&& forall|l: int, i: int|
        0 <= l < parts.neurons.len() && 0 <= i < parts.neurons[l].len() ==> cloned(
            #[trigger] parts.neurons[l][i],
            copy.neurons[l][i],
        )
}

/// Assembles the layers of a network of `input_dim` inputs from the neurons, the extra
/// weights and the intra weights of each layer. Every layer but the first takes as many
/// inputs as the layer before it has neurons.
pub fn assemble<N: Neuron>(
    input_dim: usize,
    neurons: Vec<Vec<N>>,
    extra_weights: Vec<Vec<Vec<i32>>>,
    intra_weights: Vec<Vec<Vec<i32>>>,
) -> (res: Result<Vec<Layer<N>>, ConstructionError>)
    ensures
        match res {
            Ok(layers) => {
                &&& (TopologyView {
                    input_dim: input_dim as nat,
                    neurons: neuron_lists(neurons@),
                    extra_weights: extra_weights.deep_view(),
                    intra_weights: intra_weights.deep_view(),
                }).defect() is None
                &&& layers.deep_view() == (TopologyView {
                    input_dim: input_dim as nat,
                    neurons: neuron_lists(neurons@),
                    extra_weights: extra_weights.deep_view(),
                    intra_weights: intra_weights.deep_view(),
                }).layers()
            },
            Err(e) => (TopologyView {
                input_dim: input_dim as nat,
                neurons: neuron_lists(neurons@),
                extra_weights: extra_weights.deep_view(),
                intra_weights: intra_weights.deep_view(),
            }).defect() == Some(e),
        },
{
    let ghost parts = TopologyView {
        input_dim: input_dim as nat,
        neurons: neuron_lists(neurons@),
        extra_weights: extra_weights.deep_view(),
        intra_weights: intra_weights.deep_view(),
    };
    let count: usize = neurons.len();
    if extra_weights.len() != count || intra_weights.len() != count {
        return Err(ConstructionError::LayerCountMismatch);
    }
    if count == 0 {
        return Err(ConstructionError::NoLayers);
    }
    let mut l: usize = 0;
    while l < count
        invariant
            l <= count,
            count == neurons@.len(),
            count == extra_weights@.len(),
            count == intra_weights@.len(),
            parts == (TopologyView {
                input_dim: input_dim as nat,
                neurons: neuron_lists(neurons@),
                extra_weights: extra_weights.deep_view(),
                intra_weights: intra_weights.deep_view(),
            }),
            parts.layers_defect(l as int) is None,
        decreases count - l,
    {
        let takes: usize = if l == 0 {
            input_dim
        } else {
            neurons[l - 1].len()
        };
        assert(parts.extra_weights[l as int] == extra_weights@[l as int].deep_view());
        assert(parts.intra_weights[l as int] == intra_weights@[l as int].deep_view());
        match check_shape(takes, neurons[l].len(), &extra_weights[l], &intra_weights[l]) {
            Some(e) => {
                proof {
                    parts.lemma_layers_defect_stays(l + 1, count as int);
                }
                return Err(e);
            },
            None => {},
        }
        l += 1;
    }
    proof {
        parts.lemma_layers_defect_none(count as int);
    }
    let mut neurons = neurons;
    let mut extra_weights = extra_weights;
    let mut intra_weights = intra_weights;
    let mut reversed: Vec<Layer<N>> = Vec::new();
    while neurons.len() > 0
        invariant
            neurons@.len() <= count,
            extra_weights@.len() == neurons@.len(),
            intra_weights@.len() == neurons@.len(),
            count == parts.neurons.len(),
            count == parts.extra_weights.len(),
            count == parts.intra_weights.len(),
            parts.input_dim == input_dim,
            forall|j: int| 0 <= j < neurons@.len() ==> (#[trigger] neurons@[j])@ == parts.neurons[j],
            forall|j: int|
                0 <= j < neurons@.len() ==> (#[trigger] extra_weights@[j]).deep_view()
                    == parts.extra_weights[j],
            forall|j: int|
                0 <= j < neurons@.len() ==> (#[trigger] intra_weights@[j]).deep_view()
                    == parts.intra_weights[j],
            forall|j: int| 0 <= j < count ==> #[trigger] parts.layer_defect(j) is None,
            reversed@.len() == count - neurons@.len(),
            forall|j: int|
                0 <= j < reversed@.len() ==> (#[trigger] reversed@[j])@ == parts.layer(
                    count - 1 - j,
                ),
        decreases neurons@.len(),
    {
        let ghost at = neurons@.len() - 1;
        let layer_neurons = neurons.pop().unwrap();
        let layer_extra_weights = extra_weights.pop().unwrap();
        let layer_intra_weights = intra_weights.pop().unwrap();
        let takes: usize = if neurons.len() == 0 {
            input_dim
        } else {
            neurons[neurons.len() - 1].len()
        };
        assert(parts.layer_defect(at) is None);
        match Layer::new(takes, layer_neurons, layer_extra_weights, layer_intra_weights) {
            Ok(layer) => {
                reversed.push(layer);
            },
            Err(e) => {
                return Err(e);
            },
        }
    }
    let mut layers: Vec<Layer<N>> = Vec::new();
    let ghost backwards = reversed@;
    while reversed.len() > 0
        invariant
            backwards.len() == count,
            reversed@.len() <= count,
            reversed@ == backwards.take(reversed@.len() as int),
            layers@.len() == count - reversed@.len(),
            forall|j: int|
                0 <= j < layers@.len() ==> (#[trigger] layers@[j])@ == backwards[count - 1 - j]@,
        decreases reversed@.len(),
    {
        let layer = reversed.pop().unwrap();
        layers.push(layer);
    }
    assert(layers.deep_view() =~= parts.layers());
    Ok(layers)
}

} // verus!
