//! The builder that checks every layer when it is added.

use vstd::prelude::*;
use crate::dyn_snn::DynSNN;
use crate::error::ConstructionError;
use crate::network::NetworkView;
use crate::neuron::{Neuron, WEIGHT_ONE};
use crate::topology::{assemble, is_topology_clone, neuron_lists, TopologyView};
use crate::weights::{
    extra_weights_defect, find_defect, intra_weights_defect, ranged_defect, width_of,
    WeightsDefect,
};

verus! {

/// The parts of a network that is being put together.
#[derive(Debug)]
pub struct DynSnnParams<N: Neuron> {
    /// The number of inputs of the network.
    pub input_dimensions: usize,
    /// The neurons of each layer.
    pub neurons: Vec<Vec<N>>,
    /// The weights of the connections between each layer and the one before it.
    pub extra_weights: Vec<Vec<Vec<i32>>>,
    /// The weights of the connections inside each layer.
    pub intra_weights: Vec<Vec<Vec<i32>>>,
    /// The number of layers.
    pub num_layers: usize,
}

impl<N: Neuron> View for DynSnnParams<N> {
    type V = TopologyView<N>;

    open spec fn view(&self) -> TopologyView<N> {
        TopologyView {
            input_dim: self.input_dimensions as nat,
            neurons: neuron_lists(self.neurons@),
            extra_weights: self.extra_weights.deep_view(),
            intra_weights: self.intra_weights.deep_view(),
        }
    }
}

impl<N: Neuron + Clone> Clone for DynSnnParams<N> {
    /// The same widths and weights, with a clone of each neuron.
    fn clone(&self) -> (copy: Self)
        ensures
            is_topology_clone(self@, copy@),
            copy.num_layers == self.num_layers,
    {
        let copy = DynSnnParams {
            input_dimensions: self.input_dimensions,
            neurons: self.neurons.clone(),
            extra_weights: self.extra_weights.clone(),
            intra_weights: self.intra_weights.clone(),
            num_layers: self.num_layers,
        };
        assert(copy.extra_weights.deep_view() =~~= self.extra_weights.deep_view());
        assert(copy.intra_weights.deep_view() =~~= self.intra_weights.deep_view());
        assert forall|l: int| 0 <= l < self@.neurons.len() implies (#[trigger] copy@.neurons[l]).len()
            == self@.neurons[l].len() && (forall|i: int|
            0 <= i < self@.neurons[l].len() ==> cloned(
                #[trigger] self@.neurons[l][i],
                copy@.neurons[l][i],
            )) by {
            assert(cloned(self.neurons@[l], copy.neurons@[l]));
        }
        copy
    }
}

/// The number of inputs that the next layer is to take: as many as the last layer has
/// neurons, and for the first layer as many as its extra weights are written for.
pub open spec fn next_input_dim<N: Neuron>(
    parts: TopologyView<N>,
    extra_weights: Seq<Seq<i32>>,
) -> nat {
    if parts.neurons.len() == 0 {
        width_of(extra_weights)
    } else {
        parts.neurons.last().len()
    }
}

/// The parts with one more layer.
pub open spec fn with_layer<N: Neuron>(
    parts: TopologyView<N>,
    neurons: Seq<N>,
    extra_weights: Seq<Seq<i32>>,
    intra_weights: Seq<Seq<i32>>,
) -> TopologyView<N> {
    TopologyView {
        input_dim: if parts.neurons.len() == 0 {
            width_of(extra_weights)
        } else {
            parts.input_dim
        },
        neurons: parts.neurons.push(neurons),
        extra_weights: parts.extra_weights.push(extra_weights),
        intra_weights: parts.intra_weights.push(intra_weights),
    }
}

/// A builder that takes one whole layer at a time and rejects a layer whose weights have
/// the wrong shape or lie outside their ranges.
#[derive(Debug)]
pub struct DynSnnBuilder<N: Neuron> {
    params: DynSnnParams<N>,
}

impl<N: Neuron> View for DynSnnBuilder<N> {
    type V = TopologyView<N>;

    closed spec fn view(&self) -> TopologyView<N> {
        self.params@
    }
}

impl<N: Neuron + Clone> Clone for DynSnnBuilder<N> {
    /// A builder of the same layers, with a clone of each neuron.
    fn clone(&self) -> (copy: Self)
        ensures
            is_topology_clone(self@, copy@),
    {
        proof {
            use_type_invariant(self);
        }
        let params = self.params.clone();
        proof {
            assert forall|l: int| 0 <= l < params@.neurons.len() implies #[trigger] params@.ranged_layer_defect(
                l,
            ) is None by {
                assert(self.params@.ranged_layer_defect(l) is None);
                assert(params@.layer_input_dim(l) == self.params@.layer_input_dim(l));
            }
        }
        Self { params }
    }
}

impl<N: Neuron + Clone> DynSnnBuilder<N> {
    /// A clone of the parts put together so far.
    pub fn get_params(&self) -> (params: DynSnnParams<N>)
        ensures
            is_topology_clone(self@, params@),
            params.num_layers == self@.neurons.len(),
    {
        proof {
            use_type_invariant(self);
        }
        self.params.clone()
    }
}

impl<N: Neuron> DynSnnBuilder<N> {
    #[verifier::type_invariant]
    spec fn well_formed(self) -> bool {
        &&& self.params@.is_conventional()
        &&& self.params.num_layers == self.params.neurons@.len()
    }

    /// A builder without any layer.
    pub fn new() -> (builder: Self)
        ensures
            builder@ == (TopologyView::<N> {
                input_dim: 0,
                neurons: Seq::empty(),
                extra_weights: Seq::empty(),
                intra_weights: Seq::empty(),
            }),
            builder@.is_conventional(),
    {
        let params = DynSnnParams {
            input_dimensions: 0,
            neurons: Vec::new(),
            extra_weights: Vec::new(),
            intra_weights: Vec::new(),
            num_layers: 0,
        };
        assert(params@.neurons =~= Seq::empty());
        assert(params@.extra_weights =~= Seq::empty());
        assert(params@.intra_weights =~= Seq::empty());
        Self { params }
    }

    /// The number of layers added so far.
    pub fn get_layers_number(&self) -> (n: usize)
        ensures
            n == self@.neurons.len(),
            self@.is_conventional(),
    {
        proof {
            use_type_invariant(self);
        }
        self.params.num_layers
    }

    /// Tells for which defect `weights` are rejected as the intra weights of a layer of
    /// `num_neurons` neurons, if for any: there has to be one row per neuron, and every
    /// row has to hold one weight per neuron, between minus one unit and zero.
    pub fn check_intra_weights(&self, num_neurons: usize, weights: &Vec<Vec<i32>>) -> (defect:
        Option<ConstructionError>)
        ensures
            defect == intra_weights_defect(weights.deep_view(), num_neurons as nat),
    {
        match find_defect(weights, num_neurons, num_neurons, -WEIGHT_ONE, 0) {
            Some(WeightsDefect::Rows) => Some(ConstructionError::IntraWeightsRows),
            Some(WeightsDefect::Columns) => Some(ConstructionError::IntraWeightsColumns),
            Some(WeightsDefect::Range) => Some(ConstructionError::IntraWeightsRange),
            None => None,
        }
    }

    /// Tells for which defect `weights` are rejected as the extra weights of the next layer,
    /// of `num_neurons` neurons, if for any: there has to be one row per neuron, and every
    /// row has to hold one weight per neuron of the layer added last, between zero and one
    /// unit. The rows of a first layer have to be as long as the first of them.
    pub fn check_weights(&self, num_neurons: usize, weights: &Vec<Vec<i32>>) -> (defect: Option<
        ConstructionError,
    >)
        ensures
            defect == extra_weights_defect(
                weights.deep_view(),
                num_neurons as nat,
                next_input_dim(self@, weights.deep_view()),
            ),
    {
        proof {
            use_type_invariant(self);
        }
        let input_dim = self.next_input_dim(weights);
        match find_defect(weights, num_neurons, input_dim, 0, WEIGHT_ONE) {
            Some(WeightsDefect::Rows) => Some(ConstructionError::ExtraWeightsRows),
            Some(WeightsDefect::Columns) => Some(ConstructionError::ExtraWeightsColumns),
            Some(WeightsDefect::Range) => Some(ConstructionError::ExtraWeightsRange),
            None => None,
        }
    }

    /// The number of inputs that the next layer is to take, given its extra weights.
    fn next_input_dim(&self, weights: &Vec<Vec<i32>>) -> (input_dim: usize)
        ensures
            input_dim == next_input_dim(self@, weights.deep_view()),
    {
        proof {
            use_type_invariant(self);
        }
        if self.params.num_layers == 0 {
            if weights.len() == 0 {
                0
            } else {
                assert(weights.deep_view()[0] == weights@[0]@);
                weights[0].len()
            }
        } else {
            assert(self@.neurons.last() == self.params.neurons@[self.params.num_layers - 1]@);
            self.params.neurons[self.params.num_layers - 1].len()
        }
    }

    /// Adds a layer. The intra weights are checked first, then the extra weights; on a
    /// defect the layer is rejected, and the builder with it.
    pub fn add_layer(
        self,
        neurons: Vec<N>,
        extra_weights: Vec<Vec<i32>>,
        intra_weights: Vec<Vec<i32>>,
    ) -> (res: Result<Self, ConstructionError>)
        ensures
            self@.is_conventional(),
            match res {
                Ok(builder) => {
                    &&& ranged_defect(
                        next_input_dim(self@, extra_weights.deep_view()),
                        neurons@.len(),
                        extra_weights.deep_view(),
                        intra_weights.deep_view(),
                    ) is None
                    &&& builder@ == with_layer(
                        self@,
                        neurons@,
                        extra_weights.deep_view(),
                        intra_weights.deep_view(),
                    )
                    &&& builder@.is_conventional()
                },
                Err(e) => ranged_defect(
                    next_input_dim(self@, extra_weights.deep_view()),
                    neurons@.len(),
                    extra_weights.deep_view(),
                    intra_weights.deep_view(),
                ) == Some(e),
            },
    {
        proof {
            use_type_invariant(&self);
        }
        let ghost before = self@;
        match self.check_intra_weights(neurons.len(), &intra_weights) {
            Some(e) => {
                return Err(e);
            },
            None => {},
        }
        match self.check_weights(neurons.len(), &extra_weights) {
            Some(e) => {
                return Err(e);
            },
            None => {},
        }
        let input_dim = self.next_input_dim(&extra_weights);
        let mut params = self.params;
        if params.num_layers == 0 {
            params.input_dimensions = input_dim;
        }
        let ghost added = with_layer(
            before,
            neurons@,
            extra_weights.deep_view(),
            intra_weights.deep_view(),
        );
        params.neurons.push(neurons);
        params.extra_weights.push(extra_weights);
        params.intra_weights.push(intra_weights);
        params.num_layers = params.neurons.len();
        proof {
            assert(params@.neurons =~= added.neurons);
            assert(params@.extra_weights =~= added.extra_weights);
            assert(params@.intra_weights =~= added.intra_weights);
            assert(params@ == added);
            assert forall|l: int| 0 <= l < added.neurons.len() implies #[trigger] added.ranged_layer_defect(
                l,
            ) is None by {
                if l < before.neurons.len() {
                    assert(before.ranged_layer_defect(l) is None);
                    assert(added.layer_input_dim(l) == before.layer_input_dim(l));
                }
            }
        }
        Ok(Self { params })
    }

    /// Builds the network of the layers added so far, which withholds silent instants from
    /// its first layer. Every layer starts without a spike emitted. A builder without a
    /// layer is rejected.
    pub fn build(self) -> (res: Result<DynSNN<N>, ConstructionError>)
        ensures
            self@.is_conventional(),
            match res {
                Ok(snn) => {
                    &&& self@.neurons.len() > 0
                    &&& snn@ == (NetworkView { layers: self@.layers(), skip_silent: true })
                    &&& snn@.wf()
                },
                Err(e) => self@.neurons.len() == 0 && e == ConstructionError::NoLayers,
            },
    {
        proof {
            use_type_invariant(&self);
            self@.lemma_conventional_assembles();
        }
        let ghost parts = self@;
        let params = self.params;
        let layers = match assemble(
            params.input_dimensions,
            params.neurons,
            params.extra_weights,
            params.intra_weights,
        ) {
            Ok(layers) => layers,
            Err(e) => {
                return Err(e);
            },
        };
        proof {
            parts.lemma_assembles_into_chain();
        }
        DynSNN::new(layers)
    }
}

} // verus!
