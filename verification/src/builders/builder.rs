//! The builder whose steps fix the widths of the layers in their types.
//!
//! A layer is added in three steps, each of its own type: the extra weights, the neurons
//! and the intra weights. After a layer the network can be built, or another layer added.

use vstd::prelude::*;
use crate::codec::rows_view;
use crate::error::ConstructionError;
use crate::network::NetworkView;
use crate::neuron::Neuron;
use crate::snn::SNN;
use crate::topology::{assemble, neuron_lists, TopologyView};
use crate::weights::weight_rows_of;

verus! {

/// The parts of a network that is being put together.
#[derive(Debug)]
pub struct SnnParams<N: Neuron> {
    /// The number of inputs of the network.
    pub input_dimensions: usize,
    /// The neurons of each layer.
    pub neurons: Vec<Vec<N>>,
    /// The weights of the connections between each layer and the one before it.
    pub extra_weights: Vec<Vec<Vec<i32>>>,
    /// The weights of the connections inside each layer.
    pub intra_weights: Vec<Vec<Vec<i32>>>,
}

impl<N: Neuron> View for SnnParams<N> {
    type V = TopologyView<N>;

    open spec fn view(&self) -> TopologyView<N> {
        TopologyView {
            input_dim: self.input_dimensions as nat,
            neurons: neuron_lists(self.neurons@),
            extra_weights: self.extra_weights.deep_view(),
            intra_weights: self.intra_weights.deep_view(),
        }
    }
}

/// The defect for which parts are rejected as a network of `output_dim` outputs, if they
/// have one.
pub open spec fn build_defect<N: Neuron>(parts: TopologyView<N>, output_dim: nat) -> Option<
    ConstructionError,
> {
    if parts.defect() is Some {
        parts.defect()
    } else if parts.neurons.last().len() != output_dim {
        Some(ConstructionError::OutputWidthMismatch)
    } else {
        None
    }
}

/// Moves the items of an array into a vector.
fn vec_of<T, const LEN: usize>(items: [T; LEN]) -> (v: Vec<T>)
    ensures
        v@ == items@,
{
    let boxed: Box<[T]> = Box::new(items);
    boxed.into_vec()
}

/// Where a network starts: no layer yet.
#[derive(Debug)]
pub struct SnnBuilder<N: Neuron> {
    params: SnnParams<N>,
}

impl<N: Neuron> View for SnnBuilder<N> {
    type V = TopologyView<N>;

    closed spec fn view(&self) -> TopologyView<N> {
        self.params@
    }
}

impl<N: Neuron> SnnBuilder<N> {
    /// A builder without any layer.
    pub fn new() -> (builder: Self)
        ensures
            builder@ == (TopologyView::<N> {
                input_dim: 0,
                neurons: Seq::empty(),
                extra_weights: Seq::empty(),
                intra_weights: Seq::empty(),
            }),
    {
        let builder = Self {
            params: SnnParams {
                input_dimensions: 0,
                neurons: Vec::new(),
                extra_weights: Vec::new(),
                intra_weights: Vec::new(),
            },
        };
        assert(builder.params@.neurons =~= Seq::empty());
        assert(builder.params@.extra_weights =~= Seq::empty());
        assert(builder.params@.intra_weights =~= Seq::empty());
        builder
    }

    /// Starts the first layer of a network of `INPUT_DIM` inputs.
    pub fn add_layer<const INPUT_DIM: usize>(self) -> (next: WeightsBuilder<N, INPUT_DIM, INPUT_DIM>)
        ensures
            next@ == (TopologyView { input_dim: INPUT_DIM as nat, ..self@ }),
    {
        let mut params = self.params;
        params.input_dimensions = INPUT_DIM;
        WeightsBuilder::<N, INPUT_DIM, INPUT_DIM>::new(params)
    }
}

/// The step that takes the extra weights of a layer of `INPUT_DIM` inputs, in a network of
/// `NET_INPUT_DIM` inputs.
#[derive(Debug)]
pub struct WeightsBuilder<N: Neuron, const INPUT_DIM: usize, const NET_INPUT_DIM: usize> {
    params: SnnParams<N>,
}

impl<N: Neuron, const INPUT_DIM: usize, const NET_INPUT_DIM: usize> View for WeightsBuilder<
    N,
    INPUT_DIM,
    NET_INPUT_DIM,
> {
    type V = TopologyView<N>;

    closed spec fn view(&self) -> TopologyView<N> {
        self.params@
    }
}

impl<N: Neuron, const INPUT_DIM: usize, const NET_INPUT_DIM: usize> WeightsBuilder<
    N,
    INPUT_DIM,
    NET_INPUT_DIM,
> {
    /// The step on the parts put together so far.
    pub fn new(params: SnnParams<N>) -> (step: Self)
        ensures
            step@ == params@,
    {
        Self { params }
    }

    /// Takes the weights of the connections between the layer before and the new one: one
    /// row per neuron of the new layer, one weight per neuron of the layer before.
    pub fn weights<const NUM_NEURONS: usize>(
        self,
        weights: [[i32; INPUT_DIM]; NUM_NEURONS],
    ) -> (next: NeuronsBuilder<N, NUM_NEURONS, NET_INPUT_DIM>)
        ensures
            next@ == (TopologyView {
                extra_weights: self@.extra_weights.push(rows_view(weights@)),
                ..self@
            }),
    {
        let mut params = self.params;
        let weights_vec = weight_rows_of(weights.as_slice());
        let ghost before = params.extra_weights.deep_view();
        params.extra_weights.push(weights_vec);
        assert(params.extra_weights.deep_view() =~= before.push(rows_view(weights@)));
        NeuronsBuilder::<N, NUM_NEURONS, NET_INPUT_DIM>::new(params)
    }
}

/// The step that takes the `NUM_NEURONS` neurons of a layer.
#[derive(Debug)]
pub struct NeuronsBuilder<N: Neuron, const NUM_NEURONS: usize, const NET_INPUT_DIM: usize> {
    params: SnnParams<N>,
}

impl<N: Neuron, const NUM_NEURONS: usize, const NET_INPUT_DIM: usize> View for NeuronsBuilder<
    N,
    NUM_NEURONS,
    NET_INPUT_DIM,
> {
    type V = TopologyView<N>;

    closed spec fn view(&self) -> TopologyView<N> {
        self.params@
    }
}

impl<N: Neuron, const NUM_NEURONS: usize, const NET_INPUT_DIM: usize> NeuronsBuilder<
    N,
    NUM_NEURONS,
    NET_INPUT_DIM,
> {
    /// The step on the parts put together so far.
    pub fn new(params: SnnParams<N>) -> (step: Self)
        ensures
            step@ == params@,
    {
        Self { params }
    }

    /// Takes the neurons of the layer, in their order.
    pub fn neurons(self, neurons: [N; NUM_NEURONS]) -> (next: IntraWeightsBuilder<
        N,
        NUM_NEURONS,
        NET_INPUT_DIM,
    >)
        ensures
            next@ == (TopologyView { neurons: self@.neurons.push(neurons@), ..self@ }),
    {
        let mut params = self.params;
        let ghost before = neuron_lists(params.neurons@);
        params.neurons.push(vec_of(neurons));
        assert(neuron_lists(params.neurons@) =~= before.push(neurons@));
        IntraWeightsBuilder::<N, NUM_NEURONS, NET_INPUT_DIM>::new(params)
    }
}

/// The step that takes the intra weights of a layer of `NUM_NEURONS` neurons.
#[derive(Debug)]
pub struct IntraWeightsBuilder<N: Neuron, const NUM_NEURONS: usize, const NET_INPUT_DIM: usize> {
    params: SnnParams<N>,
}

impl<N: Neuron, const NUM_NEURONS: usize, const NET_INPUT_DIM: usize> View for IntraWeightsBuilder<
    N,
    NUM_NEURONS,
    NET_INPUT_DIM,
> {
    type V = TopologyView<N>;

    closed spec fn view(&self) -> TopologyView<N> {
        self.params@
    }
}

impl<N: Neuron, const NUM_NEURONS: usize, const NET_INPUT_DIM: usize> IntraWeightsBuilder<
    N,
    NUM_NEURONS,
    NET_INPUT_DIM,
> {
    /// The step on the parts put together so far.
    pub fn new(params: SnnParams<N>) -> (step: Self)
        ensures
            step@ == params@,
    {
        Self { params }
    }

    /// Takes the weights of the connections inside the layer: one row per neuron, in which
    /// entry `y` of row `x` weighs the connection from neuron `y` to neuron `x`. The entry
    /// of a neuron onto itself is never applied.
    pub fn intra_weights(self, intra_weights: [[i32; NUM_NEURONS]; NUM_NEURONS]) -> (next:
        LayerBuilder<N, NUM_NEURONS, NET_INPUT_DIM>)
        ensures
            next@ == (TopologyView {
                intra_weights: self@.intra_weights.push(rows_view(intra_weights@)),
                ..self@
            }),
    {
        let mut params = self.params;
        let intra_weights_vec = weight_rows_of(intra_weights.as_slice());
        let ghost before = params.intra_weights.deep_view();
        params.intra_weights.push(intra_weights_vec);
        assert(params.intra_weights.deep_view() =~= before.push(rows_view(intra_weights@)));
        LayerBuilder::<N, NUM_NEURONS, NET_INPUT_DIM>::new(params)
    }
}

/// The step after a layer of `OUTPUT_DIM` neurons: the network can be built, or another
/// layer added.
#[derive(Debug)]
pub struct LayerBuilder<N: Neuron, const OUTPUT_DIM: usize, const NET_INPUT_DIM: usize> {
    params: SnnParams<N>,
}

impl<N: Neuron, const OUTPUT_DIM: usize, const NET_INPUT_DIM: usize> View for LayerBuilder<
    N,
    OUTPUT_DIM,
    NET_INPUT_DIM,
> {
    type V = TopologyView<N>;

    closed spec fn view(&self) -> TopologyView<N> {
        self.params@
    }
}

impl<N: Neuron, const OUTPUT_DIM: usize, const NET_INPUT_DIM: usize> LayerBuilder<
    N,
    OUTPUT_DIM,
    NET_INPUT_DIM,
> {
    /// The step on the parts put together so far.
    pub fn new(params: SnnParams<N>) -> (step: Self)
        ensures
            step@ == params@,
    {
        Self { params }
    }

    /// Builds the network of the layers put together so far. The first layer takes
    /// `NET_INPUT_DIM` inputs, and every layer starts without a spike emitted. The parts are
    /// checked once more as a whole, and rejected on the first defect.
    pub fn build(self) -> (res: Result<SNN<N, NET_INPUT_DIM, OUTPUT_DIM>, ConstructionError>)
        ensures
            match res {
                Ok(snn) => {
                    &&& build_defect(
                        TopologyView { input_dim: NET_INPUT_DIM as nat, ..self@ },
                        OUTPUT_DIM as nat,
                    ) is None
                    &&& snn@ == (NetworkView {
                        layers: (TopologyView { input_dim: NET_INPUT_DIM as nat, ..self@ }).layers(),
                        skip_silent: false,
                    })
                    &&& snn.wf()
                },
                Err(e) => build_defect(
                    TopologyView { input_dim: NET_INPUT_DIM as nat, ..self@ },
                    OUTPUT_DIM as nat,
                ) == Some(e),
            },
    {
        let ghost parts = TopologyView { input_dim: NET_INPUT_DIM as nat, ..self@ };
        let params = self.params;
        let layers = match assemble(
            NET_INPUT_DIM,
            params.neurons,
            params.extra_weights,
            params.intra_weights,
        ) {
            Ok(layers) => layers,
            Err(e) => {
                return Err(e);
            },
        };
        proof {
            parts.lemma_assembles_into_chain();
        }
        SNN::<N, NET_INPUT_DIM, OUTPUT_DIM>::new(layers)
    }

    /// Starts another layer, which takes the `OUTPUT_DIM` neurons of this one as inputs.
    pub fn add_layer(self) -> (next: WeightsBuilder<N, OUTPUT_DIM, NET_INPUT_DIM>)
        ensures
            next@ == self@,
    {
        WeightsBuilder::<N, OUTPUT_DIM, NET_INPUT_DIM>::new(self.params)
    }
}

} // verus!
