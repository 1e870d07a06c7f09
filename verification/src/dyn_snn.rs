//! The network whose input width is checked when an input arrives.

use vstd::prelude::*;
use crate::codec;
use crate::codec::{encode, fits, is_binary_matrix, is_rectangular, rows_of, rows_view};
use crate::error::{ConstructionError, InputContractError};
use crate::input;
use crate::input::{check_rows, duration_of, input_defect, spike_defect};
use crate::layer::{all_of_width, is_layer_clone, Layer};
use crate::network;
use crate::network::{are_layer_clones, chain_defect, check_chain, NetworkView};
use crate::neuron::Neuron;
use crate::spike::SpikeEvent;

verus! {

/// A spiking neural network: a chain of layers. Whether its layers form a chain is stated
/// by `wf` of its view; every network that `new` hands out does, and every method keeps
/// it so.
#[derive(Debug)]
pub struct DynSNN<N: Neuron> {
    layers: Vec<Layer<N>>,
    skip_silent: bool,
}

impl<N: Neuron> View for DynSNN<N> {
    type V = NetworkView<N>;

    closed spec fn view(&self) -> NetworkView<N> {
        NetworkView { layers: self.layers.deep_view(), skip_silent: self.skip_silent }
    }
}

impl<N: Neuron + Clone> Clone for DynSNN<N> {
    /// A network of the same shape, weights and choice for silent instants, with a clone of
    /// each layer.
    fn clone(&self) -> (copy: Self)
        ensures
            are_layer_clones(self@.layers, copy@.layers),
            copy@.skip_silent == self@.skip_silent,
            self@.wf() ==> copy@.wf(),
    {
        let copy = DynSNN { layers: self.get_layers(), skip_silent: self.skip_silent };
        proof {
            if self@.wf() {
                assert forall|l: int| 0 <= l < copy@.layers.len() implies (
                #[trigger] copy@.layers[l]).wf() by {
                    assert(is_layer_clone(self@.layers[l], copy@.layers[l]));
                }
                assert forall|l: int| 0 < l < copy@.layers.len() implies (
                #[trigger] copy@.layers[l]).input_dim == copy@.layers[l - 1].neurons.len() by {
                    assert(is_layer_clone(self@.layers[l], copy@.layers[l]));
                    assert(is_layer_clone(self@.layers[l - 1], copy@.layers[l - 1]));
                }
            }
        }
        copy
    }
}

impl<N: Neuron> DynSNN<N> {
    /// A network of `layers`, which withholds silent instants from its first layer. It is
    /// rejected unless there is a layer and every layer takes as many inputs as the layer
    /// before it has neurons.
    pub fn new(layers: Vec<Layer<N>>) -> (res: Result<Self, ConstructionError>)
        ensures
            match res {
                Ok(snn) => {
                    &&& chain_defect(layers.deep_view()) is None
                    &&& snn@ == (NetworkView { layers: layers.deep_view(), skip_silent: true })
                    &&& snn@.wf()
                },
                Err(e) => chain_defect(layers.deep_view()) == Some(e),
            },
    {
        match check_chain(&layers) {
            Some(e) => Err(e),
            None => Ok(DynSNN { layers, skip_silent: true }),
        }
    }

    /// The number of layers.
    pub fn get_layers_number(&self) -> (n: usize)
        ensures
            n == self@.layers.len(),
    {
        self.layers.len()
    }

    /// Gives up the network for its layers.
    pub fn into_layers(self) -> (layers: Vec<Layer<N>>)
        ensures
            layers.deep_view() == self@.layers,
    {
        self.layers
    }

    /// Whether the network withholds silent instants from its first layer.
    pub fn skips_silent(&self) -> (skip: bool)
        ensures
            skip == self@.skip_silent,
    {
        self.skip_silent
    }

    /// Chooses whether an instant without any input spike is withheld from the first layer,
    /// so that no layer computes it and its output column stays zero, or is processed like
    /// any other.
    pub fn set_skip_silent(&mut self, skip_silent: bool)
        ensures
            final(self)@ == (NetworkView { skip_silent, ..old(self)@ }),
    {
        self.skip_silent = skip_silent;
    }

    /// The number of inputs of the network.
    pub fn get_input_dim(&self) -> (n: usize)
        requires
            self@.wf(),
        ensures
            n == self@.input_dim(),
    {
        self.layers[0].get_input_dim()
    }

    /// The number of outputs of the network.
    pub fn get_output_dim(&self) -> (n: usize)
        requires
            self@.wf(),
        ensures
            n == self@.output_dim(),
    {
        self.layers[self.layers.len() - 1].get_neurons_number()
    }

    /// Feeds `spikes` to the network and hands back what its last layer emits.
    pub fn process_events(&mut self, spikes: Vec<SpikeEvent>) -> (emitted: Vec<SpikeEvent>)
        requires
            old(self)@.wf(),
            all_of_width(spikes.deep_view(), old(self)@.input_dim()),
        ensures
            final(self)@.wf(),
            emitted.deep_view() == old(self)@.emitted(spikes.deep_view()),
            final(self)@ == old(self)@.after_events(spikes.deep_view()),
    {
        network::process_events(&mut self.layers, spikes, self.skip_silent)
    }

    /// Turns a matrix into its event stream: one event per instant, in the order of the
    /// instants. A value other than 0 and 1 is rejected.
    pub fn encode_spikes<const SPIKES_DURATION: usize>(spikes: &[[u8; SPIKES_DURATION]]) -> (res:
        Result<Vec<SpikeEvent>, InputContractError>)
        ensures
            res is Ok <==> is_binary_matrix(rows_view(spikes@)),
            res matches Ok(events) ==> {
                &&& events.deep_view() == encode(rows_view(spikes@), SPIKES_DURATION as nat)
                &&& all_of_width(events.deep_view(), spikes@.len())
            },
            res matches Err(e) ==> e == InputContractError::NonBinarySpike,
    {
        let rows = rows_of(spikes);
        codec::encode_spikes(&rows, SPIKES_DURATION)
    }

    /// Scatters the events that left the last layer into the output matrix: one row per
    /// neuron of the last layer, `spikes_duration` columns, each event in the column of
    /// its instant.
    pub fn decode_spikes(&self, spikes: Vec<SpikeEvent>, spikes_duration: usize) -> (matrix: Vec<
        Vec<u8>,
    >)
        requires
            self@.wf(),
            fits(spikes.deep_view(), self@.output_dim(), spikes_duration as nat),
        ensures
            matrix.deep_view() == codec::decode(
                spikes.deep_view(),
                self@.output_dim(),
                spikes_duration as nat,
            ),
    {
        let width = self.get_output_dim();
        codec::decode_spikes(&spikes, width, spikes_duration)
    }

    /// Processes a spike matrix: one row per input of the network, one column per instant.
    /// The matrix is checked before anything is computed: its number of rows first, then
    /// its values. On success the output matrix has one row per neuron of the last layer
    /// and as many columns as the input.
    pub fn process<const SPIKES_DURATION: usize>(
        &mut self,
        spikes: &[[u8; SPIKES_DURATION]],
    ) -> (res: Result<Vec<Vec<u8>>, InputContractError>)
        requires
            old(self)@.wf(),
        ensures
            final(self)@.wf(),
            match res {
                Ok(output) => {
                    &&& spike_defect(old(self)@.input_dim(), rows_view(spikes@)) is None
                    &&& output@.len() == old(self)@.output_dim()
                    &&& is_rectangular(output.deep_view(), SPIKES_DURATION as nat)
                    &&& is_binary_matrix(output.deep_view())
                    &&& output.deep_view() == old(self)@.output(
                        rows_view(spikes@),
                        SPIKES_DURATION as nat,
                    )
                    &&& final(self)@ == old(self)@.after(
                        rows_view(spikes@),
                        SPIKES_DURATION as nat,
                    )
                },
                Err(e) => {
                    &&& spike_defect(old(self)@.input_dim(), rows_view(spikes@)) == Some(e)
                    &&& final(self)@ == old(self)@
                },
            },
    {
        if spikes.len() != self.get_input_dim() {
            return Err(InputContractError::WrongWidth);
        }
        let rows = rows_of(spikes);
        network::process_matrix(&mut self.layers, self.skip_silent, &rows, SPIKES_DURATION)
    }

    /// Processes a spike matrix given as vectors: one row per input of the network, all
    /// rows of one length. The matrix is checked before anything is computed: its number
    /// of rows first, then row by row the length and the values. On success the output
    /// matrix has one row per neuron of the last layer and as many columns as the input.
    pub fn _process_dyn(&mut self, spikes: Vec<Vec<u8>>) -> (res: Result<
        Vec<Vec<u8>>,
        InputContractError,
    >)
        requires
            old(self)@.wf(),
        ensures
            final(self)@.wf(),
            match res {
                Ok(output) => {
                    &&& input_defect(old(self)@.input_dim(), spikes.deep_view()) is None
                    &&& output@.len() == old(self)@.output_dim()
                    &&& is_rectangular(output.deep_view(), duration_of(spikes.deep_view()))
                    &&& is_binary_matrix(output.deep_view())
                    &&& output.deep_view() == old(self)@.output(
                        spikes.deep_view(),
                        duration_of(spikes.deep_view()),
                    )
                    &&& final(self)@ == old(self)@.after(
                        spikes.deep_view(),
                        duration_of(spikes.deep_view()),
                    )
                },
                Err(e) => {
                    &&& input_defect(old(self)@.input_dim(), spikes.deep_view()) == Some(e)
                    &&& final(self)@ == old(self)@
                },
            },
    {
        let ghost matrix = spikes.deep_view();
        if spikes.len() != self.get_input_dim() {
            return Err(InputContractError::WrongWidth);
        }
        let duration: usize = if spikes.len() == 0 {
            0
        } else {
            spikes[0].len()
        };
        assert(duration == duration_of(matrix)) by {
            if spikes@.len() > 0 {
                assert(matrix[0] == spikes@[0]@);
            }
        }
        match check_rows(&spikes, duration) {
            Some(e) => {
                return Err(e);
            },
            None => {},
        }
        proof {
            input::lemma_rows_defect_none(matrix, duration as nat, matrix.len() as int);
        }
        network::process_matrix(&mut self.layers, self.skip_silent, &spikes, duration)
    }
}

impl<N: Neuron + Clone> DynSNN<N> {
    /// A clone of each layer, from first to last.
    pub fn get_layers(&self) -> (layers: Vec<Layer<N>>)
        ensures
            are_layer_clones(self@.layers, layers.deep_view()),
    {
        let layers = self.layers.clone();
        assert forall|l: int| 0 <= l < self@.layers.len() implies is_layer_clone(
            #[trigger] self@.layers[l],
            layers.deep_view()[l],
        ) by {
            assert(cloned(self.layers@[l], layers@[l]));
        }
        layers
    }
}

} // verus!
