//! The network whose input and output widths are part of its type.

use vstd::prelude::*;
use crate::codec;
use crate::codec::{encode, fits, is_binary_matrix, is_rectangular, rows_of, rows_view};
use crate::error::{ConstructionError, InputContractError};
use crate::input;
use crate::input::{check_rows, duration_of, input_defect};
use crate::layer::{all_of_width, is_layer_clone, Layer, LayerView};
use crate::network;
use crate::network::{are_layer_clones, chain_defect, check_chain, NetworkView};
use crate::neuron::Neuron;
use crate::spike::{heard, SpikeEvent};

verus! {

/// The defect for which a list of layers is rejected as a network of `input_dim` inputs and
/// `output_dim` outputs, if it has one.
pub open spec fn typed_chain_defect<N: Neuron>(
    layers: Seq<LayerView<N>>,
    input_dim: nat,
    output_dim: nat,
) -> Option<ConstructionError> {
    if chain_defect(layers) is Some {
        chain_defect(layers)
    } else if layers[0].input_dim != input_dim {
        Some(ConstructionError::InputWidthMismatch)
    } else if layers.last().neurons.len() != output_dim {
        Some(ConstructionError::OutputWidthMismatch)
    } else {
        None
    }
}

/// A spiking neural network of `NET_INPUT_DIM` inputs and `NET_OUTPUT_DIM` outputs: a chain
/// of layers. Whether its layers form a chain of these widths is stated by `wf`; every
/// network that `new` hands out does, and every method keeps it so.
#[derive(Debug)]
pub struct SNN<N: Neuron, const NET_INPUT_DIM: usize, const NET_OUTPUT_DIM: usize> {
    layers: Vec<Layer<N>>,
    skip_silent: bool,
}

impl<N: Neuron, const NET_INPUT_DIM: usize, const NET_OUTPUT_DIM: usize> View for SNN<
    N,
    NET_INPUT_DIM,
    NET_OUTPUT_DIM,
> {
    type V = NetworkView<N>;

    closed spec fn view(&self) -> NetworkView<N> {
        NetworkView { layers: self.layers.deep_view(), skip_silent: self.skip_silent }
    }
}

impl<N: Neuron, const NET_INPUT_DIM: usize, const NET_OUTPUT_DIM: usize> SNN<
    N,
    NET_INPUT_DIM,
    NET_OUTPUT_DIM,
> {
    /// The layers form a network whose widths are those of the type.
    pub open spec fn wf(&self) -> bool {
        &&& self@.wf()
        &&& self@.input_dim() == NET_INPUT_DIM
        &&& self@.output_dim() == NET_OUTPUT_DIM
    }

    /// A network of `layers`, which processes every instant. It is rejected unless there is
    /// a layer, every layer takes as many inputs as the layer before it has neurons, and
    /// the widths of the first and the last layer are those of the type.
    pub fn new(layers: Vec<Layer<N>>) -> (res: Result<Self, ConstructionError>)
        ensures
            match res {
                Ok(snn) => {
                    &&& typed_chain_defect(
                        layers.deep_view(),
                        NET_INPUT_DIM as nat,
                        NET_OUTPUT_DIM as nat,
                    ) is None
                    &&& snn@ == (NetworkView { layers: layers.deep_view(), skip_silent: false })
                    &&& snn.wf()
                },
                Err(e) => typed_chain_defect(
                    layers.deep_view(),
                    NET_INPUT_DIM as nat,
                    NET_OUTPUT_DIM as nat,
                ) == Some(e),
            },
    {
        match check_chain(&layers) {
            Some(e) => {
                return Err(e);
            },
            None => {},
        }
        assert(layers.deep_view()[0] == layers@[0]@);
        assert(layers.deep_view().last() == layers@[layers@.len() - 1]@);
        if layers[0].get_input_dim() != NET_INPUT_DIM {
            return Err(ConstructionError::InputWidthMismatch);
        }
        if layers[layers.len() - 1].get_neurons_number() != NET_OUTPUT_DIM {
            return Err(ConstructionError::OutputWidthMismatch);
        }
        Ok(SNN { layers, skip_silent: false })
    }

    /// The number of layers.
    pub fn get_layers_number(&self) -> (n: usize)
        ensures
            n == self@.layers.len(),
    {
        self.layers.len()
    }

    /// Gives up the network for its layers.
    pub fn into_layers(self) -> (layers: Vec<Layer<N>>)
        ensures
            layers.deep_view() == self@.layers,
    {
        self.layers
    }

    /// Whether the network withholds silent instants from its first layer.
    pub fn skips_silent(&self) -> (skip: bool)
        ensures
            skip == self@.skip_silent,
    {
        self.skip_silent
    }

    /// Chooses whether an instant without any input spike is withheld from the first layer,
    /// so that no layer computes it and its output column stays zero, or is processed like
    /// any other.
    pub fn set_skip_silent(&mut self, skip_silent: bool)
        ensures
            final(self)@ == (NetworkView { skip_silent, ..old(self)@ }),
            old(self).wf() ==> final(self).wf(),
    {
        self.skip_silent = skip_silent;
    }

    /// Processes a spike matrix: one row per input of the network, one column per instant.
    /// The values are checked before anything is computed. On success the output matrix has
    /// one row per neuron of the last layer and as many columns as the input.
    pub fn process<const SPIKES_DURATION: usize>(
        &mut self,
        spikes: &[[u8; SPIKES_DURATION]; NET_INPUT_DIM],
    ) -> (res: Result<[[u8; SPIKES_DURATION]; NET_OUTPUT_DIM], InputContractError>)
        requires
            old(self).wf(),
        ensures
            final(self).wf(),
            res is Ok <==> is_binary_matrix(rows_view(spikes@)),
            match res {
                Ok(output) => {
                    &&& is_binary_matrix(rows_view(output@))
                    &&& rows_view(output@) == old(self)@.output(
                        rows_view(spikes@),
                        SPIKES_DURATION as nat,
                    )
                    &&& final(self)@ == old(self)@.after(
                        rows_view(spikes@),
                        SPIKES_DURATION as nat,
                    )
                },
                Err(e) => {
                    &&& e == InputContractError::NonBinarySpike
                    &&& final(self)@ == old(self)@
                },
            },
    {
        let input_spike_events = match Self::encode_spikes(spikes) {
            Ok(events) => events,
            Err(e) => {
                return Err(e);
            },
        };
        let ghost net = self@;
        let output_spike_events = self.process_events(input_spike_events);
        proof {
            net.lemma_emitted_fits(rows_view(spikes@), SPIKES_DURATION as nat);
            net.lemma_output_is_binary(rows_view(spikes@), SPIKES_DURATION as nat);
        }
        Ok(Self::decode_spikes(output_spike_events))
    }

    /// Feeds `spikes` to the network and hands back what its last layer emits.
    pub fn process_events(&mut self, spikes: Vec<SpikeEvent>) -> (emitted: Vec<SpikeEvent>)
        requires
            old(self).wf(),
            all_of_width(spikes.deep_view(), NET_INPUT_DIM as nat),
        ensures
            final(self).wf(),
            emitted.deep_view() == old(self)@.emitted(spikes.deep_view()),
            final(self)@ == old(self)@.after_events(spikes.deep_view()),
    {
        proof {
            network::lemma_layers_after_chain(
                self@.layers,
                heard(spikes.deep_view(), self.skip_silent),
            );
        }
        network::process_events(&mut self.layers, spikes, self.skip_silent)
    }

    /// Processes a spike matrix given as vectors: one row per input of the network, all
    /// rows of one length. The matrix is checked before anything is computed: its number
    /// of rows first, then row by row the length and the values. On success the output
    /// matrix has one row per neuron of the last layer and as many columns as the input.
    pub fn _process_dyn(&mut self, spikes: Vec<Vec<u8>>) -> (res: Result<
        Vec<Vec<u8>>,
        InputContractError,
    >)
        requires
            old(self).wf(),
        ensures
            final(self).wf(),
            match res {
                Ok(output) => {
                    &&& input_defect(NET_INPUT_DIM as nat, spikes.deep_view()) is None
                    &&& output@.len() == NET_OUTPUT_DIM
                    &&& is_rectangular(output.deep_view(), duration_of(spikes.deep_view()))
                    &&& is_binary_matrix(output.deep_view())
                    &&& output.deep_view() == old(self)@.output(
                        spikes.deep_view(),
                        duration_of(spikes.deep_view()),
                    )
                    &&& final(self)@ == old(self)@.after(
                        spikes.deep_view(),
                        duration_of(spikes.deep_view()),
                    )
                },
                Err(e) => {
                    &&& input_defect(NET_INPUT_DIM as nat, spikes.deep_view()) == Some(e)
                    &&& final(self)@ == old(self)@
                },
            },
    {
        let ghost matrix = spikes.deep_view();
        if spikes.len() != NET_INPUT_DIM {
            return Err(InputContractError::WrongWidth);
        }
        let duration: usize = if spikes.len() == 0 {
            0
        } else {
            spikes[0].len()
        };
        assert(duration == duration_of(matrix)) by {
            if spikes@.len() > 0 {
                assert(matrix[0] == spikes@[0]@);
            }
        }
        match check_rows(&spikes, duration) {
            Some(e) => {
                return Err(e);
            },
            None => {},
        }
        proof {
            input::lemma_rows_defect_none(matrix, duration as nat, matrix.len() as int);
            network::lemma_layers_after_chain(
                self@.layers,
                heard(encode(matrix, duration as nat), self.skip_silent),
            );
        }
        network::process_matrix(&mut self.layers, self.skip_silent, &spikes, duration)
    }

    /// Turns a matrix into its event stream. A value other than 0 and 1 is rejected.
    pub fn encode_spikes<const SPIKES_DURATION: usize>(
        spikes: &[[u8; SPIKES_DURATION]; NET_INPUT_DIM],
    ) -> (res: Result<Vec<SpikeEvent>, InputContractError>)
        ensures
            res is Ok <==> is_binary_matrix(rows_view(spikes@)),
            res matches Ok(events) ==> {
                &&& events.deep_view() == encode(rows_view(spikes@), SPIKES_DURATION as nat)
                &&& all_of_width(events.deep_view(), NET_INPUT_DIM as nat)
            },
            res matches Err(e) ==> e == InputContractError::NonBinarySpike,
    {
        let rows = rows_of(spikes.as_slice());
        codec::encode_spikes(&rows, SPIKES_DURATION)
    }

    /// Scatters the events that left the last layer into the output matrix, each event in
    /// the column of its instant.
    pub fn decode_spikes<const SPIKES_DURATION: usize>(spikes: Vec<SpikeEvent>) -> (matrix: [[u8;
        SPIKES_DURATION]; NET_OUTPUT_DIM])
        requires
            fits(spikes.deep_view(), NET_OUTPUT_DIM as nat, SPIKES_DURATION as nat),
        ensures
            rows_view(matrix@) == codec::decode(
                spikes.deep_view(),
                NET_OUTPUT_DIM as nat,
                SPIKES_DURATION as nat,
            ),
    {
        codec::decode_spikes_fixed::<SPIKES_DURATION, NET_OUTPUT_DIM>(&spikes)
    }
}

impl<N: Neuron + Clone, const NET_INPUT_DIM: usize, const NET_OUTPUT_DIM: usize> SNN<
    N,
    NET_INPUT_DIM,
    NET_OUTPUT_DIM,
> {
    /// A clone of each layer, from first to last.
    pub fn get_layers(&self) -> (layers: Vec<Layer<N>>)
        ensures
            are_layer_clones(self@.layers, layers.deep_view()),
    {
        let layers = self.layers.clone();
        assert forall|l: int| 0 <= l < self@.layers.len() implies is_layer_clone(
            #[trigger] self@.layers[l],
            layers.deep_view()[l],
        ) by {
            assert(cloned(self.layers@[l], layers@[l]));
        }
        layers
    }
}

} // verus!
