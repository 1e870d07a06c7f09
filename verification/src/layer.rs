//! One layer of neurons and what it computes in one instant.

use vstd::prelude::*;
use crate::error::ConstructionError;
use crate::neuron::Neuron;
use crate::spike::{is_binary, SpikeEvent, SpikeEventView};

verus! {

/// The sum of `weights[j] * spikes[j]` over the first `n` positions.
pub open spec fn dot(weights: Seq<i32>, spikes: Seq<u8>, n: int) -> int
    decreases n,
{
    if n <= 0 {
        0
    } else {
        dot(weights, spikes, n - 1) + weights[n - 1] * spikes[n - 1]
    }
}

/// What reaches a neuron from the layer before it: the weight of every input that spiked.
pub open spec fn extra_sum(weights: Seq<i32>, input: Seq<u8>) -> int {
    dot(weights, input, weights.len() as int)
}

/// What reaches neuron `i` from its own layer: the weight of every other neuron that spiked
/// at the previous instant. The neuron's weight onto itself is left out.
pub open spec fn intra_sum(weights: Seq<i32>, prev: Seq<u8>, i: int) -> int {
    dot(weights, prev, weights.len() as int) - weights[i] * prev[i]
}

/// The spike value that stands for `fired`.
pub open spec fn spike_of(fired: bool) -> u8 {
    if fired {
        1
    } else {
        0
    }
}

/// A spike train of `n` neurons in which none spikes.
pub open spec fn silence(n: nat) -> Seq<u8> {
    Seq::new(n, |i: int| 0u8)
}

/// Every event of `events` carries `width` spikes.
pub open spec fn all_of_width(events: Seq<SpikeEventView>, width: nat) -> bool {
    forall|k: int| 0 <= k < events.len() ==> (#[trigger] events[k]).spikes.len() == width
}

/// What a layer holds.
pub struct LayerView<N> {
    /// The number of inputs that the layer takes.
    pub input_dim: nat,
    /// The neurons, in index order.
    pub neurons: Seq<N>,
    /// One row per neuron, one weight per input.
    pub extra_weights: Seq<Seq<i32>>,
    /// One row per neuron, one weight per neuron of the layer: entry `(x, y)` weighs the
    /// connection from neuron `y` to neuron `x`.
    pub intra_weights: Seq<Seq<i32>>,
    /// What the layer emitted at the instant it processed last.
    pub prev_output_spikes: Seq<u8>,
}

impl<N: Neuron> LayerView<N> {
    /// The shapes agree: one row of either matrix and one previous spike per neuron, one
    /// extra weight per input and one intra weight per neuron in each row.
    pub open spec fn wf(self) -> bool {
        &&& self.extra_weights.len() == self.neurons.len()
        &&& self.intra_weights.len() == self.neurons.len()
        &&& self.prev_output_spikes.len() == self.neurons.len()
        &&& forall|i: int|
            0 <= i < self.neurons.len() ==> (#[trigger] self.extra_weights[i]).len()
                == self.input_dim
        &&& forall|i: int|
            0 <= i < self.neurons.len() ==> (#[trigger] self.intra_weights[i]).len()
                == self.neurons.len()
        &&& is_binary(self.prev_output_spikes)
    }

    /// The weighted sum that neuron `i` is handed when the layer receives `input`: what
    /// reaches it from the inputs and what reaches it from its own layer.
    pub open spec fn weighted_sum(self, i: int, input: Seq<u8>) -> i128 {
        (extra_sum(self.extra_weights[i], input) + intra_sum(
            self.intra_weights[i],
            self.prev_output_spikes,
            i,
        )) as i128
    }

    /// The spikes that the layer emits when it receives `input` at instant `t`.
    pub open spec fn output(self, t: u64, input: Seq<u8>) -> Seq<u8> {
        Seq::new(
            self.neurons.len(),
            |i: int| spike_of(self.neurons[i].fires(t, self.weighted_sum(i, input))),
        )
    }

    /// The layer after it has received `input` at instant `t`: every neuron has taken its
    /// step, and the spikes just emitted have replaced those of the previous instant.
    pub open spec fn step(self, t: u64, input: Seq<u8>) -> Self {
        LayerView {
            neurons: Seq::new(
                self.neurons.len(),
                |i: int| self.neurons[i].next(t, self.weighted_sum(i, input)),
            ),
            prev_output_spikes: self.output(t, input),
            ..self
        }
    }

    /// The layer after it has received the first `k` of `events`, one after the other.
    pub open spec fn after(self, events: Seq<SpikeEventView>, k: int) -> Self
        decreases k,
    {
        if k <= 0 {
            self
        } else {
            self.after(events, k - 1).step(events[k - 1].ts, events[k - 1].spikes)
        }
    }

    /// The events that the layer emits for `events`: one per event received, with the same
    /// instant, computed in the state in which the earlier events left the layer.
    pub open spec fn stream(self, events: Seq<SpikeEventView>) -> Seq<SpikeEventView> {
        Seq::new(
            events.len(),
            |k: int|
                SpikeEventView {
                    ts: events[k].ts,
                    spikes: self.after(events, k).output(events[k].ts, events[k].spikes),
                },
        )
    }

    /// The weighted sum of a neuron is exact: in a layer that a machine can hold, the two
    /// sums together lie far inside the range of the number that carries them.
    pub proof fn lemma_weighted_sum_is_exact(self, i: int, input: Seq<u8>)
        requires
            self.wf(),
            input.len() == self.input_dim,
            self.input_dim <= usize::MAX,
            self.neurons.len() <= usize::MAX,
            0 <= i < self.neurons.len(),
        ensures
            self.weighted_sum(i, input) == extra_sum(self.extra_weights[i], input) + intra_sum(
                self.intra_weights[i],
                self.prev_output_spikes,
                i,
            ),
    {
        lemma_dot_bound(self.extra_weights[i], input, self.input_dim as int);
        lemma_dot_bound(
            self.intra_weights[i],
            self.prev_output_spikes,
            self.neurons.len() as int,
        );
        lemma_term_bound(self.intra_weights[i][i] as int, self.prev_output_spikes[i] as int);
    }

    /// A step changes neither the shape nor the weights of a layer, and what the layer
    /// emits is one spike value, 0 or 1, per neuron.
    pub proof fn lemma_step_keeps_shape(self, t: u64, input: Seq<u8>)
        requires
            self.wf(),
        ensures
            self.step(t, input).wf(),
            self.step(t, input).input_dim == self.input_dim,
            self.step(t, input).neurons.len() == self.neurons.len(),
            self.step(t, input).extra_weights == self.extra_weights,
            self.step(t, input).intra_weights == self.intra_weights,
            self.output(t, input).len() == self.neurons.len(),
            is_binary(self.output(t, input)),
    {
    }

    /// Any number of events leaves the shape and the weights of a layer as they were.
    pub proof fn lemma_after_keeps_shape(self, events: Seq<SpikeEventView>, k: int)
        requires
            self.wf(),
        ensures
            self.after(events, k).wf(),
            self.after(events, k).input_dim == self.input_dim,
            self.after(events, k).neurons.len() == self.neurons.len(),
            self.after(events, k).extra_weights == self.extra_weights,
            self.after(events, k).intra_weights == self.intra_weights,
        decreases k,
    {
        if k > 0 {
            self.lemma_after_keeps_shape(events, k - 1);
            self.after(events, k - 1).lemma_step_keeps_shape(
                events[k - 1].ts,
                events[k - 1].spikes,
            );
        }
    }

    /// A layer emits one event per event received, under the same instant and with one
    /// spike value per neuron.
    pub proof fn lemma_stream_shape(self, events: Seq<SpikeEventView>)
        requires
            self.wf(),
        ensures
            self.stream(events).len() == events.len(),
            all_of_width(self.stream(events), self.neurons.len()),
            forall|k: int|
                0 <= k < events.len() ==> (#[trigger] self.stream(events)[k]).ts == events[k].ts,
            forall|k: int|
                0 <= k < events.len() ==> is_binary((#[trigger] self.stream(events)[k]).spikes),
    {
        assert forall|k: int| 0 <= k < events.len() implies (#[trigger] self.stream(
            events,
        )[k]).spikes.len() == self.neurons.len() && is_binary(self.stream(events)[k].spikes) by {
            self.lemma_after_keeps_shape(events, k);
            self.after(events, k).lemma_step_keeps_shape(events[k].ts, events[k].spikes);
        }
    }
}

/// The shape defect for which a layer of `neurons` neurons and `input_dim` inputs with these
/// weights is rejected, if it has one. The intra weights are looked at first, and in either
/// matrix the number of rows before the length of any row.
pub open spec fn shape_defect(
    input_dim: nat,
    neurons: nat,
    extra_weights: Seq<Seq<i32>>,
    intra_weights: Seq<Seq<i32>>,
) -> Option<ConstructionError> {
    if intra_weights.len() != neurons {
        Some(ConstructionError::IntraWeightsRows)
    } else if exists|i: int|
        0 <= i < intra_weights.len() && (#[trigger] intra_weights[i]).len() != neurons {
        Some(ConstructionError::IntraWeightsColumns)
    } else if extra_weights.len() != neurons {
        Some(ConstructionError::ExtraWeightsRows)
    } else if exists|i: int|
        0 <= i < extra_weights.len() && (#[trigger] extra_weights[i]).len() != input_dim {
        Some(ConstructionError::ExtraWeightsColumns)
    } else {
        None
    }
}

/// A bound on a weighted sum that keeps it far inside the range of `i128`.
proof fn lemma_dot_bound(weights: Seq<i32>, spikes: Seq<u8>, n: int)
    requires
        0 <= n <= weights.len(),
        n <= spikes.len(),
    ensures
        -n * 0x80_0000_0000 <= dot(weights, spikes, n) <= n * 0x80_0000_0000,
    decreases n,
{
    if n > 0 {
        lemma_dot_bound(weights, spikes, n - 1);
        lemma_term_bound(weights[n - 1] as int, spikes[n - 1] as int);
    }
}

/// A bound on the product of a weight and a spike value.
proof fn lemma_term_bound(w: int, s: int)
    by (nonlinear_arith)
    requires
        -0x8000_0000 <= w <= 0x8000_0000,
        0 <= s <= 0xff,
    ensures
        -0x80_0000_0000 <= w * s <= 0x80_0000_0000,
{
}

/// Tells whether every row of `rows` has `len` entries.
fn rows_have_len(rows: &Vec<Vec<i32>>, len: usize) -> (ok: bool)
    ensures
        ok == (forall|i: int|
            0 <= i < rows.deep_view().len() ==> (#[trigger] rows.deep_view()[i]).len() == len),
{
    assert(forall|k: int|
        0 <= k < rows@.len() ==> #[trigger] rows.deep_view()[k] == rows@[k]@);
    let mut i: usize = 0;
    while i < rows.len()
        invariant
            i <= rows@.len(),
            forall|k: int| 0 <= k < rows@.len() ==> #[trigger] rows.deep_view()[k] == rows@[k]@,
            forall|k: int| 0 <= k < i ==> (#[trigger] rows.deep_view()[k]).len() == len,
        decreases rows@.len() - i,
    {
        if rows[i].len() != len {
            assert(rows.deep_view()[i as int].len() != len);
            return false;
        }
        i += 1;
    }
    true
}

/// Tells for which shape defect a layer of `neurons` neurons and `input_dim` inputs with
/// these weights is rejected, if for any.
pub fn check_shape(
    input_dim: usize,
    neurons: usize,
    extra_weights: &Vec<Vec<i32>>,
    intra_weights: &Vec<Vec<i32>>,
) -> (defect: Option<ConstructionError>)
    ensures
        defect == shape_defect(
            input_dim as nat,
            neurons as nat,
            extra_weights.deep_view(),
            intra_weights.deep_view(),
        ),
{
    if intra_weights.len() != neurons {
        return Some(ConstructionError::IntraWeightsRows);
    }
    if !rows_have_len(intra_weights, neurons) {
        return Some(ConstructionError::IntraWeightsColumns);
    }
    if extra_weights.len() != neurons {
        return Some(ConstructionError::ExtraWeightsRows);
    }
    if !rows_have_len(extra_weights, input_dim) {
        return Some(ConstructionError::ExtraWeightsColumns);
    }
    None
}

/// The weighted sum of `spikes` under `weights`.
fn weigh(weights: &Vec<i32>, spikes: &Vec<u8>) -> (sum: i128)
    requires
        weights@.len() == spikes@.len(),
    ensures
        sum == dot(weights@, spikes@, weights@.len() as int),
        -weights@.len() * 0x80_0000_0000 <= sum <= weights@.len() * 0x80_0000_0000,
{
    let mut sum: i128 = 0;
    let mut j: usize = 0;
    while j < weights.len()
        invariant
            j <= weights@.len(),
            weights@.len() == spikes@.len(),
            sum == dot(weights@, spikes@, j as int),
            -j * 0x80_0000_0000 <= sum <= j * 0x80_0000_0000,
        decreases weights@.len() - j,
    {
        proof {
            lemma_dot_bound(weights@, spikes@, j + 1);
        }
        sum = sum + (weights[j] as i128) * (spikes[j] as i128);
        j += 1;
    }
    sum
}

/// A layer: its neurons, the weights of the connections that reach them from the layer
/// before and from each other, and the spikes that the layer emitted last.
#[derive(Debug)]
pub struct Layer<N: Neuron> {
    input_dim: usize,
    neurons: Vec<N>,
    extra_weights: Vec<Vec<i32>>,
    intra_weights: Vec<Vec<i32>>,
    prev_output_spikes: Vec<u8>,
}

impl<N: Neuron> View for Layer<N> {
    type V = LayerView<N>;

    closed spec fn view(&self) -> LayerView<N> {
        LayerView {
            input_dim: self.input_dim as nat,
            neurons: self.neurons@,
            extra_weights: self.extra_weights.deep_view(),
            intra_weights: self.intra_weights.deep_view(),
            prev_output_spikes: self.prev_output_spikes@,
        }
    }
}

impl<N: Neuron> DeepView for Layer<N> {
    type V = LayerView<N>;

    open spec fn deep_view(&self) -> LayerView<N> {
        self@
    }
}

/// `copy` is a layer as cloning `layer` gives it: of the same shape and weights, with the
/// same spikes emitted last, and with a clone of each neuron in its place.
pub open spec fn is_layer_clone<N: Neuron + Clone>(layer: LayerView<N>, copy: LayerView<N>) -> bool {
    &&& copy.input_dim == layer.input_dim
    &&& copy.extra_weights == layer.extra_weights
    &&& copy.intra_weights == layer.intra_weights
    &&& copy.prev_output_spikes == layer.prev_output_spikes
    &&& copy.neurons.len() == layer.neurons.len()
    &&& forall|i: int|
        0 <= i < layer.neurons.len() ==> cloned(#[trigger] layer.neurons[i], copy.neurons[i])
}

impl<N: Neuron + Clone> Clone for Layer<N> {
    /// A layer of the same shape and weights that has emitted the same spikes last, with a
    /// clone of each neuron.
    fn clone(&self) -> (copy: Self)
        ensures
            is_layer_clone(self@, copy@),
    {
        proof {
            use_type_invariant(self);
        }
        let copy = Layer {
            input_dim: self.input_dim,
            neurons: self.neurons.clone(),
            extra_weights: self.extra_weights.clone(),
            intra_weights: self.intra_weights.clone(),
            prev_output_spikes: self.prev_output_spikes.clone(),
        };
        assert(copy.prev_output_spikes@ =~= self.prev_output_spikes@);
        assert(copy.extra_weights.deep_view() =~~= self.extra_weights.deep_view());
        assert(copy.intra_weights.deep_view() =~~= self.intra_weights.deep_view());
        copy
    }
}

impl<N: Neuron> Layer<N> {
    #[verifier::type_invariant]
    spec fn well_formed(self) -> bool {
        self@.wf()
    }

    /// A layer of `neurons` that takes `input_dim` inputs and has emitted no spike yet.
    /// It is rejected unless either matrix has one row per neuron, every row of intra
    /// weights has one entry per neuron and every row of extra weights one entry per input.
    /// The weights themselves may be any.
    pub fn new(
        input_dim: usize,
        neurons: Vec<N>,
        extra_weights: Vec<Vec<i32>>,
        intra_weights: Vec<Vec<i32>>,
    ) -> (res: Result<Self, ConstructionError>)
        ensures
            match res {
                Ok(layer) => {
                    &&& shape_defect(
                        input_dim as nat,
                        neurons@.len(),
                        extra_weights.deep_view(),
                        intra_weights.deep_view(),
                    ) is None
                    &&& layer@ == (LayerView {
                        input_dim: input_dim as nat,
                        neurons: neurons@,
                        extra_weights: extra_weights.deep_view(),
                        intra_weights: intra_weights.deep_view(),
                        prev_output_spikes: silence(neurons@.len()),
                    })
                    &&& layer@.wf()
                },
                Err(e) => shape_defect(
                    input_dim as nat,
                    neurons@.len(),
                    extra_weights.deep_view(),
                    intra_weights.deep_view(),
                ) == Some(e),
            },
    {
        let n: usize = neurons.len();
        match check_shape(input_dim, n, &extra_weights, &intra_weights) {
            Some(e) => {
                return Err(e);
            },
            None => {},
        }
        let mut prev_output_spikes: Vec<u8> = Vec::new();
        let mut i: usize = 0;
        while i < n
            invariant
                i <= n,
                prev_output_spikes@ == silence(i as nat),
            decreases n - i,
        {
            prev_output_spikes.push(0);
            assert(prev_output_spikes@ =~= silence((i + 1) as nat));
            i += 1;
        }
        Ok(Layer { input_dim, neurons, extra_weights, intra_weights, prev_output_spikes })
    }

    /// The number of neurons of the layer.
    pub fn get_neurons_number(&self) -> (n: usize)
        ensures
            n == self@.neurons.len(),
            self@.wf(),
    {
        proof {
            use_type_invariant(self);
        }
        self.neurons.len()
    }

    /// The number of inputs that the layer takes.
    pub fn get_input_dim(&self) -> (n: usize)
        ensures
            n == self@.input_dim,
            self@.wf(),
    {
        proof {
            use_type_invariant(self);
        }
        self.input_dim
    }

    /// The neurons, in index order.
    pub fn get_neurons(&self) -> (neurons: &Vec<N>)
        ensures
            neurons@ == self@.neurons,
    {
        &self.neurons
    }

    /// The extra weights: one row per neuron, one weight per input.
    pub fn get_extra_weights(&self) -> (weights: &Vec<Vec<i32>>)
        ensures
            weights.deep_view() == self@.extra_weights,
    {
        &self.extra_weights
    }

    /// The intra weights: one row per neuron, one weight per neuron.
    pub fn get_intra_weights(&self) -> (weights: &Vec<Vec<i32>>)
        ensures
            weights.deep_view() == self@.intra_weights,
    {
        &self.intra_weights
    }

    /// The spikes that the layer emitted at the instant it processed last, all zero before
    /// the first.
    pub fn get_prev_output_spikes(&self) -> (spikes: &Vec<u8>)
        ensures
            spikes@ == self@.prev_output_spikes,
            is_binary(spikes@),
    {
        proof {
            use_type_invariant(self);
        }
        &self.prev_output_spikes
    }

    /// Computes one instant: hands every neuron its weighted sum for `input`, collects the
    /// spikes and keeps them as the spikes of the previous instant. The lateral weights are
    /// applied to the spikes of the instant before, never to those being computed.
    pub fn compute(&mut self, t: u64, input: &Vec<u8>) -> (output: Vec<u8>)
        requires
            input@.len() == old(self)@.input_dim,
        ensures
            old(self)@.wf(),
            output@ == old(self)@.output(t, input@),
            final(self)@ == old(self)@.step(t, input@),
            final(self)@.wf(),
            is_binary(output@),
    {
        proof {
            use_type_invariant(&*self);
        }
        let n: usize = self.neurons.len();
        let mut output: Vec<u8> = Vec::new();
        let mut i: usize = 0;
        while i < n
            invariant
                i <= n,
                n == old(self)@.neurons.len(),
                old(self)@.wf(),
                input@.len() == old(self)@.input_dim,
                self.input_dim == old(self).input_dim,
                self.extra_weights == old(self).extra_weights,
                self.intra_weights == old(self).intra_weights,
                self.prev_output_spikes == old(self).prev_output_spikes,
                self.neurons@.len() == n,
                forall|k: int|
                    0 <= k < i ==> #[trigger] self.neurons@[k] == old(self)@.neurons[k].next(
                        t,
                        old(self)@.weighted_sum(k, input@),
                    ),
                forall|k: int| i <= k < n ==> #[trigger] self.neurons@[k] == old(self)@.neurons[k],
                output@.len() == i,
                forall|k: int|
                    0 <= k < i ==> #[trigger] output@[k] == spike_of(
                        old(self)@.neurons[k].fires(t, old(self)@.weighted_sum(k, input@)),
                    ),
            decreases n - i,
        {
            assert(self.extra_weights.deep_view()[i as int] == self.extra_weights@[i as int]@);
            assert(self.intra_weights.deep_view()[i as int] == self.intra_weights@[i as int]@);
            let from_inputs: i128 = weigh(&self.extra_weights[i], input);
            let from_layer: i128 = weigh(&self.intra_weights[i], &self.prev_output_spikes);
            proof {
                lemma_term_bound(
                    self.intra_weights@[i as int]@[i as int] as int,
                    self.prev_output_spikes@[i as int] as int,
                );
            }
            let own: i128 = (self.intra_weights[i][i] as i128) * (self.prev_output_spikes[i] as i128);
            let weighted_sum: i128 = from_inputs + from_layer - own;
            assert(weighted_sum == old(self)@.weighted_sum(i as int, input@));
            let fired = self.neurons[i].compute_v_mem(t, weighted_sum);
            output.push(if fired { 1u8 } else { 0u8 });
            i += 1;
        }
        assert(output@ =~= old(self)@.output(t, input@));
        self.prev_output_spikes = output.clone();
        assert(self.prev_output_spikes@ =~= output@);
        assert(self.neurons@ =~= old(self)@.step(t, input@).neurons);
        output
    }

    /// Processes a stream of events, one after the other, and hands back the stream that
    /// the layer emits: one event per event received, under the same instant.
    pub fn process(&mut self, events: &Vec<SpikeEvent>) -> (emitted: Vec<SpikeEvent>)
        requires
            all_of_width(events.deep_view(), old(self)@.input_dim),
        ensures
            old(self)@.wf(),
            final(self)@.wf(),
            final(self)@ == old(self)@.after(events.deep_view(), events@.len() as int),
            emitted.deep_view() == old(self)@.stream(events.deep_view()),
    {
        proof {
            use_type_invariant(&*self);
        }
        let ghost received = events.deep_view();
        let mut emitted: Vec<SpikeEvent> = Vec::new();
        let mut k: usize = 0;
        while k < events.len()
            invariant
                k <= events@.len(),
                received == events.deep_view(),
                all_of_width(received, old(self)@.input_dim),
                old(self)@.wf(),
                self@ == old(self)@.after(received, k as int),
                emitted@.len() == k,
                forall|j: int|
                    0 <= j < k ==> (#[trigger] emitted@[j])@ == old(self)@.stream(received)[j],
            decreases events@.len() - k,
        {
            proof {
                old(self)@.lemma_after_keeps_shape(received, k as int);
            }
            assert(received[k as int] == events@[k as int]@);
            let event = self.process_event(&events[k]);
            emitted.push(event);
            k += 1;
        }
        assert(emitted.deep_view() =~= old(self)@.stream(received));
        proof {
            old(self)@.lemma_after_keeps_shape(received, events@.len() as int);
        }
        emitted
    }

    /// Processes one event: computes the instant of the event on its spikes and hands back
    /// the spikes of the layer under the same instant.
    pub fn process_event(&mut self, event: &SpikeEvent) -> (emitted: SpikeEvent)
        requires
            event@.spikes.len() == old(self)@.input_dim,
        ensures
            old(self)@.wf(),
            final(self)@.wf(),
            final(self)@ == old(self)@.step(event@.ts, event@.spikes),
            emitted@ == (SpikeEventView {
                ts: event@.ts,
                spikes: old(self)@.output(event@.ts, event@.spikes),
            }),
    {
        let ts: u64 = event.ts();
        let output = self.compute(ts, event.spikes());
        SpikeEvent::from_binary(ts, output)
    }
}

} // verus!
