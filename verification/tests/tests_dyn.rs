use pds_snn::builders::DynSnnBuilder;
use pds_snn::models::ThresholdNeuron;
use pds_snn::neuron::WEIGHT_ONE;
use pds_snn::{ConstructionError, DynSNN, InputContractError, Layer, Neuron, SpikeEvent};

/// A leaky integrate-and-fire neuron on floating-point potentials. The weighted sum that it
/// is handed counts millionths of a weight unit.
#[derive(Clone, Debug, PartialEq)]
struct LifNeuron {
    v_th: f64,
    v_rest: f64,
    v_reset: f64,
    tau: f64,
    v_mem: f64,
    ts: u64,
}

impl LifNeuron {
    fn new(v_th: f64, v_rest: f64, v_reset: f64, tau: f64) -> Self {
        LifNeuron { v_th, v_rest, v_reset, tau, v_mem: v_rest, ts: 0 }
    }

    fn potential(&self, t: u64, weighted_sum: i128) -> f64 {
        let elapsed = t.saturating_sub(self.ts) as f64;
        let input = weighted_sum as f64 / 1_000_000.0;
        self.v_rest + (self.v_mem - self.v_rest) * (-elapsed / self.tau).exp() + input
    }
}

impl Neuron for LifNeuron {
    fn fires(&self, t: u64, weighted_sum: i128) -> bool {
        self.potential(t, weighted_sum) > self.v_th
    }

    fn next(&self, t: u64, weighted_sum: i128) -> Self {
        let v = self.potential(t, weighted_sum);
        let v_mem = if v > self.v_th { self.v_reset } else { v };
        LifNeuron { v_mem, ts: t, ..self.clone() }
    }

    fn compute_v_mem(&mut self, t: u64, weighted_sum: i128) -> bool {
        let fired = self.fires(t, weighted_sum);
        *self = self.next(t, weighted_sum);
        fired
    }
}

fn w(x: f64) -> i32 {
    (x * 1_000_000.0).round() as i32
}

fn ws(rows: &[&[f64]]) -> Vec<Vec<i32>> {
    rows.iter().map(|r| r.iter().map(|x| w(*x)).collect()).collect()
}

fn thresholds(n: usize, threshold: i128) -> Vec<ThresholdNeuron> {
    vec![ThresholdNeuron::new(threshold); n]
}

fn one_layer() -> DynSNN<LifNeuron> {
    DynSnnBuilder::new()
        .add_layer(
            vec![LifNeuron::new(0.3, 0.05, 0.1, 1.0); 3],
            ws(&[&[0.1, 0.2], &[0.3, 0.4], &[0.5, 0.6]]),
            ws(&[&[0.0, -0.1, -0.15], &[-0.05, 0.0, -0.1], &[-0.15, -0.1, 0.0]]),
        )
        .unwrap()
        .build()
        .unwrap()
}

fn three_layers() -> DynSNN<LifNeuron> {
    DynSnnBuilder::new()
        .add_layer(
            vec![LifNeuron::new(0.5, 0.1, 0.2, 0.7), LifNeuron::new(0.3, 0.05, 0.1, 1.0)],
            ws(&[&[0.1, 0.2], &[0.3, 0.4]]),
            ws(&[&[0.0, -0.4], &[-0.1, 0.0]]),
        )
        .unwrap()
        .add_layer(
            vec![
                LifNeuron::new(0.2, 0.1, 0.15, 0.1),
                LifNeuron::new(0.3, 0.2, 0.05, 0.3),
                LifNeuron::new(0.4, 0.15, 0.1, 0.8),
                LifNeuron::new(0.05, 0.35, 0.01, 1.0),
            ],
            ws(&[&[0.7, 0.2], &[0.3, 0.8], &[0.5, 0.6], &[0.3, 0.2]]),
            ws(&[
                &[0.0, -0.2, -0.4, -0.9],
                &[-0.1, 0.0, -0.3, -0.2],
                &[-0.6, -0.2, 0.0, -0.9],
                &[-0.5, -0.3, -0.8, 0.0],
            ]),
        )
        .unwrap()
        .add_layer(
            vec![LifNeuron::new(0.3, 0.05, 0.1, 1.0)],
            ws(&[&[0.3, 0.3, 0.2, 0.7]]),
            ws(&[&[0.0]]),
        )
        .unwrap()
        .build()
        .unwrap()
}

/// Two neurons that copy their inputs and hold each other back after a spike.
fn rivals() -> DynSNN<ThresholdNeuron> {
    DynSnnBuilder::new()
        .add_layer(
            thresholds(2, 500_000),
            vec![vec![WEIGHT_ONE, 0], vec![0, WEIGHT_ONE]],
            vec![vec![0, -600_000], vec![-600_000, 0]],
        )
        .unwrap()
        .build()
        .unwrap()
}

#[test]
fn dyn_process_one_layer() {
    let mut snn = one_layer();
    let out = snn.process(&[[1, 0, 1], [0, 0, 1]]).unwrap();
    assert_eq!(out, vec![vec![0, 0, 0], vec![1, 0, 1], vec![1, 0, 1]]);
}

#[test]
fn dyn_process_three_layers() {
    let mut snn = three_layers();
    assert_eq!(snn.get_layers_number(), 3);
    assert_eq!(snn.get_input_dim(), 2);
    assert_eq!(snn.get_output_dim(), 1);
    let out = snn.process(&[[1, 0, 1, 0], [0, 0, 1, 1]]).unwrap();
    assert_eq!(out, vec![vec![1, 0, 1, 1]]);
}

#[test]
fn dyn_process_vectors_one_layer() {
    let mut snn = one_layer();
    let out = snn._process_dyn(vec![vec![1, 0, 1], vec![0, 0, 1]]).unwrap();
    assert_eq!(out, vec![vec![0, 0, 0], vec![1, 0, 1], vec![1, 0, 1]]);
}

#[test]
fn dyn_process_no_instants() {
    let mut snn = one_layer();
    let none: [[u8; 0]; 2] = [[], []];
    assert_eq!(snn.process(&none).unwrap(), vec![Vec::<u8>::new(); 3]);
    assert_eq!(snn._process_dyn(vec![vec![], vec![]]).unwrap(), vec![Vec::<u8>::new(); 3]);
}

#[test]
fn dyn_process_rejects_defects_in_order() {
    let mut snn = one_layer();
    assert_eq!(snn._process_dyn(vec![vec![1, 0, 1]]), Err(InputContractError::WrongWidth));
    assert_eq!(snn._process_dyn(vec![]), Err(InputContractError::WrongWidth));
    assert_eq!(
        snn._process_dyn(vec![vec![1, 0, 1], vec![0, 0]]),
        Err(InputContractError::RaggedRows)
    );
    assert_eq!(
        snn._process_dyn(vec![vec![1, 0, 2], vec![0, 0, 1]]),
        Err(InputContractError::NonBinarySpike)
    );
    // The rows are looked at in their order, and in each its length first.
    assert_eq!(
        snn._process_dyn(vec![vec![1, 0, 2], vec![0, 0]]),
        Err(InputContractError::NonBinarySpike)
    );
    assert_eq!(
        snn._process_dyn(vec![vec![1, 0, 1], vec![0, 9]]),
        Err(InputContractError::RaggedRows)
    );
    // The number of rows is looked at before any row.
    assert_eq!(
        snn._process_dyn(vec![vec![1, 0, 1], vec![0, 0], vec![7]]),
        Err(InputContractError::WrongWidth)
    );
}

#[test]
fn dyn_process_arrays_rejects_defects_in_order() {
    let mut snn = one_layer();
    assert_eq!(snn.process(&[[1, 0, 1]]), Err(InputContractError::WrongWidth));
    assert_eq!(snn.process(&[[1, 0, 1], [0, 0, 1], [1, 1, 1]]), Err(InputContractError::WrongWidth));
    assert_eq!(snn.process(&[[1, 0, 1], [0, 3, 1]]), Err(InputContractError::NonBinarySpike));
    assert_eq!(snn.process(&[[9, 9, 9]]), Err(InputContractError::WrongWidth));
}

#[test]
fn a_rejected_input_leaves_the_network_as_it_was() {
    let mut snn = one_layer();
    let fresh = snn.get_layers();
    assert!(snn.process(&[[1, 1, 1], [1, 1, 2]]).is_err());
    assert!(snn._process_dyn(vec![vec![1, 1, 1], vec![1, 1]]).is_err());
    let after = snn.get_layers();
    for (a, b) in fresh.iter().zip(after.iter()) {
        assert_eq!(a.get_neurons(), b.get_neurons());
        assert_eq!(a.get_prev_output_spikes(), b.get_prev_output_spikes());
    }
    // And it answers as a fresh one does.
    let out = snn.process(&[[1, 0, 1], [0, 0, 1]]).unwrap();
    assert_eq!(out, vec![vec![0, 0, 0], vec![1, 0, 1], vec![1, 0, 1]]);
}

#[test]
fn silent_instants_are_withheld_by_default() {
    let mut snn = rivals();
    assert!(snn.skips_silent());
    // The spikes of instant 0 still hold the neurons back at instant 2.
    let out = snn.process(&[[1, 0, 1], [1, 0, 1]]).unwrap();
    assert_eq!(out, vec![vec![1, 0, 0], vec![1, 0, 0]]);
}

#[test]
fn silent_instants_are_processed_on_request() {
    let mut snn = rivals();
    snn.set_skip_silent(false);
    assert!(!snn.skips_silent());
    // Instant 1 is computed, nothing spikes, and nothing holds the neurons back at 2.
    let out = snn.process(&[[1, 0, 1], [1, 0, 1]]).unwrap();
    assert_eq!(out, vec![vec![1, 0, 1], vec![1, 0, 1]]);
}

#[test]
fn a_silent_instant_can_spike_when_it_is_processed() {
    // A neuron that fires on a weighted sum of zero.
    let mut snn = DynSnnBuilder::new()
        .add_layer(thresholds(1, 0), vec![vec![WEIGHT_ONE]], vec![vec![0]])
        .unwrap()
        .build()
        .unwrap();
    assert_eq!(snn.process(&[[0, 1, 0]]).unwrap(), vec![vec![0, 1, 0]]);
    snn.set_skip_silent(false);
    assert_eq!(snn.process(&[[0, 1, 0]]).unwrap(), vec![vec![1, 1, 1]]);
}

#[test]
fn state_persists_from_one_call_to_the_next() {
    let mut snn = rivals();
    assert_eq!(snn.process(&[[1], [1]]).unwrap(), vec![vec![1], vec![1]]);
    // The spikes of the first call hold the neurons back in the second.
    assert_eq!(snn.process(&[[1], [1]]).unwrap(), vec![vec![0], vec![0]]);
    assert_eq!(snn.process(&[[1], [1]]).unwrap(), vec![vec![1], vec![1]]);
}

#[test]
fn process_events_keeps_instants() {
    let mut snn = rivals();
    let events = vec![
        SpikeEvent::new(10, vec![1, 0]).unwrap(),
        SpikeEvent::new(11, vec![0, 0]).unwrap(),
        SpikeEvent::new(15, vec![1, 1]).unwrap(),
    ];
    let out = snn.process_events(events);
    let got: Vec<(u64, Vec<u8>)> = out.iter().map(|e| (e.ts(), e.spikes().clone())).collect();
    assert_eq!(got, vec![(10, vec![1, 0]), (15, vec![1, 0])]);
}

#[test]
fn encode_and_decode_by_the_network() {
    let snn = one_layer();
    let events =
        DynSNN::<LifNeuron>::encode_spikes(&[[1, 0], [0, 1]]).unwrap();
    let got: Vec<(u64, Vec<u8>)> = events.iter().map(|e| (e.ts(), e.spikes().clone())).collect();
    assert_eq!(got, vec![(0, vec![1, 0]), (1, vec![0, 1])]);
    let out = snn.decode_spikes(vec![SpikeEvent::new(1, vec![1, 0, 1]).unwrap()], 2);
    assert_eq!(out, vec![vec![0, 1], vec![0, 0], vec![0, 1]]);
}

#[test]
fn network_new_rejects_no_layers() {
    assert_eq!(
        DynSNN::<ThresholdNeuron>::new(vec![]).err(),
        Some(ConstructionError::NoLayers)
    );
}

#[test]
fn network_new_rejects_layers_that_do_not_fit() {
    let first = Layer::new(1, thresholds(2, 1), vec![vec![1], vec![1]], vec![vec![0, 0]; 2]).unwrap();
    let second = Layer::new(3, thresholds(1, 1), vec![vec![1, 1, 1]], vec![vec![0]]).unwrap();
    assert_eq!(
        DynSNN::new(vec![first, second]).err(),
        Some(ConstructionError::LayerWidthMismatch)
    );
}

#[test]
fn network_new_and_into_layers() {
    let first = Layer::new(1, thresholds(2, 1), vec![vec![1], vec![1]], vec![vec![0, 0]; 2]).unwrap();
    let second = Layer::new(2, thresholds(1, 1), vec![vec![1, 1]], vec![vec![0]]).unwrap();
    let snn = DynSNN::new(vec![first, second]).unwrap();
    assert!(snn.skips_silent());
    assert_eq!(snn.get_layers_number(), 2);
    assert_eq!(snn.get_input_dim(), 1);
    assert_eq!(snn.get_output_dim(), 1);
    let layers = snn.into_layers();
    assert_eq!(layers.len(), 2);
    assert_eq!(layers[1].get_input_dim(), 2);
}

#[test]
fn clone_of_a_network_is_independent() {
    let mut snn = rivals();
    let mut copy = snn.clone();
    assert_eq!(snn.process(&[[1], [1]]).unwrap(), vec![vec![1], vec![1]]);
    assert_eq!(copy.skips_silent(), snn.skips_silent());
    assert_eq!(copy.process(&[[1], [1]]).unwrap(), vec![vec![1], vec![1]]);
    assert_eq!(copy.process(&[[1], [1]]).unwrap(), vec![vec![0], vec![0]]);
}

#[test]
fn builder_starts_empty() {
    let builder = DynSnnBuilder::<ThresholdNeuron>::new();
    assert_eq!(builder.get_layers_number(), 0);
    let params = builder.get_params();
    assert_eq!(params.input_dimensions, 0);
    assert_eq!(params.num_layers, 0);
    assert!(params.neurons.is_empty());
    assert!(params.extra_weights.is_empty());
    assert!(params.intra_weights.is_empty());
    assert_eq!(builder.build().err(), Some(ConstructionError::NoLayers));
}

#[test]
fn builder_records_layers() {
    let builder = DynSnnBuilder::new()
        .add_layer(thresholds(2, 5), vec![vec![1, 2, 3], vec![4, 5, 6]], vec![vec![0, -1], vec![-2, 0]])
        .unwrap()
        .add_layer(thresholds(1, 7), vec![vec![8, 9]], vec![vec![0]])
        .unwrap();
    assert_eq!(builder.get_layers_number(), 2);
    let params = builder.get_params();
    assert_eq!(params.input_dimensions, 3);
    assert_eq!(params.num_layers, 2);
    assert_eq!(params.neurons.len(), 2);
    assert_eq!(params.neurons[0].len(), 2);
    assert_eq!(params.neurons[1][0].threshold, 7);
    assert_eq!(
        params.extra_weights,
        vec![vec![vec![1, 2, 3], vec![4, 5, 6]], vec![vec![8, 9]]]
    );
    assert_eq!(params.intra_weights, vec![vec![vec![0, -1], vec![-2, 0]], vec![vec![0]]]);
    let copy = builder.clone();
    assert_eq!(copy.get_layers_number(), 2);
    let snn = builder.build().unwrap();
    assert_eq!(snn.get_input_dim(), 3);
    assert_eq!(snn.get_output_dim(), 1);
    let layers = snn.get_layers();
    assert_eq!(layers[0].get_extra_weights(), &vec![vec![1, 2, 3], vec![4, 5, 6]]);
    assert_eq!(layers[0].get_prev_output_spikes(), &vec![0u8, 0]);
    assert_eq!(layers[1].get_input_dim(), 2);
    assert_eq!(layers[1].get_intra_weights(), &vec![vec![0]]);
}

#[test]
fn builder_rejects_intra_weights() {
    let b = || DynSnnBuilder::<ThresholdNeuron>::new();
    assert_eq!(
        b().add_layer(thresholds(2, 1), vec![vec![1], vec![1]], vec![vec![0, 0]]).err(),
        Some(ConstructionError::IntraWeightsRows)
    );
    assert_eq!(
        b().add_layer(thresholds(2, 1), vec![vec![1], vec![1]], vec![vec![0, 0], vec![0]]).err(),
        Some(ConstructionError::IntraWeightsColumns)
    );
    assert_eq!(
        b().add_layer(thresholds(2, 1), vec![vec![1], vec![1]], vec![vec![0, 1], vec![0, 0]]).err(),
        Some(ConstructionError::IntraWeightsRange)
    );
    assert_eq!(
        b().add_layer(
            thresholds(2, 1),
            vec![vec![1], vec![1]],
            vec![vec![0, -WEIGHT_ONE - 1], vec![0, 0]]
        )
        .err(),
        Some(ConstructionError::IntraWeightsRange)
    );
    assert!(b()
        .add_layer(
            thresholds(2, 1),
            vec![vec![1], vec![1]],
            vec![vec![0, -WEIGHT_ONE], vec![-WEIGHT_ONE, 0]]
        )
        .is_ok());
}

#[test]
fn builder_rejects_extra_weights() {
    let b = || DynSnnBuilder::<ThresholdNeuron>::new();
    let intra = || vec![vec![0, 0], vec![0, 0]];
    assert_eq!(
        b().add_layer(thresholds(2, 1), vec![vec![1]], intra()).err(),
        Some(ConstructionError::ExtraWeightsRows)
    );
    assert_eq!(
        b().add_layer(thresholds(2, 1), vec![vec![1, 1], vec![1]], intra()).err(),
        Some(ConstructionError::ExtraWeightsColumns)
    );
    assert_eq!(
        b().add_layer(thresholds(2, 1), vec![vec![1], vec![-1]], intra()).err(),
        Some(ConstructionError::ExtraWeightsRange)
    );
    assert_eq!(
        b().add_layer(thresholds(2, 1), vec![vec![1], vec![WEIGHT_ONE + 1]], intra()).err(),
        Some(ConstructionError::ExtraWeightsRange)
    );
    assert!(b().add_layer(thresholds(2, 1), vec![vec![0], vec![WEIGHT_ONE]], intra()).is_ok());
}

#[test]
fn builder_rejects_a_layer_that_does_not_fit_the_one_before() {
    let first = DynSnnBuilder::new()
        .add_layer(thresholds(2, 1), vec![vec![1], vec![1]], vec![vec![0, 0], vec![0, 0]])
        .unwrap();
    assert_eq!(
        first.add_layer(thresholds(1, 1), vec![vec![1, 1, 1]], vec![vec![0]]).err(),
        Some(ConstructionError::ExtraWeightsColumns)
    );
}

#[test]
fn builder_looks_at_defects_in_order() {
    let b = || DynSnnBuilder::<ThresholdNeuron>::new();
    // Intra weights before extra weights.
    assert_eq!(
        b().add_layer(thresholds(1, 1), vec![], vec![vec![5]]).err(),
        Some(ConstructionError::IntraWeightsRange)
    );
    // The rows in their order, and in each its length before its weights.
    assert_eq!(
        b().add_layer(
            thresholds(2, 1),
            vec![vec![1], vec![1]],
            vec![vec![0, 7], vec![0]]
        )
        .err(),
        Some(ConstructionError::IntraWeightsRange)
    );
    assert_eq!(
        b().add_layer(
            thresholds(2, 1),
            vec![vec![1], vec![1]],
            vec![vec![0, 7, 0], vec![0, 7]]
        )
        .err(),
        Some(ConstructionError::IntraWeightsColumns)
    );
    // The number of rows before any row.
    assert_eq!(
        b().add_layer(thresholds(2, 1), vec![vec![-1]], vec![vec![0, 0], vec![0, 0]]).err(),
        Some(ConstructionError::ExtraWeightsRows)
    );
}

#[test]
fn builder_checks_on_their_own() {
    let builder = DynSnnBuilder::new()
        .add_layer(thresholds(2, 1), vec![vec![1, 1, 1], vec![1, 1, 1]], vec![vec![0, 0], vec![0, 0]])
        .unwrap();
    assert_eq!(builder.check_intra_weights(1, &vec![vec![0]]), None);
    assert_eq!(
        builder.check_intra_weights(1, &vec![vec![1]]),
        Some(ConstructionError::IntraWeightsRange)
    );
    assert_eq!(
        builder.check_intra_weights(2, &vec![vec![0]]),
        Some(ConstructionError::IntraWeightsRows)
    );
    assert_eq!(builder.check_weights(1, &vec![vec![0, WEIGHT_ONE]]), None);
    assert_eq!(
        builder.check_weights(1, &vec![vec![0, 0, 0]]),
        Some(ConstructionError::ExtraWeightsColumns)
    );
    assert_eq!(
        builder.check_weights(1, &vec![vec![0, -1]]),
        Some(ConstructionError::ExtraWeightsRange)
    );
    assert_eq!(builder.check_weights(2, &vec![vec![0, 0]]), Some(ConstructionError::ExtraWeightsRows));
    let empty = DynSnnBuilder::<ThresholdNeuron>::new();
    assert_eq!(empty.check_weights(2, &vec![vec![0, 0, 0], vec![1, 1, 1]]), None);
    assert_eq!(
        empty.check_weights(2, &vec![vec![0, 0, 0], vec![1, 1]]),
        Some(ConstructionError::ExtraWeightsColumns)
    );
    assert_eq!(empty.check_weights(0, &vec![]), None);
}

#[test]
fn a_network_without_inputs() {
    let mut snn = DynSnnBuilder::new()
        .add_layer(thresholds(2, 0), vec![vec![], vec![]], vec![vec![0, 0], vec![0, 0]])
        .unwrap()
        .build()
        .unwrap();
    assert_eq!(snn.get_input_dim(), 0);
    let nothing: [[u8; 3]; 0] = [];
    // Every instant is silent, so none is heard.
    assert_eq!(snn.process(&nothing).unwrap(), vec![vec![0, 0, 0], vec![0, 0, 0]]);
    snn.set_skip_silent(false);
    assert_eq!(snn.process(&nothing).unwrap(), vec![vec![1, 1, 1], vec![1, 1, 1]]);
    // Without rows a matrix of vectors states no instant.
    assert_eq!(snn._process_dyn(vec![]).unwrap(), vec![Vec::<u8>::new(); 2]);
}
