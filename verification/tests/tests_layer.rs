use pds_snn::models::ThresholdNeuron;
use pds_snn::worker::{react, Incoming, Outgoing};
use pds_snn::{ConstructionError, Layer, Neuron, SpikeEvent};

/// A neuron that never fires and keeps what it was handed.
#[derive(Clone, Debug, PartialEq)]
struct Probe {
    seen: Vec<(u64, i128)>,
}

impl Neuron for Probe {
    fn fires(&self, _t: u64, _weighted_sum: i128) -> bool {
        false
    }

    fn next(&self, t: u64, weighted_sum: i128) -> Self {
        let mut seen = self.seen.clone();
        seen.push((t, weighted_sum));
        Probe { seen }
    }

    fn compute_v_mem(&mut self, t: u64, weighted_sum: i128) -> bool {
        let fired = self.fires(t, weighted_sum);
        *self = self.next(t, weighted_sum);
        fired
    }
}

fn probes(n: usize) -> Vec<Probe> {
    vec![Probe { seen: vec![] }; n]
}

fn thresholds(values: &[i128]) -> Vec<ThresholdNeuron> {
    values.iter().map(|t| ThresholdNeuron::new(*t)).collect()
}

#[test]
fn layer_new_keeps_its_parts() {
    let layer = Layer::new(
        2,
        thresholds(&[10, 20, 30]),
        vec![vec![1, 2], vec![3, 4], vec![5, 6]],
        vec![vec![0, -1, -2], vec![-3, 0, -4], vec![-5, -6, 0]],
    )
    .unwrap();
    assert_eq!(layer.get_input_dim(), 2);
    assert_eq!(layer.get_neurons_number(), 3);
    assert_eq!(layer.get_extra_weights(), &vec![vec![1, 2], vec![3, 4], vec![5, 6]]);
    assert_eq!(
        layer.get_intra_weights(),
        &vec![vec![0, -1, -2], vec![-3, 0, -4], vec![-5, -6, 0]]
    );
    assert_eq!(layer.get_prev_output_spikes(), &vec![0u8, 0, 0]);
    let kept: Vec<i128> = layer.get_neurons().iter().map(|n| n.threshold).collect();
    assert_eq!(kept, vec![10, 20, 30]);
}

#[test]
fn layer_new_accepts_no_neurons() {
    let layer = Layer::<ThresholdNeuron>::new(4, vec![], vec![], vec![]).unwrap();
    assert_eq!(layer.get_input_dim(), 4);
    assert_eq!(layer.get_neurons_number(), 0);
}

#[test]
fn layer_new_rejects_extra_weights_rows() {
    let res = Layer::new(1, thresholds(&[1, 1]), vec![vec![1]], vec![vec![0, 0], vec![0, 0]]);
    assert_eq!(res.err(), Some(ConstructionError::ExtraWeightsRows));
}

#[test]
fn layer_new_rejects_extra_weights_columns() {
    let res =
        Layer::new(2, thresholds(&[1, 1]), vec![vec![1, 1], vec![1]], vec![vec![0, 0], vec![0, 0]]);
    assert_eq!(res.err(), Some(ConstructionError::ExtraWeightsColumns));
}

#[test]
fn layer_new_rejects_intra_weights_rows() {
    let res = Layer::new(1, thresholds(&[1, 1]), vec![vec![1], vec![1]], vec![vec![0, 0]]);
    assert_eq!(res.err(), Some(ConstructionError::IntraWeightsRows));
}

#[test]
fn layer_new_rejects_intra_weights_columns() {
    let res =
        Layer::new(1, thresholds(&[1, 1]), vec![vec![1], vec![1]], vec![vec![0, 0], vec![0]]);
    assert_eq!(res.err(), Some(ConstructionError::IntraWeightsColumns));
}

#[test]
fn layer_new_looks_at_intra_weights_first() {
    let res = Layer::new(1, thresholds(&[1, 1]), vec![vec![1, 2], vec![1]], vec![]);
    assert_eq!(res.err(), Some(ConstructionError::IntraWeightsRows));
    let res = Layer::new(1, thresholds(&[1, 1]), vec![], vec![vec![0, 0], vec![0]]);
    assert_eq!(res.err(), Some(ConstructionError::IntraWeightsColumns));
}

#[test]
fn layer_new_does_not_look_at_ranges() {
    let res = Layer::new(
        1,
        thresholds(&[1]),
        vec![vec![i32::MAX]],
        vec![vec![i32::MIN]],
    );
    assert!(res.is_ok());
}

#[test]
fn compute_hands_each_neuron_its_weighted_sum() {
    let mut layer = Layer::new(
        3,
        probes(2),
        vec![vec![100, 20, 3], vec![4000, 500, 60]],
        vec![vec![-7, -1], vec![-2, -9]],
    )
    .unwrap();
    let out = layer.compute(5, &vec![1, 0, 1]);
    assert_eq!(out, vec![0, 0]);
    assert_eq!(layer.get_neurons()[0].seen, vec![(5, 103)]);
    assert_eq!(layer.get_neurons()[1].seen, vec![(5, 4060)]);
}

#[test]
fn compute_applies_lateral_weights_to_the_previous_spikes_only() {
    // Neuron 0 fires on any input, neuron 1 and 2 never do at first.
    let mut layer = Layer::new(
        1,
        thresholds(&[1_000_000, 1_000_000, 300_000]),
        vec![vec![1_000_000], vec![500_000], vec![400_000]],
        vec![vec![-1, -250_000, 0], vec![-600_000, -2, 0], vec![-200_000, -150_000, -3]],
    )
    .unwrap();
    // Nothing was emitted before: no lateral term, neuron 2 reaches its threshold.
    assert_eq!(layer.compute(0, &vec![1]), vec![1, 0, 1]);
    assert_eq!(layer.get_prev_output_spikes(), &vec![1u8, 0, 1]);
    // Neuron 0 and 2 spiked last: neuron 0 is not held back by itself, and neuron 2 gets
    // 400_000 - 200_000 from neuron 0 and nothing from itself.
    assert_eq!(layer.compute(1, &vec![1]), vec![1, 0, 0]);
    assert_eq!(layer.get_prev_output_spikes(), &vec![1u8, 0, 0]);
}

#[test]
fn compute_leaves_out_the_weight_of_a_neuron_onto_itself() {
    let mut layer = Layer::new(
        1,
        probes(2),
        vec![vec![10], vec![20]],
        vec![vec![-1000, -1], vec![-2, -2000]],
    )
    .unwrap();
    // Make both neurons count as having spiked: process once on a layer built with
    // neurons that fire, then look at the sums.
    let mut firing = Layer::new(
        1,
        thresholds(&[0, 0]),
        vec![vec![10], vec![20]],
        vec![vec![-1000, -1], vec![-2, -2000]],
    )
    .unwrap();
    assert_eq!(firing.compute(0, &vec![1]), vec![1, 1]);
    // With thresholds 0 both fire at 10 and 20; next instant the sums are 10 - 1 and
    // 20 - 2, still at or above 0.
    assert_eq!(firing.compute(1, &vec![1]), vec![1, 1]);
    // The probes never fire, so their lateral term is zero.
    layer.compute(0, &vec![1]);
    layer.compute(1, &vec![1]);
    assert_eq!(layer.get_neurons()[0].seen, vec![(0, 10), (1, 10)]);
    assert_eq!(layer.get_neurons()[1].seen, vec![(0, 20), (1, 20)]);
}

#[test]
fn compute_sums_exactly_with_lateral_terms() {
    // Thresholds chosen so that each neuron fires exactly if its sum is the expected one.
    // First instant: input [1, 1], nothing emitted before.
    let mut layer = Layer::new(
        2,
        thresholds(&[300, 700]),
        vec![vec![100, 200], vec![300, 400]],
        vec![vec![-5000, -50], vec![-60, -5000]],
    )
    .unwrap();
    assert_eq!(layer.compute(0, &vec![1, 1]), vec![1, 1]);
    // Second instant: sums are 300 - 50 = 250 and 700 - 60 = 640.
    let mut at_250 = Layer::new(
        2,
        thresholds(&[250, 640]),
        vec![vec![100, 200], vec![300, 400]],
        vec![vec![-5000, -50], vec![-60, -5000]],
    )
    .unwrap();
    assert_eq!(at_250.compute(0, &vec![1, 1]), vec![1, 1]);
    assert_eq!(at_250.compute(1, &vec![1, 1]), vec![1, 1]);
    let mut at_251 = Layer::new(
        2,
        thresholds(&[251, 641]),
        vec![vec![100, 200], vec![300, 400]],
        vec![vec![-5000, -50], vec![-60, -5000]],
    )
    .unwrap();
    assert_eq!(at_251.compute(0, &vec![1, 1]), vec![1, 1]);
    assert_eq!(at_251.compute(1, &vec![1, 1]), vec![0, 0]);
}

#[test]
fn compute_on_a_layer_without_neurons() {
    let mut layer = Layer::<ThresholdNeuron>::new(2, vec![], vec![], vec![]).unwrap();
    assert_eq!(layer.compute(0, &vec![1, 1]), Vec::<u8>::new());
}

#[test]
fn compute_on_a_layer_without_inputs() {
    let mut layer =
        Layer::new(0, thresholds(&[0, 1]), vec![vec![], vec![]], vec![vec![0, 0], vec![0, 0]])
            .unwrap();
    assert_eq!(layer.compute(0, &vec![]), vec![1, 0]);
}

#[test]
fn process_event_keeps_the_instant() {
    let mut layer =
        Layer::new(2, thresholds(&[150]), vec![vec![100, 200]], vec![vec![0]]).unwrap();
    let out = layer.process_event(&SpikeEvent::new(42, vec![0, 1]).unwrap());
    assert_eq!(out.ts(), 42);
    assert_eq!(out.spikes(), &vec![1u8]);
    let out = layer.process_event(&SpikeEvent::new(43, vec![1, 0]).unwrap());
    assert_eq!(out.ts(), 43);
    assert_eq!(out.spikes(), &vec![0u8]);
}

#[test]
fn process_emits_one_event_per_event() {
    let mut layer = Layer::new(
        1,
        thresholds(&[1_000_000, 400_000]),
        vec![vec![1_000_000], vec![500_000]],
        vec![vec![0, 0], vec![-200_000, 0]],
    )
    .unwrap();
    let events = vec![
        SpikeEvent::new(0, vec![1]).unwrap(),
        SpikeEvent::new(3, vec![1]).unwrap(),
        SpikeEvent::new(4, vec![0]).unwrap(),
        SpikeEvent::new(9, vec![1]).unwrap(),
    ];
    let out = layer.process(&events);
    let got: Vec<(u64, Vec<u8>)> = out.iter().map(|e| (e.ts(), e.spikes().clone())).collect();
    assert_eq!(
        got,
        vec![(0, vec![1, 1]), (3, vec![1, 0]), (4, vec![0, 0]), (9, vec![1, 1])]
    );
    assert_eq!(layer.get_prev_output_spikes(), &vec![1u8, 1]);
}

#[test]
fn process_of_no_events_changes_nothing() {
    let mut layer = Layer::new(1, probes(1), vec![vec![5]], vec![vec![0]]).unwrap();
    assert!(layer.process(&vec![]).is_empty());
    assert!(layer.get_neurons()[0].seen.is_empty());
    assert_eq!(layer.get_prev_output_spikes(), &vec![0u8]);
}

#[test]
fn weights_stay_as_they_were() {
    let mut layer = Layer::new(
        2,
        thresholds(&[1, 1]),
        vec![vec![1, 2], vec![3, 4]],
        vec![vec![0, -1], vec![-1, 0]],
    )
    .unwrap();
    layer.compute(0, &vec![1, 1]);
    layer.compute(1, &vec![0, 1]);
    assert_eq!(layer.get_extra_weights(), &vec![vec![1, 2], vec![3, 4]]);
    assert_eq!(layer.get_intra_weights(), &vec![vec![0, -1], vec![-1, 0]]);
    assert_eq!(layer.get_input_dim(), 2);
    assert_eq!(layer.get_neurons_number(), 2);
}

#[test]
fn clone_of_a_layer_is_independent() {
    let mut layer = Layer::new(1, probes(1), vec![vec![5]], vec![vec![0]]).unwrap();
    layer.compute(0, &vec![1]);
    let mut copy = layer.clone();
    assert_eq!(copy.get_neurons(), layer.get_neurons());
    assert_eq!(copy.get_extra_weights(), layer.get_extra_weights());
    assert_eq!(copy.get_intra_weights(), layer.get_intra_weights());
    assert_eq!(copy.get_prev_output_spikes(), layer.get_prev_output_spikes());
    assert_eq!(copy.get_input_dim(), layer.get_input_dim());
    copy.compute(1, &vec![1]);
    assert_eq!(layer.get_neurons()[0].seen, vec![(0, 5)]);
    assert_eq!(copy.get_neurons()[0].seen, vec![(0, 5), (1, 5)]);
}

#[test]
fn threshold_neuron_fires_from_its_threshold() {
    let mut n = ThresholdNeuron::new(10);
    assert!(!n.compute_v_mem(0, 9));
    assert!(n.compute_v_mem(1, 10));
    assert!(n.compute_v_mem(2, 11));
    assert_eq!(n.threshold, 10);
}

#[test]
fn a_worker_sends_on_what_its_layer_emits() {
    let mut layer =
        Layer::new(2, thresholds(&[150]), vec![vec![100, 200]], vec![vec![0]]).unwrap();
    match react(&mut layer, Incoming::Event(SpikeEvent::new(8, vec![0, 1]).unwrap())) {
        Outgoing::Event(emitted) => {
            assert_eq!(emitted.ts(), 8);
            assert_eq!(emitted.spikes(), &vec![1u8]);
        }
        Outgoing::Close => panic!("the worker stopped on an event"),
    }
    assert_eq!(layer.get_prev_output_spikes(), &vec![1u8]);
}

#[test]
fn a_worker_stops_when_its_input_is_closed() {
    let mut layer = Layer::new(1, probes(1), vec![vec![5]], vec![vec![0]]).unwrap();
    assert!(matches!(react(&mut layer, Incoming::Closed), Outgoing::Close));
    assert!(layer.get_neurons()[0].seen.is_empty());
    assert_eq!(layer.get_prev_output_spikes(), &vec![0u8]);
}
