use pds_snn::builders::{LayerBuilder, SnnBuilder, SnnParams, WeightsBuilder};
use pds_snn::models::ThresholdNeuron;
use pds_snn::neuron::WEIGHT_ONE;
use pds_snn::{ConstructionError, InputContractError, Layer, SNN};

fn t(threshold: i128) -> ThresholdNeuron {
    ThresholdNeuron::new(threshold)
}

fn params(
    neurons: Vec<Vec<ThresholdNeuron>>,
    extra_weights: Vec<Vec<Vec<i32>>>,
    intra_weights: Vec<Vec<Vec<i32>>>,
) -> SnnParams<ThresholdNeuron> {
    SnnParams { input_dimensions: 0, neurons, extra_weights, intra_weights }
}

#[test]
fn build_of_two_layers() {
    let mut snn = SnnBuilder::new()
        .add_layer()
        .weights([[WEIGHT_ONE, 0], [0, WEIGHT_ONE], [WEIGHT_ONE, WEIGHT_ONE]])
        .neurons([t(1), t(1), t(2_000_000)])
        .intra_weights([[0, 0, 0], [0, 0, 0], [0, 0, 0]])
        .add_layer()
        .weights([[1, 1, 1]])
        .neurons([t(3)])
        .intra_weights([[0]])
        .build()
        .unwrap();
    assert_eq!(snn.get_layers_number(), 2);
    assert!(!snn.skips_silent());
    let layers = snn.get_layers();
    assert_eq!(layers[0].get_input_dim(), 2);
    assert_eq!(layers[0].get_neurons_number(), 3);
    assert_eq!(layers[1].get_input_dim(), 3);
    assert_eq!(layers[1].get_extra_weights(), &vec![vec![1, 1, 1]]);
    // The last neuron fires exactly if all three of the first layer do.
    let out: [[u8; 4]; 1] = snn.process(&[[0, 1, 0, 1], [0, 0, 1, 1]]).unwrap();
    assert_eq!(out, [[0, 0, 0, 1]]);
}

#[test]
fn build_rejects_lists_of_different_lengths() {
    let p = params(vec![vec![t(1)]], vec![], vec![vec![vec![0]]]);
    assert_eq!(
        LayerBuilder::<ThresholdNeuron, 1, 1>::new(p).build().err(),
        Some(ConstructionError::LayerCountMismatch)
    );
    let p = params(vec![vec![t(1)]], vec![vec![vec![0]]], vec![]);
    assert_eq!(
        LayerBuilder::<ThresholdNeuron, 1, 1>::new(p).build().err(),
        Some(ConstructionError::LayerCountMismatch)
    );
    let p = params(vec![], vec![vec![vec![0]]], vec![vec![vec![0]]]);
    assert_eq!(
        LayerBuilder::<ThresholdNeuron, 1, 1>::new(p).build().err(),
        Some(ConstructionError::LayerCountMismatch)
    );
}

#[test]
fn build_rejects_no_layers() {
    let p = params(vec![], vec![], vec![]);
    assert_eq!(
        LayerBuilder::<ThresholdNeuron, 0, 0>::new(p).build().err(),
        Some(ConstructionError::NoLayers)
    );
}

#[test]
fn build_rejects_the_first_defective_layer() {
    // The first layer has a short row of intra weights, the second too few rows of extra
    // weights: the layers are looked at in their order.
    let p = params(
        vec![vec![t(1), t(1)], vec![t(1)]],
        vec![vec![vec![1], vec![1]], vec![]],
        vec![vec![vec![0, 0], vec![0]], vec![vec![0]]],
    );
    assert_eq!(
        LayerBuilder::<ThresholdNeuron, 1, 1>::new(p).build().err(),
        Some(ConstructionError::IntraWeightsColumns)
    );
    let p = params(
        vec![vec![t(1), t(1)], vec![t(1)]],
        vec![vec![vec![1], vec![1]], vec![]],
        vec![vec![vec![0, 0], vec![0, 0]], vec![vec![0]]],
    );
    assert_eq!(
        LayerBuilder::<ThresholdNeuron, 1, 1>::new(p).build().err(),
        Some(ConstructionError::ExtraWeightsRows)
    );
}

#[test]
fn build_rejects_weights_that_do_not_fit_the_widths() {
    // One input stated, two weights per row.
    let p = params(vec![vec![t(1)]], vec![vec![vec![1, 1]]], vec![vec![vec![0]]]);
    assert_eq!(
        LayerBuilder::<ThresholdNeuron, 1, 1>::new(p).build().err(),
        Some(ConstructionError::ExtraWeightsColumns)
    );
    // The second layer has one weight per row for two neurons before it.
    let p = params(
        vec![vec![t(1), t(1)], vec![t(1)]],
        vec![vec![vec![1], vec![1]], vec![vec![1]]],
        vec![vec![vec![0, 0], vec![0, 0]], vec![vec![0]]],
    );
    assert_eq!(
        LayerBuilder::<ThresholdNeuron, 1, 1>::new(p).build().err(),
        Some(ConstructionError::ExtraWeightsColumns)
    );
    let p = params(vec![vec![t(1)]], vec![vec![vec![1]]], vec![vec![]]);
    assert_eq!(
        LayerBuilder::<ThresholdNeuron, 1, 1>::new(p).build().err(),
        Some(ConstructionError::IntraWeightsRows)
    );
}

#[test]
fn build_rejects_another_output_width() {
    let p = params(vec![vec![t(1)]], vec![vec![vec![1]]], vec![vec![vec![0]]]);
    assert_eq!(
        LayerBuilder::<ThresholdNeuron, 2, 1>::new(p).build().err(),
        Some(ConstructionError::OutputWidthMismatch)
    );
}

#[test]
fn steps_can_start_from_given_parts() {
    let p = params(vec![vec![t(1)]], vec![vec![vec![WEIGHT_ONE]]], vec![vec![vec![0]]]);
    let mut snn = WeightsBuilder::<ThresholdNeuron, 1, 1>::new(p)
        .weights([[WEIGHT_ONE], [WEIGHT_ONE]])
        .neurons([t(1), t(2_000_000)])
        .intra_weights([[0, 0], [0, 0]])
        .build()
        .unwrap();
    assert_eq!(snn.process(&[[1, 0]]).unwrap(), [[1, 0], [0, 0]]);
}

#[test]
fn network_new_checks_the_widths_of_its_type() {
    let layer = || Layer::new(2, vec![t(1); 3], vec![vec![1, 1]; 3], vec![vec![0, 0, 0]; 3]).unwrap();
    assert!(SNN::<ThresholdNeuron, 2, 3>::new(vec![layer()]).is_ok());
    assert_eq!(
        SNN::<ThresholdNeuron, 3, 3>::new(vec![layer()]).err(),
        Some(ConstructionError::InputWidthMismatch)
    );
    assert_eq!(
        SNN::<ThresholdNeuron, 2, 2>::new(vec![layer()]).err(),
        Some(ConstructionError::OutputWidthMismatch)
    );
    assert_eq!(
        SNN::<ThresholdNeuron, 2, 3>::new(vec![]).err(),
        Some(ConstructionError::NoLayers)
    );
    assert_eq!(
        SNN::<ThresholdNeuron, 2, 3>::new(vec![layer(), layer()]).err(),
        Some(ConstructionError::LayerWidthMismatch)
    );
    // The chain is looked at before the widths of the type.
    assert_eq!(
        SNN::<ThresholdNeuron, 9, 9>::new(vec![layer(), layer()]).err(),
        Some(ConstructionError::LayerWidthMismatch)
    );
}

fn rivals() -> SNN<ThresholdNeuron, 2, 2> {
    SnnBuilder::new()
        .add_layer()
        .weights([[WEIGHT_ONE, 0], [0, WEIGHT_ONE]])
        .neurons([t(500_000), t(500_000)])
        .intra_weights([[0, -600_000], [-600_000, 0]])
        .build()
        .unwrap()
}

#[test]
fn silent_instants_are_processed_by_default() {
    let mut snn = rivals();
    assert!(!snn.skips_silent());
    assert_eq!(snn.process(&[[1, 0, 1], [1, 0, 1]]).unwrap(), [[1, 0, 1], [1, 0, 1]]);
}

#[test]
fn silent_instants_are_withheld_on_request() {
    let mut snn = rivals();
    snn.set_skip_silent(true);
    assert!(snn.skips_silent());
    assert_eq!(snn.process(&[[1, 0, 1], [1, 0, 1]]).unwrap(), [[1, 0, 0], [1, 0, 0]]);
}

#[test]
fn process_rejects_other_values() {
    let mut snn = rivals();
    assert_eq!(snn.process(&[[0, 50], [0, 1]]).err(), Some(InputContractError::NonBinarySpike));
    // Nothing was processed: the network answers as a fresh one does.
    assert_eq!(snn.process(&[[1], [1]]).unwrap(), [[1], [1]]);
}

#[test]
fn process_vectors_checks_the_shape() {
    let mut snn = rivals();
    assert_eq!(snn._process_dyn(vec![vec![1, 0, 1], vec![1, 0, 1]]).unwrap(), vec![vec![1, 0, 1]; 2]);
    assert_eq!(snn._process_dyn(vec![vec![1]]), Err(InputContractError::WrongWidth));
    assert_eq!(snn._process_dyn(vec![vec![1], vec![]]), Err(InputContractError::RaggedRows));
    assert_eq!(snn._process_dyn(vec![vec![1], vec![4]]), Err(InputContractError::NonBinarySpike));
}

#[test]
fn events_through_a_typed_network() {
    let mut snn = rivals();
    let events = SNN::<ThresholdNeuron, 2, 2>::encode_spikes(&[[1, 0], [1, 1]]).unwrap();
    let got: Vec<(u64, Vec<u8>)> = events.iter().map(|e| (e.ts(), e.spikes().clone())).collect();
    assert_eq!(got, vec![(0, vec![1, 1]), (1, vec![0, 1])]);
    let out = snn.process_events(events);
    let got: Vec<(u64, Vec<u8>)> = out.iter().map(|e| (e.ts(), e.spikes().clone())).collect();
    assert_eq!(got, vec![(0, vec![1, 1]), (1, vec![0, 0])]);
    let matrix: [[u8; 3]; 2] = SNN::<ThresholdNeuron, 2, 2>::decode_spikes(out);
    assert_eq!(matrix, [[1, 0, 0], [1, 0, 0]]);
    assert!(SNN::<ThresholdNeuron, 2, 2>::encode_spikes(&[[1, 0], [1, 2]]).is_err());
}

#[test]
fn into_layers_hands_the_layers_over() {
    let layers = rivals().into_layers();
    assert_eq!(layers.len(), 1);
    assert_eq!(layers[0].get_intra_weights(), &vec![vec![0, -600_000], vec![-600_000, 0]]);
}
