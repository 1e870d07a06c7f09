//! Builders that put a network together layer by layer.

pub mod builder;
pub mod dyn_builder;

pub use builder::{
    IntraWeightsBuilder, LayerBuilder, NeuronsBuilder, SnnBuilder, SnnParams, WeightsBuilder,
};
pub use dyn_builder::{DynSnnBuilder, DynSnnParams};
