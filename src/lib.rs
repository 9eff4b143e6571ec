//! Multi-scalar multiplication over the group G1 of BLS12-381: a baseline
//! double-and-add evaluator, Pippenger's bucket method in one pass and as an
//! incremental accumulator, an instance generator, and the canonical byte
//! encoding and content digest of instances.
pub mod group;
pub mod scalar;
pub mod model;
pub mod msm;
pub mod pippenger;
pub mod generator;
pub mod chunked;
pub mod codec;
pub mod digest;
pub mod laws;
pub mod instances;

pub use instances::{
    compute_msm, compute_msm_baseline, deserialize_msm_inputs, generate_msm_inputs, InstanceObject,
    InstanceObjectVector, PointVectorInput, ScalarVectorInput,
};
