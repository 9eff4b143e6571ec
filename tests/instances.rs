use ark_std::rand::rngs::StdRng;
use ark_std::rand::SeedableRng;
use wasm_zkp_msm::codec::{encode_points, encode_scalars};
use wasm_zkp_msm::msm::Error;
use wasm_zkp_msm::instances::{
    compute_msm, compute_msm_baseline, deserialize_msm_inputs, generate_msm_inputs, PointVectorInput,
    ScalarVectorInput,
};

#[test]
fn instance_objects_hand_out_copies() {
    let mut rng = StdRng::seed_from_u64(70);
    let instance = generate_msm_inputs(5, &mut rng);
    assert_eq!(instance.length(), 5);
    let points = instance.points();
    let scalars = instance.scalars();
    let a = compute_msm_baseline(&points, &scalars).unwrap().to_affine();
    let b = compute_msm(&points, &scalars).unwrap().to_affine();
    assert_eq!(a, b);
}

#[test]
fn point_and_scalar_inputs_of_different_sizes_are_invalid() {
    let mut rng = StdRng::seed_from_u64(71);
    let points = PointVectorInput::new(3, &mut rng);
    let scalars = ScalarVectorInput::new(4, &mut rng);
    assert!(matches!(compute_msm(&points, &scalars), Err(Error::InvalidInput)));
    assert!(matches!(compute_msm_baseline(&points, &scalars), Err(Error::InvalidInput)));
}

#[test]
fn deserialized_instances_match_what_was_encoded() {
    let mut rng = StdRng::seed_from_u64(72);
    let first = generate_msm_inputs(3, &mut rng);
    let second = generate_msm_inputs(0, &mut rng);
    let mut data = vec![2, 0, 0, 0, 0, 0, 0, 0];
    for inst in [&first, &second] {
        let points = inst.points().to_vec();
        let scalars = inst.scalars().to_vec();
        assert_eq!(inst.length(), scalars.len());
        data.extend_from_slice(&encode_points(&points));
        data.extend_from_slice(&encode_scalars(&scalars));
    }
    let decoded = deserialize_msm_inputs(&data).unwrap();
    assert_eq!(decoded.length(), 2);
    assert_eq!(decoded.at(0).length(), 3);
    assert_eq!(decoded.at(1).length(), 0);
    let a = compute_msm(&decoded.at(0).points(), &decoded.at(0).scalars()).unwrap().to_affine();
    let b = compute_msm(&first.points(), &first.scalars()).unwrap().to_affine();
    assert_eq!(a, b);
    assert!(matches!(deserialize_msm_inputs(&data[..data.len() - 1]), Err(Error::SerializationError)));
    assert!(matches!(deserialize_msm_inputs(&[1, 0]), Err(Error::SerializationError)));
}

#[test]
fn instances_with_unequal_vectors_are_refused() {
    let mut rng = StdRng::seed_from_u64(73);
    let inst = generate_msm_inputs(2, &mut rng);
    let points = inst.points().to_vec();
    let scalars = inst.scalars().to_vec();
    let mut data = vec![1, 0, 0, 0, 0, 0, 0, 0];
    data.extend_from_slice(&encode_points(&points));
    data.extend_from_slice(&encode_scalars(&scalars[..1]));
    assert!(matches!(deserialize_msm_inputs(&data), Err(Error::SerializationError)));
}
