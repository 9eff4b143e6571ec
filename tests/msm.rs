use ark_std::rand::rngs::StdRng;
use ark_std::rand::SeedableRng;
use std::time::Instant;
use wasm_zkp_msm::chunked::ChunkedPippenger;
use wasm_zkp_msm::codec::{decode_instances, decode_points, decode_scalars, encode_instance, encode_points, encode_scalars};
use wasm_zkp_msm::digest::{hash, hash_instances, hash_points, hash_scalars};
use wasm_zkp_msm::generator::{doubling_table, generate_msm_inputs, points_from_factors};
use wasm_zkp_msm::group::{G1Acc, G1Point};
use wasm_zkp_msm::msm::{compute_msm, compute_msm_baseline, compute_msm_opt, default_window_bits, scalar_mul, Error};
use wasm_zkp_msm::pippenger::pippenger_msm;
use wasm_zkp_msm::scalar::Scalar;

// Input sizes to use in the tests below.
const K: usize = 16;
const SIZE: usize = 1 << K;

fn rng(seed: u64) -> StdRng {
    StdRng::seed_from_u64(seed)
}

fn generator_point() -> G1Point {
    G1Acc::generator().to_affine()
}

fn identity_point() -> G1Point {
    G1Acc::identity().to_affine()
}

/// k·G by repeated addition.
fn multiple_of_generator(k: u64) -> G1Point {
    let g = generator_point();
    let mut acc = G1Acc::identity();
    for _ in 0..k {
        acc = acc.add_point(&g);
    }
    acc.to_affine()
}

fn all_evaluators_agree(points: &[G1Point], scalars: &[Scalar]) -> G1Point {
    let baseline = compute_msm_baseline(points, scalars).unwrap().to_affine();
    assert_eq!(compute_msm(points, scalars).unwrap().to_affine(), baseline);
    assert_eq!(compute_msm_opt(points, scalars).unwrap().to_affine(), baseline);
    for c in [1usize, 2, 3, 5, 8, 13] {
        assert_eq!(pippenger_msm(points, scalars, c).unwrap().to_affine(), baseline);
    }
    let mut acc = ChunkedPippenger::new(64);
    acc.add_chunk(points, scalars).unwrap();
    assert_eq!(acc.finalize().to_affine(), baseline);
    baseline
}

#[test]
fn baseline_msm_doesnt_panic() {
    let (point_vec, scalar_vec) = generate_msm_inputs(SIZE, &mut rng(1));
    let start = Instant::now();
    let res1 = compute_msm(&point_vec, &scalar_vec).unwrap();
    let duration = start.elapsed();
    println!("baseline with SIZE 1<<{}: {:?}", K, duration);
    println!("\n baseline res = {:?}\n", res1.to_affine());
}

#[test]
fn optimized_msm_doesnt_panic() {
    let (point_vec, scalar_vec) = generate_msm_inputs(SIZE, &mut rng(2));
    let start = Instant::now();
    let res2 = compute_msm_opt(&point_vec, &scalar_vec).unwrap();
    let duration = start.elapsed();
    println!("msm_opt with SIZE 1<<{}: {:?}", K, duration);
    println!("\n msm_opt = {:?}\n", res2.to_affine());
}

#[test]
fn serialization_derserialization_are_consistent() -> Result<(), Error> {
    let (points, scalars) = generate_msm_inputs(1 << 6, &mut rng(3));
    let (point_stream, scalar_stream) = encode_instance(&points, &scalars);
    let serialize_hash = (hash_points(&points), hash_scalars(&scalars));

    let deserialize_hash = {
        let (points, scalars) = decode_instances(&point_stream, &scalar_stream);
        (hash_points(&points[0]), hash_scalars(&scalars[0]))
    };
    assert_eq!(serialize_hash, deserialize_hash);
    Ok(())
}

#[test]
fn evaluators_agree_on_generated_instances() {
    for (n, seed) in [(1usize, 10u64), (2, 11), (7, 12), (40, 13), (300, 14)] {
        let (points, scalars) = generate_msm_inputs(n, &mut rng(seed));
        all_evaluators_agree(&points, &scalars);
    }
}

#[test]
fn evaluators_agree_on_small_known_sum() {
    // 3·G + 5·(2G) + 0·(7G) = 13·G
    let points = vec![multiple_of_generator(1), multiple_of_generator(2), multiple_of_generator(7)];
    let scalars = vec![Scalar::from_u64(3), Scalar::from_u64(5), Scalar::from_u64(0)];
    assert_eq!(all_evaluators_agree(&points, &scalars), multiple_of_generator(13));
}

#[test]
fn evaluators_agree_on_full_width_scalars() {
    let points = vec![multiple_of_generator(3), multiple_of_generator(4)];
    let big = Scalar { limbs: [u64::MAX, u64::MAX, u64::MAX, 0x7fff_ffff_ffff_ffff] };
    let top = Scalar { limbs: [0, 0, 0, 1 << 62] };
    all_evaluators_agree(&points, &[big, top]);
    // The bucket evaluators also take scalars with the top bit set.
    let full = Scalar { limbs: [u64::MAX; 4] };
    let baseline = compute_msm_baseline(&points[..1], &[full]).unwrap().to_affine();
    assert_eq!(pippenger_msm(&points[..1], &[full], 7).unwrap().to_affine(), baseline);
    assert_eq!(compute_msm_opt(&points[..1], &[full]).unwrap().to_affine(), baseline);
}

#[test]
fn empty_instance_gives_identity() {
    let points: Vec<G1Point> = Vec::new();
    let scalars: Vec<Scalar> = Vec::new();
    assert_eq!(all_evaluators_agree(&points, &scalars), identity_point());
}

#[test]
fn unit_scalar_gives_the_point() {
    let (points, _) = generate_msm_inputs(1, &mut rng(20));
    let result = all_evaluators_agree(&points, &[Scalar::from_u64(1)]);
    assert_eq!(result, points[0]);
}

#[test]
fn zero_scalar_gives_identity() {
    let (points, _) = generate_msm_inputs(1, &mut rng(21));
    let result = all_evaluators_agree(&points, &[Scalar::from_u64(0)]);
    assert_eq!(result, identity_point());
}

#[test]
fn mismatched_lengths_are_invalid_input() {
    let (points, scalars) = generate_msm_inputs(3, &mut rng(22));
    assert_eq!(compute_msm_baseline(&points, &scalars[..2]).unwrap_err(), Error::InvalidInput);
    assert_eq!(compute_msm(&points[..1], &scalars).unwrap_err(), Error::InvalidInput);
    assert_eq!(compute_msm_opt(&points, &scalars[..1]).unwrap_err(), Error::InvalidInput);
    assert_eq!(pippenger_msm(&points[..2], &scalars, 4).unwrap_err(), Error::InvalidInput);
    let mut acc = ChunkedPippenger::new(16);
    assert_eq!(acc.add_chunk(&points, &scalars[..2]), Err(Error::InvalidInput));
}

#[test]
fn chunked_accumulator_matches_for_any_partition() {
    let (points, scalars) = generate_msm_inputs(50, &mut rng(23));
    let whole = pippenger_msm(&points, &scalars, 6).unwrap().to_affine();
    let partitions: Vec<Vec<usize>> = vec![vec![50], vec![1; 50], vec![7, 0, 13, 30], vec![49, 1], vec![0, 50, 0]];
    for (budget, sizes) in partitions.iter().enumerate() {
        let mut acc = ChunkedPippenger::new(1 << (budget * 3));
        let mut at = 0;
        for size in sizes {
            acc.add_chunk(&points[at..at + size], &scalars[at..at + size]).unwrap();
            at += size;
        }
        assert_eq!(acc.finalize().to_affine(), whole);
    }
    let mut acc = ChunkedPippenger::new(1 << 12);
    for (p, s) in points.iter().zip(scalars.iter()) {
        acc.add(*p, s);
    }
    assert_eq!(acc.finalize().to_affine(), whole);
}

#[test]
fn scalar_mul_by_five() {
    let g = generator_point();
    assert_eq!(scalar_mul(&g, &Scalar::from_u64(5)).to_affine(), multiple_of_generator(5));
    assert_eq!(scalar_mul(&g, &Scalar::from_u64(0)).to_affine(), identity_point());
}

#[test]
fn group_operations() {
    let g = G1Acc::generator();
    assert_ne!(g.to_affine(), identity_point());
    assert_eq!(g.double().to_affine(), multiple_of_generator(2));
    assert_eq!(g.add(&g.double()).to_affine(), multiple_of_generator(3));
    assert_eq!(g.add_point(&identity_point()).to_affine(), g.to_affine());
    assert_eq!(generator_point().to_projective().double().to_affine(), multiple_of_generator(2));
    let table = doubling_table();
    assert_eq!(table.len(), 256);
    assert_eq!(table[0], generator_point());
    assert_eq!(table[3], multiple_of_generator(8));
}

#[test]
fn points_from_factors_are_multiples_of_the_generator() {
    let factors = vec![Scalar::from_u64(0), Scalar::from_u64(1), Scalar::from_u64(6), Scalar::from_u64(300)];
    let points = points_from_factors(&factors);
    assert_eq!(points, vec![identity_point(), multiple_of_generator(1), multiple_of_generator(6), multiple_of_generator(300)]);
}

#[test]
fn scalar_bits_and_digits() {
    let s = Scalar { limbs: [0b1011_0110, 0, 1, 1 << 63] };
    assert!(!s.bit_at(0));
    assert!(s.bit_at(1));
    assert!(s.bit_at(2));
    assert!(!s.bit_at(3));
    assert!(s.bit_at(128));
    assert!(s.bit_at(255));
    assert_eq!(s.window_digit(0, 4), 0b0110);
    assert_eq!(s.window_digit(4, 4), 0b1011);
    assert_eq!(s.window_digit(2, 3), 0b101);
    assert_eq!(s.window_digit(126, 4), 0b0100);
    // The last window is cut at the top bit.
    assert_eq!(s.window_digit(252, 8), 0b1000);
}

#[test]
fn default_window_width() {
    assert_eq!(default_window_bits(0), 2);
    assert_eq!(default_window_bits(63), 2);
    assert_eq!(default_window_bits(64), 3);
    assert_eq!(default_window_bits(1 << 16), 13);
    assert_eq!(default_window_bits((1 << 20) - 1), 16);
    assert_eq!(default_window_bits(usize::MAX), 16);
}

#[test]
fn scalar_encoding_is_little_endian() {
    let bytes = encode_scalars(&[Scalar { limbs: [0x0102, 3, 0, 0xff00_0000_0000_0000] }]);
    let mut expected = vec![1, 0, 0, 0, 0, 0, 0, 0];
    expected.extend_from_slice(&[2, 1, 0, 0, 0, 0, 0, 0]);
    expected.extend_from_slice(&[3, 0, 0, 0, 0, 0, 0, 0]);
    expected.extend_from_slice(&[0; 8]);
    expected.extend_from_slice(&[0, 0, 0, 0, 0, 0, 0, 0xff]);
    assert_eq!(bytes, expected);
    assert_eq!(encode_scalars(&[]), vec![0; 8]);
}

#[test]
fn point_encoding_is_compressed() {
    let bytes = encode_points(&[generator_point(), identity_point()]);
    assert_eq!(bytes.len(), 8 + 2 * 48);
    assert_eq!(&bytes[..8], &[2, 0, 0, 0, 0, 0, 0, 0]);
    // The compression flag is set on both; the infinity flag on the identity only.
    assert_eq!(bytes[8] & 0xc0, 0x80);
    assert_eq!(bytes[8 + 48], 0xc0);
    assert!(bytes[8 + 49..].iter().all(|b| *b == 0));
}

#[test]
fn vectors_round_trip() {
    let (points, scalars) = generate_msm_inputs(33, &mut rng(30));
    let pb = encode_points(&points);
    let sb = encode_scalars(&scalars);
    let (p, end) = decode_points(&pb, 0).unwrap();
    assert_eq!(p, points);
    assert_eq!(end, pb.len());
    let (s, end) = decode_scalars(&sb, 0).unwrap();
    assert_eq!(s, scalars);
    assert_eq!(end, sb.len());
}

#[test]
fn damaged_records_stop_decoding() {
    let (points, scalars) = generate_msm_inputs(4, &mut rng(31));
    let pb = encode_points(&points);
    let sb = encode_scalars(&scalars);
    assert!(decode_points(&pb[..pb.len() - 1], 0).is_none());
    assert!(decode_scalars(&sb[..sb.len() - 1], 0).is_none());
    assert!(decode_scalars(&sb[..5], 0).is_none());
    let mut bad = pb.clone();
    bad[8] = 0x00; // clears the compression flag
    assert!(decode_points(&bad, 0).is_none());
    // A damaged trailing record ends the stream.
    let mut ps = pb.clone();
    ps.extend_from_slice(&pb[..20]);
    let mut ss = sb.clone();
    ss.extend_from_slice(&sb);
    let (p, s) = decode_instances(&ps, &ss);
    assert_eq!(p.len(), 1);
    assert_eq!(s.len(), 1);
}

#[test]
fn appended_instances_read_back_in_order() {
    let k = 3;
    let m = 4;
    let mut ps: Vec<u8> = Vec::new();
    let mut ss: Vec<u8> = Vec::new();
    let mut written = Vec::new();
    let mut r = rng(40);
    for _ in 0..k {
        let (points, scalars) = generate_msm_inputs(m, &mut r);
        let (p, s) = encode_instance(&points, &scalars);
        ps.extend_from_slice(&p);
        ss.extend_from_slice(&s);
        written.push((points, scalars));
    }
    let (points, scalars) = decode_instances(&ps, &ss);
    assert_eq!(points.len(), k);
    assert_eq!(scalars.len(), k);
    for i in 0..k {
        assert_eq!(points[i].len(), m);
        assert_eq!(scalars[i].len(), m);
        assert_eq!(points[i], written[i].0);
        assert_eq!(scalars[i], written[i].1);
    }
}

#[test]
fn hash_is_deterministic_and_tells_vectors_apart() {
    let (points_a, scalars_a) = generate_msm_inputs(8, &mut rng(50));
    let (points_b, scalars_b) = generate_msm_inputs(8, &mut rng(51));
    assert_eq!(hash_points(&points_a), hash_points(&points_a));
    assert_eq!(hash_scalars(&scalars_a), hash_scalars(&scalars_a));
    assert_ne!(hash_points(&points_a), hash_points(&points_b));
    assert_ne!(hash_scalars(&scalars_a), hash_scalars(&scalars_b));
}

#[test]
fn hash_of_empty_input_is_blake3_of_nothing() {
    let expected: [u8; 32] = [
        0xaf, 0x13, 0x49, 0xb9, 0xf5, 0xf9, 0xa1, 0xa6, 0xa0, 0x40, 0x4d, 0xea, 0x36, 0xdc, 0xc9, 0x49,
        0x9b, 0xcb, 0x25, 0xc9, 0xad, 0xc1, 0x12, 0xb7, 0xcc, 0x9a, 0x93, 0xca, 0xe4, 0x1f, 0x32, 0x62,
    ];
    assert_eq!(hash(&[]), expected);
    assert_eq!(hash_scalars(&[]), hash(&[0; 8]));
}

fn generate_directory(seed: u64) -> (Vec<u8>, Vec<u8>) {
    let mut r = rng(seed);
    let mut ps: Vec<u8> = Vec::new();
    let mut ss: Vec<u8> = Vec::new();
    for _ in 0..3 {
        let (points, scalars) = generate_msm_inputs(16, &mut r);
        let (p, s) = encode_instance(&points, &scalars);
        ps.extend_from_slice(&p);
        ss.extend_from_slice(&s);
    }
    (ps, ss)
}

fn hash_directory(ps: &[u8], ss: &[u8]) -> [u8; 32] {
    let (points, scalars) = decode_instances(ps, ss);
    assert_eq!(points.len(), 3);
    hash_instances(&points, &scalars).unwrap()
}

#[test]
fn regenerating_a_directory_changes_its_hash() {
    let (ps, ss) = generate_directory(60);
    let first = hash_directory(&ps, &ss);
    let second = hash_directory(&ps, &ss);
    assert_eq!(first, second);
    let (ps2, ss2) = generate_directory(61);
    assert_ne!(hash_directory(&ps2, &ss2), first);
}

#[test]
fn hash_instances_rejects_mismatched_counts() {
    let (points, scalars) = generate_msm_inputs(2, &mut rng(62));
    assert_eq!(hash_instances(&[points.clone(), points], &[scalars]), Err(Error::InvalidInput));
}

#[test]
fn any_scalar_record_reencodes_to_its_bytes() {
    let mut bytes = vec![2, 0, 0, 0, 0, 0, 0, 0];
    bytes.extend((0..64u32).map(|i| (i * 37 + 11) as u8));
    bytes.extend_from_slice(&[9, 9, 9]);
    let (s, end) = decode_scalars(&bytes, 0).unwrap();
    assert_eq!(s.len(), 2);
    assert_eq!(end, 8 + 64);
    assert_eq!(encode_scalars(&s), bytes[..end].to_vec());
    assert_eq!(s[0].limbs[0], u64::from_le_bytes([11, 48, 85, 122, 159, 196, 233, 14]));
}

#[test]
fn non_canonical_point_bytes_are_refused() {
    let pb = encode_points(&[identity_point()]);
    assert_eq!(decode_points(&pb, 0).unwrap().0, vec![identity_point()]);
    // The infinity flag with stray bits in x decodes in arkworks, but is not
    // the canonical encoding of the identity.
    let mut bad = pb.clone();
    bad[8 + 47] = 1;
    assert!(decode_points(&bad, 0).is_none());
}

#[test]
fn streams_with_unequal_counts_give_the_common_records() {
    let mut r = rng(80);
    let mut ps: Vec<u8> = Vec::new();
    let mut ss: Vec<u8> = Vec::new();
    let mut written = Vec::new();
    for j in 0..3 {
        let (points, scalars) = generate_msm_inputs(2, &mut r);
        let (p, s) = encode_instance(&points, &scalars);
        ps.extend_from_slice(&p);
        if j < 2 {
            ss.extend_from_slice(&s);
        }
        written.push((points, scalars));
    }
    let (points, scalars) = decode_instances(&ps, &ss);
    assert_eq!(points.len(), 2);
    assert_eq!(scalars.len(), 2);
    assert_eq!(points[1], written[1].0);
    assert_eq!(scalars[1], written[1].1);
}
