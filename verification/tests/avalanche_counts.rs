use hashlab::avalanche::{
    avalanche_coefficient, bits_set, flip_bit, generate_data_points_for_function,
    generic_size_xor, DATABYTES, DATAPOINTS,
};
use hashlab::sha1::sha1;
use hashlab::usha::usha0::usha0;

#[test]
fn bits_set_counts_one_bits() {
    assert_eq!(bits_set(&[]), 0);
    assert_eq!(bits_set(&[0x00]), 0);
    assert_eq!(bits_set(&[0xff]), 8);
    assert_eq!(bits_set(&[0x80, 0x01, 0x55, 0xaa, 0x0f]), 14);
    assert_eq!(bits_set(&[0xff; 32]), 256);
}

#[test]
fn generic_size_xor_of_equal_lengths() {
    assert_eq!(generic_size_xor(&[0x0f, 0xf0, 0xaa], &[0xff, 0xff, 0xaa]), vec![0xf0, 0x0f, 0x00]);
    assert_eq!(generic_size_xor(&[], &[]), Vec::<u8>::new());
}

#[test]
fn generic_size_xor_is_as_long_as_its_first_argument() {
    assert_eq!(generic_size_xor(&[0x0f, 0xf0, 0xaa], &[0xff]), vec![0xf0, 0x00, 0x00]);
    assert_eq!(generic_size_xor(&[0x0f], &[0xff, 0x12, 0x34]), vec![0xf0]);
    assert_eq!(generic_size_xor(&[1, 2], &[]), vec![0, 0]);
}

#[test]
fn flip_bit_changes_one_bit() {
    assert_eq!(flip_bit(&[0, 0, 0], 1, 0), vec![0, 1, 0]);
    assert_eq!(flip_bit(&[0, 0, 0], 2, 7), vec![0, 0, 0x80]);
    assert_eq!(flip_bit(&[0xff], 0, 3), vec![0xf7]);
    let message = [0x12u8, 0x34, 0x56];
    assert_eq!(bits_set(&generic_size_xor(&message, &flip_bit(&message, 0, 5))), 1);
}

#[test]
fn avalanche_coefficient_of_sha1() {
    let message: Vec<u8> = (0..=255u8).collect();
    let c = avalanche_coefficient(&sha1, 160, &message, 0, 0);
    assert_eq!((c.set_bits, c.output_bits), (90, 160));
    assert_eq!(avalanche_coefficient(&sha1, 160, &message, 255, 7).set_bits, 83);
    assert_eq!(avalanche_coefficient(&sha1, 160, &message, 17, 3).set_bits, 87);
}

#[test]
fn avalanche_coefficient_of_usha0() {
    let message: Vec<u8> = (0..=255u8).collect();
    let c = avalanche_coefficient(&usha0, 256, &message, 0, 0);
    assert_eq!((c.set_bits, c.output_bits), (88, 256));
    assert_eq!(avalanche_coefficient(&usha0, 256, &message, 255, 7).set_bits, 107);
    assert_eq!(avalanche_coefficient(&usha0, 256, &message, 17, 3).set_bits, 112);
}

#[test]
fn data_points_come_in_the_requested_number() {
    assert_eq!(generate_data_points_for_function(sha1, 160, 0, DATABYTES).len(), 0);
    assert_eq!(generate_data_points_for_function(sha1, 160, DATAPOINTS, DATABYTES).len(), 100);
    assert_eq!(generate_data_points_for_function(usha0, 256, 7, 16).len(), 7);
}

#[test]
fn data_points_are_fractions_of_the_output_width() {
    for c in generate_data_points_for_function(sha1, 160, 50, DATABYTES) {
        assert_eq!(c.output_bits, 160);
        assert!(c.set_bits <= 160);
    }
    for c in generate_data_points_for_function(usha0, 256, 50, DATABYTES) {
        assert_eq!(c.output_bits, 256);
        assert!(c.set_bits <= 256);
    }
}

#[test]
fn data_points_of_one_byte_messages_flip_a_bit_of_that_byte() {
    // The identity stands in for a digest: the coefficient then counts the
    // flipped bits themselves.
    let identity = |m: &[u8]| m.to_vec();
    for c in generate_data_points_for_function(identity, 8, 200, 1) {
        assert_eq!(c.set_bits, 1);
    }
}

#[test]
fn data_points_reach_every_byte_and_bit() {
    let identity = |m: &[u8]| m.to_vec();
    let first_byte_only = |m: &[u8]| vec![m[0]];
    let mut in_first_byte = 0;
    for c in generate_data_points_for_function(first_byte_only, 8, 400, 2) {
        in_first_byte += c.set_bits;
    }
    assert!(0 < in_first_byte && in_first_byte < 400);
    assert_eq!(generate_data_points_for_function(identity, 32, 10, 4).len(), 10);
}

#[test]
fn data_points_differ_from_sample_to_sample() {
    let points = generate_data_points_for_function(sha1, 160, 100, DATABYTES);
    let first = points[0].set_bits;
    assert!(points.iter().any(|c| c.set_bits != first));
}

#[test]
fn avalanche_mean_of_sha1_is_about_one_half() {
    let points = generate_data_points_for_function(sha1, 160, 10_000, 256);
    let sum: f64 = points.iter().map(|c| c.set_bits as f64 / c.output_bits as f64).sum();
    let mean = sum / points.len() as f64;
    assert!(0.48 <= mean && mean <= 0.52);
}
