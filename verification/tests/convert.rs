use linear_srgb::encode::encode_sample;
use linear_srgb::{alloc_f32, alloc_u8, linear_float32_to_srgb};

fn patterns(values: &[f32]) -> Vec<u32> {
    values.iter().map(|v| v.to_bits()).collect()
}

#[test]
fn end_to_end_scenario() {
    let input = patterns(&[0.0, 0.0031308, 0.5, 1.0]);
    let mut output = [0u8; 4];
    linear_float32_to_srgb(&input, 4, &mut output);
    assert_eq!(output, [0, 10, 188, 255]);
}

#[test]
fn empty_run_writes_nothing() {
    let input = patterns(&[0.25, 0.5, 1.0]);
    let mut output = [0xaau8; 3];
    linear_float32_to_srgb(&input, 0, &mut output);
    assert_eq!(output, [0xaa, 0xaa, 0xaa]);
}

#[test]
fn empty_buffers_are_accepted() {
    let input: [u32; 0] = [];
    let mut output: [u8; 0] = [];
    linear_float32_to_srgb(&input, 0, &mut output);
    assert_eq!(output.len(), 0);
}

#[test]
fn only_the_first_len_bytes_are_written() {
    let input = patterns(&[1.0, 0.5, 0.0, 1.0]);
    let mut output = [0x11u8; 6];
    linear_float32_to_srgb(&input, 3, &mut output);
    assert_eq!(output, [255, 188, 0, 0x11, 0x11, 0x11]);
}

#[test]
fn each_byte_comes_from_its_own_sample() {
    let values: Vec<f32> = (0..=1000).map(|i| i as f32 / 1000.0).collect();
    let input = patterns(&values);
    let mut output = vec![0u8; input.len()];
    linear_float32_to_srgb(&input, input.len(), &mut output);
    for i in 0..input.len() {
        assert_eq!(output[i], encode_sample(input[i]), "index {}", i);
    }
    assert_eq!(output[0], 0);
    assert_eq!(output[500], 188);
    assert_eq!(output[1000], 255);
}

#[test]
fn order_of_samples_does_not_matter() {
    let forward = patterns(&[0.1, 0.2, 0.9, -1.0, 2.0]);
    let backward: Vec<u32> = forward.iter().rev().copied().collect();
    let mut first = [0u8; 5];
    let mut second = [0u8; 5];
    linear_float32_to_srgb(&forward, 5, &mut first);
    linear_float32_to_srgb(&backward, 5, &mut second);
    second.reverse();
    assert_eq!(first, second);
    assert_eq!(first, [89, 124, 243, 0, 255]);
}

#[test]
fn converting_twice_gives_the_same_bytes() {
    let input = patterns(&[0.01, 0.3, 0.6, 0.99]);
    let mut first = [0u8; 4];
    let mut second = [0xffu8; 4];
    linear_float32_to_srgb(&input, 4, &mut first);
    linear_float32_to_srgb(&input, 4, &mut second);
    assert_eq!(first, second);
}

#[test]
fn out_of_range_samples_clamp_in_a_run() {
    let input = patterns(&[-1.0, 2.0, f32::NEG_INFINITY, f32::INFINITY, f32::NAN]);
    let mut output = [7u8; 5];
    linear_float32_to_srgb(&input, 5, &mut output);
    assert_eq!(output, [0, 255, 0, 255, 0]);
}

#[test]
fn converts_between_allocated_blocks() {
    let mut input = alloc_f32(4);
    let mut output = alloc_u8(4);
    let values: [f32; 4] = [0.0, 0.0031308, 0.5, 1.0];
    for i in 0..4 {
        input[i] = values[i].to_bits();
    }
    linear_float32_to_srgb(&input, 4, &mut output);
    assert_eq!(output, vec![0, 10, 188, 255]);
}

#[test]
fn input_is_left_as_it_was() {
    let input = patterns(&[0.4, 0.8]);
    let copy = input.clone();
    let mut output = [0u8; 2];
    linear_float32_to_srgb(&input, 2, &mut output);
    assert_eq!(input, copy);
}
