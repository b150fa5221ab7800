use image_classifier::error::PipelineError;
use image_classifier::grid::{RgbGrid, MAX_RESAMPLE_DIMENSION};
use image_classifier::ranking::{
    is_nan_bits, order_key_of, rank_output, sort_results, top_results, ClassTable,
    InferenceResult, CLASS_COUNT, RESULT_COUNT,
};
use image_classifier::tensor::{
    grid_to_tensor, image_to_tensor, model_grid_tensor, model_input_tensor, normalize_interleaved, planar_from_interleaved,
    SampleTable, MODEL_INPUT_BYTES, SAMPLE_TABLE_LEN,
};

const MEANS: [f32; 3] = [0.485, 0.456, 0.406];
const STDS: [f32; 3] = [0.229, 0.224, 0.225];

fn normalization_table() -> SampleTable {
    let mut bytes = Vec::new();
    for c in 0..3 {
        for v in 0..256u32 {
            let x = (v as f32 / 255. - MEANS[c]) / STDS[c];
            bytes.extend_from_slice(&x.to_ne_bytes());
        }
    }
    SampleTable::from_encodings(bytes).unwrap()
}

fn floats_of(bytes: &[u8]) -> Vec<f32> {
    bytes
        .chunks(4)
        .map(|c| f32::from_ne_bytes([c[0], c[1], c[2], c[3]]))
        .collect()
}

fn bytes_of(values: &[f32]) -> Vec<u8> {
    values.iter().flat_map(|v| v.to_ne_bytes()).collect()
}

fn png_of(width: u32, height: u32, samples: Vec<u8>) -> Vec<u8> {
    let img = image::RgbImage::from_raw(width, height, samples).unwrap();
    let mut out = std::io::Cursor::new(Vec::new());
    img.write_to(&mut out, image::ImageOutputFormat::Png).unwrap();
    out.into_inner()
}

fn bits(values: &[f32]) -> Vec<u32> {
    values.iter().map(|v| v.to_bits()).collect()
}

fn labels() -> ClassTable {
    ClassTable::new((0..CLASS_COUNT).map(|i| format!("class {}", i)).collect()).unwrap()
}

#[test]
fn planar_transpose_two_pixels() {
    let (r0, g0, b0, r1, g1, b1) = (1.5f32, -2.25f32, 3.0f32, 0.125f32, 7.0f32, -0.5f32);
    let interleaved = bytes_of(&[r0, g0, b0, r1, g1, b1]);
    let planar = planar_from_interleaved(&interleaved);
    assert_eq!(planar, bytes_of(&[r0, r1, g0, g1, b0, b1]));
}

#[test]
fn planar_transpose_moves_whole_elements() {
    let interleaved: Vec<u8> = (0u8..24).collect();
    let planar = planar_from_interleaved(&interleaved);
    let expected: Vec<u8> = vec![
        0, 1, 2, 3, 12, 13, 14, 15, 4, 5, 6, 7, 16, 17, 18, 19, 8, 9, 10, 11, 20, 21, 22, 23,
    ];
    assert_eq!(planar, expected);
}

#[test]
fn normalization_extremes_of_each_channel() {
    let table = normalization_table();
    let out = floats_of(&normalize_interleaved(&vec![0, 0, 0, 255, 255, 255], &table));
    assert_eq!(out.len(), 6);
    assert!((out[0] - (-2.1179)).abs() < 1e-3);
    assert!((out[3] - 2.2489).abs() < 1e-3);
    assert!((out[1] - (-2.0357)).abs() < 1e-3);
    assert!((out[4] - 2.4286).abs() < 1e-3);
    assert!((out[2] - (-1.8044)).abs() < 1e-3);
    assert!((out[5] - 2.64).abs() < 1e-3);
}

#[test]
fn normalization_uses_channel_of_position() {
    let table = normalization_table();
    let out = floats_of(&normalize_interleaved(&vec![128, 128, 128], &table));
    let expected: Vec<f32> =
        (0..3).map(|c| (128f32 / 255. - MEANS[c]) / STDS[c]).collect();
    assert_eq!(out, expected);
    assert_ne!(out[0], out[1]);
}

#[test]
fn sample_table_needs_every_entry() {
    assert!(SampleTable::from_encodings(vec![0; SAMPLE_TABLE_LEN - 1]).is_none());
    assert!(SampleTable::from_encodings(vec![0; SAMPLE_TABLE_LEN]).is_some());
}

#[test]
fn grid_needs_three_samples_per_pixel() {
    assert!(RgbGrid::from_samples(2, 2, vec![0; 12]).is_some());
    assert!(RgbGrid::from_samples(2, 2, vec![0; 11]).is_none());
    assert!(RgbGrid::from_samples(0, 5, vec![]).is_some());
}

#[test]
fn tensor_of_same_size_image_keeps_pixels() {
    let table = normalization_table();
    // Two pixels: (10, 20, 30) and (200, 100, 0).
    let png = png_of(2, 1, vec![10, 20, 30, 200, 100, 0]);
    let tensor = floats_of(&image_to_tensor(&png, 1, 2, &table).unwrap());
    let norm = |c: usize, v: u8| (v as f32 / 255. - MEANS[c]) / STDS[c];
    assert_eq!(
        tensor,
        vec![norm(0, 10), norm(0, 200), norm(1, 20), norm(1, 100), norm(2, 30), norm(2, 0)]
    );
}

#[test]
fn tensor_of_upscaled_solid_image() {
    let table = normalization_table();
    let png = png_of(1, 1, vec![255, 0, 128]);
    let tensor = floats_of(&image_to_tensor(&png, 3, 4, &table).unwrap());
    assert_eq!(tensor.len(), 3 * 3 * 4);
    let norm = |c: usize, v: u8| (v as f32 / 255. - MEANS[c]) / STDS[c];
    for i in 0..12 {
        assert_eq!(tensor[i], norm(0, 255));
        assert_eq!(tensor[12 + i], norm(1, 0));
        assert_eq!(tensor[24 + i], norm(2, 128));
    }
}

#[test]
fn model_tensor_has_fixed_length() {
    let table = normalization_table();
    for (w, h) in [(1u32, 1u32), (500, 375), (3, 7)] {
        let samples: Vec<u8> = (0..w * h * 3).map(|i| (i % 251) as u8).collect();
        let png = png_of(w, h, samples);
        let tensor = model_input_tensor(&png, &table).unwrap();
        assert_eq!(tensor.len(), 3 * 224 * 224 * 4);
        assert_eq!(tensor.len(), MODEL_INPUT_BYTES);
    }
}

#[test]
fn model_tensor_is_deterministic() {
    let table = normalization_table();
    let samples: Vec<u8> = (0..50 * 40 * 3).map(|i| (i * 7 % 256) as u8).collect();
    let png = png_of(50, 40, samples);
    let first = model_input_tensor(&png, &table).unwrap();
    let second = model_input_tensor(&png.clone(), &table).unwrap();
    assert_eq!(first, second);
}

#[test]
fn undecodable_bytes_are_rejected() {
    let table = normalization_table();
    assert_eq!(
        model_input_tensor(&vec![1, 2, 3, 4, 5], &table),
        Err(PipelineError::Decode)
    );
    assert_eq!(model_input_tensor(&vec![], &table), Err(PipelineError::Decode));
}

#[test]
fn order_key_follows_float_order() {
    assert_eq!(order_key_of(0.0f32.to_bits()), order_key_of((-0.0f32).to_bits()));
    assert!(order_key_of((-1.0f32).to_bits()) < order_key_of((-0.5f32).to_bits()));
    assert!(order_key_of((-0.5f32).to_bits()) < order_key_of(0.25f32.to_bits()));
    assert!(order_key_of(0.25f32.to_bits()) < order_key_of(0.5f32.to_bits()));
    assert_eq!(order_key_of(1.0f32.to_bits()), 0x3f80_0000);
}

#[test]
fn nan_patterns_are_recognised() {
    assert!(is_nan_bits(f32::NAN.to_bits()));
    assert!(is_nan_bits((-f32::NAN).to_bits()));
    assert!(!is_nan_bits(f32::INFINITY.to_bits()));
    assert!(!is_nan_bits(0.9f32.to_bits()));
}

#[test]
fn ranking_keeps_class_order_on_ties() {
    let mut probs = vec![0.001f32; 1000];
    probs[3] = 0.5;
    probs[7] = 0.5;
    let ranked = sort_results(&bits(&probs));
    assert_eq!(ranked.len(), 1000);
    assert_eq!(ranked[0], InferenceResult { class_index: 3, probability: 0.5f32.to_bits() });
    assert_eq!(ranked[1], InferenceResult { class_index: 7, probability: 0.5f32.to_bits() });
    let rest: Vec<usize> = ranked[2..].iter().map(|r| r.class_index).collect();
    let expected: Vec<usize> = (0..1000).filter(|i| *i != 3 && *i != 7).collect();
    assert_eq!(rest, expected);
}

#[test]
fn top_five_of_known_vector() {
    let mut probs = vec![0.1f32, 0.9, 0.05, 0.8, 0.02];
    probs.extend(std::iter::repeat(0.0001f32).take(995));
    let top = top_results(&bits(&probs), 5);
    let got: Vec<(usize, f32)> =
        top.iter().map(|r| (r.class_index, f32::from_bits(r.probability))).collect();
    assert_eq!(got, vec![(1, 0.9), (3, 0.8), (0, 0.1), (2, 0.05), (4, 0.02)]);
}

#[test]
fn top_results_of_short_vector() {
    let top = top_results(&bits(&[0.2, 0.7]), 5);
    let got: Vec<usize> = top.iter().map(|r| r.class_index).collect();
    assert_eq!(got, vec![1, 0]);
    assert!(top_results(&[], 5).is_empty());
    assert!(top_results(&bits(&[0.2, 0.7]), 0).is_empty());
}

#[test]
fn ranking_orders_negative_values() {
    let ranked = sort_results(&bits(&[-1.0, 0.0, -0.0, 2.0, -3.5]));
    let got: Vec<usize> = ranked.iter().map(|r| r.class_index).collect();
    assert_eq!(got, vec![3, 1, 2, 0, 4]);
}

#[test]
fn ranked_output_carries_ranks_and_labels() {
    let mut probs = vec![0.0001f32; 1000];
    probs[42] = 0.6;
    probs[999] = 0.3;
    probs[0] = 0.05;
    probs[500] = 0.02;
    probs[7] = 0.01;
    let entries = rank_output(&bits(&probs), &labels()).unwrap();
    assert_eq!(entries.len(), RESULT_COUNT);
    let got: Vec<(usize, usize, String)> =
        entries.iter().map(|e| (e.rank, e.result.class_index, e.label.clone())).collect();
    assert_eq!(
        got,
        vec![
            (1, 42, "class 42".to_string()),
            (2, 999, "class 999".to_string()),
            (3, 0, "class 0".to_string()),
            (4, 500, "class 500".to_string()),
            (5, 7, "class 7".to_string()),
        ]
    );
    assert_eq!(entries[0].result.probability, 0.6f32.to_bits());
}

#[test]
fn ranked_output_rejects_wrong_length() {
    let err = rank_output(&bits(&vec![0.1f32; 999]), &labels()).unwrap_err();
    assert_eq!(err, PipelineError::OutputLength);
    let err = rank_output(&bits(&vec![0.1f32; 1001]), &labels()).unwrap_err();
    assert_eq!(err, PipelineError::OutputLength);
}

#[test]
fn ranked_output_rejects_nan() {
    let mut probs = vec![0.1f32; 1000];
    probs[10] = f32::NAN;
    let err = rank_output(&bits(&probs), &labels()).unwrap_err();
    assert_eq!(err, PipelineError::InvalidProbability);
}

#[test]
fn class_table_needs_one_label_per_class() {
    assert!(ClassTable::new(vec!["a".to_string(); 999]).is_none());
    assert!(ClassTable::new(vec!["a".to_string(); 1000]).is_some());
}

#[test]
fn top_results_are_prefix_of_ranking() {
    let probs: Vec<f32> = (0..1000).map(|i| ((i * 37) % 101) as f32 / 100.0).collect();
    let all = sort_results(&bits(&probs));
    let top = top_results(&bits(&probs), RESULT_COUNT);
    assert_eq!(top.as_slice(), &all[..RESULT_COUNT]);
    assert_eq!(top[0].probability, 1.0f32.to_bits());
    assert!(top[0].class_index < top[1].class_index);
}

#[test]
fn ranking_is_reproducible() {
    let probs: Vec<f32> = (0..1000).map(|i| ((i * 13) % 7) as f32 / 10.0).collect();
    assert_eq!(sort_results(&bits(&probs)), sort_results(&bits(&probs)));
}

#[test]
fn grid_tensor_keeps_pixels_at_same_size() {
    let table = normalization_table();
    let grid = RgbGrid::from_samples(2, 1, vec![10, 20, 30, 200, 100, 0]).unwrap();
    let tensor = floats_of(&grid_to_tensor(&grid, 1, 2, &table).unwrap());
    let norm = |c: usize, v: u8| (v as f32 / 255. - MEANS[c]) / STDS[c];
    assert_eq!(
        tensor,
        vec![norm(0, 10), norm(0, 200), norm(1, 20), norm(1, 100), norm(2, 30), norm(2, 0)]
    );
}

#[test]
fn model_grid_tensor_has_fixed_length() {
    let table = normalization_table();
    for (w, h) in [(1u32, 1u32), (500, 375), (224, 224), (1000, 2)] {
        let samples: Vec<u8> = (0..w * h * 3).map(|i| (i % 253) as u8).collect();
        let grid = RgbGrid::from_samples(w, h, samples).unwrap();
        let tensor = model_grid_tensor(&grid, &table).unwrap();
        assert_eq!(tensor.len(), MODEL_INPUT_BYTES);
    }
}

#[test]
fn empty_grid_is_refused() {
    let table = normalization_table();
    let grid = RgbGrid::from_samples(0, 4, vec![]).unwrap();
    assert_eq!(model_grid_tensor(&grid, &table), Err(PipelineError::Decode));
}

#[test]
fn oversized_grid_is_refused() {
    let table = normalization_table();
    let width = MAX_RESAMPLE_DIMENSION + 1;
    let grid = RgbGrid::from_samples(width, 1, vec![0; width as usize * 3]).unwrap();
    assert_eq!(model_grid_tensor(&grid, &table), Err(PipelineError::TooLarge));
    assert_eq!(grid_to_tensor(&grid, 2, 2, &table), Err(PipelineError::TooLarge));
}
