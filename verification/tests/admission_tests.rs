//! The admission gate and the multi-layer compositor.

use edge_worker::admission::{
    CompositorConfig, CompositorError, EdgeCompositor, PerformanceStats, PlacementLayer,
    VideoFrame, MIN_OPACITY_BITS,
};
use edge_worker::binary32::Binary32;
use edge_worker::blend::{combine, BlendMode};

fn b(x: f32) -> Binary32 {
    Binary32::from_bits(x.to_bits())
}

fn matrix(values: [f32; 9]) -> [Binary32; 9] {
    [
        b(values[0]),
        b(values[1]),
        b(values[2]),
        b(values[3]),
        b(values[4]),
        b(values[5]),
        b(values[6]),
        b(values[7]),
        b(values[8]),
    ]
}

const IDENTITY: [f32; 9] = [1.0, 0.0, 0.0, 0.0, 1.0, 0.0, 0.0, 0.0, 1.0];

fn config(max_memory_mb: u32, quality_threshold: f32, uncertainty_threshold: f32) -> CompositorConfig {
    CompositorConfig {
        max_memory_mb,
        quality_threshold: b(quality_threshold),
        uncertainty_threshold: b(uncertainty_threshold),
    }
}

fn layer(creative_data: Vec<u8>, transform: [f32; 9], opacity: f32, blend_mode: BlendMode) -> PlacementLayer {
    PlacementLayer { creative_data, transform: matrix(transform), opacity: b(opacity), blend_mode }
}

/// The mix of a source into a base as single-precision hardware computes it.
fn hardware_mix(base: u8, source: u8, opacity: f32) -> u8 {
    ((base as f32 * (1.0 - opacity)) + (source as f32 * opacity)) as u8
}

/// The transform uncertainty as single-precision hardware computes it.
fn hardware_transform_uncertainty(transform: &[f32; 9], base_uncertainty: f32) -> f32 {
    let scale_x = transform[0];
    let scale_y = transform[4];
    let translation_uncertainty = (transform[2].abs() + transform[5].abs()) * base_uncertainty;
    let scale_uncertainty = ((scale_x - 1.0).abs() + (scale_y - 1.0).abs()) * base_uncertainty;
    translation_uncertainty + scale_uncertainty
}

#[test]
fn test_edge_compositor_creation() {
    let compositor = EdgeCompositor::new(config(256, 0.8, 0.7));
    assert_eq!(compositor.get_performance_stats().frames_processed, 0);
    assert_eq!(compositor.get_performance_stats().uncertainty_rejections, 0);
}

#[test]
fn test_composite_segment_basic() {
    let mut compositor = EdgeCompositor::new(config(256, 0.8, 0.7));

    // Create test frame
    let base_frame = VideoFrame { width: 640, height: 480, data: vec![128u8; 640 * 480 * 4] };

    // Create test layer
    let layer = layer(vec![255u8; 1000], IDENTITY, 0.8, BlendMode::Normal);

    // Test compositing with low uncertainty
    let result = compositor.composite_segment(&base_frame, &[layer], b(0.3));
    assert!(result.is_ok());

    let stats = compositor.get_performance_stats();
    assert_eq!(stats.frames_processed, 1);
    assert_eq!(stats.uncertainty_rejections, 0);
}

#[test]
fn test_uncertainty_gating() {
    let mut compositor = EdgeCompositor::new(config(256, 0.8, 0.5));

    let base_frame = VideoFrame { width: 320, height: 240, data: vec![100u8; 320 * 240 * 4] };

    let layer = layer(vec![200u8; 500], IDENTITY, 0.9, BlendMode::Normal);

    // Test with high uncertainty (should be rejected)
    let result = compositor.composite_segment(&base_frame, &[layer.clone()], b(0.8));
    assert_eq!(result.err(), Some(CompositorError::UncertaintyThresholdExceeded));

    let stats = compositor.get_performance_stats();
    assert_eq!(stats.uncertainty_rejections, 1);

    // Test with low uncertainty (should succeed)
    let result = compositor.composite_segment(&base_frame, &[layer], b(0.3));
    assert!(result.is_ok());
}

#[test]
fn test_memory_constraint_handling() {
    let mut compositor = EdgeCompositor::new(config(1, 0.8, 0.7));

    // Create large frame that exceeds memory limit
    let base_frame = VideoFrame { width: 1920, height: 1080, data: vec![150u8; 1920 * 1080 * 4] };

    let layer = layer(vec![180u8; 2000], IDENTITY, 0.7, BlendMode::Normal);

    let result = compositor.composite_segment(&base_frame, &[layer], b(0.2));
    assert_eq!(result.err(), Some(CompositorError::MemoryExceeded));
}

#[test]
fn test_invalid_input_handling() {
    let mut compositor = EdgeCompositor::new(config(256, 0.8, 0.7));

    // Test with empty frame data
    let empty_frame = VideoFrame { width: 640, height: 480, data: vec![] };

    let layer = layer(vec![200u8; 1000], IDENTITY, 0.8, BlendMode::Normal);

    let result = compositor.composite_segment(&empty_frame, &[layer], b(0.3));
    assert_eq!(result.err(), Some(CompositorError::InvalidInput));
}

#[test]
fn test_multiple_blend_modes() {
    let mut compositor = EdgeCompositor::new(config(256, 0.8, 0.7));

    let base_frame = VideoFrame { width: 400, height: 300, data: vec![120u8; 400 * 300 * 4] };

    let layers = vec![
        layer(vec![255u8; 800], IDENTITY, 0.6, BlendMode::Normal),
        layer(
            vec![128u8; 600],
            [0.8, 0.0, 10.0, 0.0, 0.8, 15.0, 0.0, 0.0, 1.0],
            0.7,
            BlendMode::Multiply,
        ),
        layer(
            vec![200u8; 400],
            [1.2, 0.0, -5.0, 0.0, 1.2, -8.0, 0.0, 0.0, 1.0],
            0.5,
            BlendMode::Screen,
        ),
    ];

    let result = compositor.composite_segment(&base_frame, &layers, b(0.4));
    assert!(result.is_ok());

    let stats = compositor.get_performance_stats();
    assert_eq!(stats.frames_processed, 1);
}

#[test]
fn test_performance_statistics() {
    let mut compositor = EdgeCompositor::new(config(512, 0.8, 0.7));

    let base_frame = VideoFrame { width: 800, height: 600, data: vec![100u8; 800 * 600 * 4] };

    let layer = layer(vec![180u8; 1200], IDENTITY, 0.8, BlendMode::Normal);

    // Process multiple frames
    for _ in 0..5 {
        let _ = compositor.composite_segment(&base_frame, &[layer.clone()], b(0.3));
    }

    // Test high uncertainty rejection
    let _ = compositor.composite_segment(&base_frame, &[layer], b(0.9));

    let stats = compositor.get_performance_stats();
    assert_eq!(stats.frames_processed, 5);
    assert_eq!(stats.uncertainty_rejections, 1);
    assert!(stats.memory_usage_mb > 0);
}

#[test]
fn test_quality_based_layer_filtering() {
    let compositor = EdgeCompositor::new(config(256, 0.5, 0.8));

    // Test layer with very low opacity (should be filtered out)
    let low_opacity_layer = layer(vec![255u8; 500], IDENTITY, 0.05, BlendMode::Normal);

    let should_composite = compositor.should_composite_layer(&low_opacity_layer, b(0.3));
    assert!(!should_composite);

    // Test layer with good opacity
    let good_layer = layer(vec![255u8; 500], IDENTITY, 0.8, BlendMode::Normal);

    let should_composite = compositor.should_composite_layer(&good_layer, b(0.3));
    assert!(should_composite);
}

#[test]
fn test_transform_uncertainty_calculation() {
    let compositor = EdgeCompositor::new(config(256, 0.8, 0.7));
    let tenth = b(0.1);

    // Identity transform (no uncertainty)
    let uncertainty = compositor.calculate_transform_uncertainty(&matrix(IDENTITY), b(0.5));
    assert!(uncertainty.lt(tenth));

    // Transform with scaling and translation (higher uncertainty)
    let complex_transform = [2.0, 0.0, 100.0, 0.0, 1.5, 50.0, 0.0, 0.0, 1.0];
    let uncertainty = compositor.calculate_transform_uncertainty(&matrix(complex_transform), b(0.5));
    assert!(uncertainty.gt(tenth));
}

#[test]
fn test_wasm_memory_management() {
    let mut compositor = EdgeCompositor::new(config(128, 0.8, 0.7));

    // Test processing many frames without memory leaks
    let base_frame = VideoFrame { width: 320, height: 240, data: vec![50u8; 320 * 240 * 4] };

    let layer = layer(vec![100u8; 500], IDENTITY, 0.7, BlendMode::Normal);

    // Process many frames
    for i in 0..20 {
        let result = compositor.composite_segment(&base_frame, &[layer.clone()], b(0.2));
        assert!(result.is_ok(), "Frame {} failed to process", i);
    }

    let stats = compositor.get_performance_stats();
    assert_eq!(stats.frames_processed, 20);
    assert!(stats.memory_usage_mb < 128); // Should stay within limits
}

#[test]
fn transform_uncertainty_matches_hardware() {
    let compositor = EdgeCompositor::new(config(256, 0.8, 0.7));
    let transforms: Vec<[f32; 9]> = vec![
        IDENTITY,
        [2.0, 0.0, 100.0, 0.0, 1.5, 50.0, 0.0, 0.0, 1.0],
        [0.8, 0.0, 10.0, 0.0, 0.8, 15.0, 0.0, 0.0, 1.0],
        [1.2, 0.0, -5.0, 0.0, 1.2, -8.0, 0.0, 0.0, 1.0],
        [1.0001, 0.3, 0.001, -0.3, 0.9999, -0.002, 0.0, 0.0, 1.0],
        [-3.5, 0.0, 1.0e20, 0.0, 7.25, -1.0e-20, 0.0, 0.0, 1.0],
        [f32::INFINITY, 0.0, 1.0, 0.0, 1.0, 1.0, 0.0, 0.0, 1.0],
        [f32::NAN, 0.0, 1.0, 0.0, 1.0, 1.0, 0.0, 0.0, 1.0],
        [1.0, 0.0, f32::MAX, 0.0, 1.0, f32::MAX, 0.0, 0.0, 1.0],
    ];
    let uncertainties: Vec<f32> = vec![0.0, 0.2, 0.3, 0.5, 0.9, 1.0, 3.0, -0.5, f32::INFINITY, f32::NAN];
    for transform in transforms.iter() {
        for &u in uncertainties.iter() {
            let expected = hardware_transform_uncertainty(transform, u);
            let got = compositor.calculate_transform_uncertainty(&matrix(*transform), b(u));
            if expected.is_nan() {
                assert!(got.is_nan(), "{:?} under {:?}", transform, u);
            } else {
                assert_eq!(expected.to_bits(), got.to_bits(), "{:?} under {:?}", transform, u);
            }
        }
    }
}

#[test]
fn identity_transform_has_no_uncertainty() {
    let compositor = EdgeCompositor::new(config(256, 0.8, 0.7));
    let got = compositor.calculate_transform_uncertainty(&matrix(IDENTITY), b(0.5));
    assert_eq!(got.to_bits(), 0.0f32.to_bits());
    // (100 + 50) * 0.5 + (1 + 0.5) * 0.5
    let complex = [2.0, 0.0, 100.0, 0.0, 1.5, 50.0, 0.0, 0.0, 1.0];
    let got = compositor.calculate_transform_uncertainty(&matrix(complex), b(0.5));
    assert_eq!(got.to_bits(), 75.75f32.to_bits());
}

#[test]
fn minimum_opacity_is_a_tenth() {
    assert_eq!(MIN_OPACITY_BITS, 0.1f32.to_bits());
    let compositor = EdgeCompositor::new(config(256, 0.5, 0.8));
    let at_minimum = layer(vec![1u8; 4], IDENTITY, 0.1, BlendMode::Normal);
    assert!(compositor.should_composite_layer(&at_minimum, b(0.3)));
    let just_below = PlacementLayer {
        creative_data: vec![1u8; 4],
        transform: matrix(IDENTITY),
        opacity: Binary32::from_bits(MIN_OPACITY_BITS - 1),
        blend_mode: BlendMode::Normal,
    };
    assert!(!compositor.should_composite_layer(&just_below, b(0.3)));
    let not_a_number = layer(vec![1u8; 4], IDENTITY, f32::NAN, BlendMode::Normal);
    assert!(compositor.should_composite_layer(&not_a_number, b(0.3)));
}

#[test]
fn uncertain_transform_is_not_composited() {
    let compositor = EdgeCompositor::new(config(256, 0.8, 0.7));
    // (10 + 15) * 0.4 + (0.2 + 0.2) * 0.4 is far above 0.8.
    let shifted = layer(
        vec![1u8; 4],
        [0.8, 0.0, 10.0, 0.0, 0.8, 15.0, 0.0, 0.0, 1.0],
        0.7,
        BlendMode::Multiply,
    );
    assert!(!compositor.should_composite_layer(&shifted, b(0.4)));
    // With no frame-level uncertainty the same transform is certain.
    assert!(compositor.should_composite_layer(&shifted, b(0.0)));
    // A transform uncertainty equal to the threshold is not below it.
    let at_threshold = layer(
        vec![1u8; 4],
        [1.0, 0.0, 1.0, 0.0, 1.0, 0.0, 0.0, 0.0, 1.0],
        0.7,
        BlendMode::Normal,
    );
    assert!(!compositor.should_composite_layer(&at_threshold, b(0.8)));
    // A NaN uncertainty is below nothing.
    let plain = layer(vec![1u8; 4], IDENTITY, 0.7, BlendMode::Normal);
    assert!(!compositor.should_composite_layer(&plain, b(f32::NAN)));
}

#[test]
fn normal_blend_mixes_the_alpha_channel_only() {
    let mut compositor = EdgeCompositor::new(config(256, 0.8, 0.7));
    let base_frame = VideoFrame { width: 2, height: 1, data: vec![10u8, 20, 30, 40, 50, 60, 70, 80] };
    let layer = layer(vec![200u8, 201, 202, 203, 204, 205, 206, 207], IDENTITY, 0.8, BlendMode::Normal);
    let result = compositor.composite_segment(&base_frame, &[layer], b(0.3)).unwrap();
    assert_eq!(result.width, 2);
    assert_eq!(result.height, 1);
    let expected: Vec<u8> = vec![
        10,
        20,
        30,
        hardware_mix(40, 203, 0.8),
        50,
        60,
        70,
        hardware_mix(80, 207, 0.8),
    ];
    assert_eq!(result.data, expected);
    assert_eq!(result.data[3], 170);
    assert_eq!(result.data[7], 181);
    // The base frame is left as it was.
    assert_eq!(base_frame.data, vec![10u8, 20, 30, 40, 50, 60, 70, 80]);
}

#[test]
fn normal_blend_matches_hardware_for_many_opacities() {
    let mut compositor = EdgeCompositor::new(config(256, 0.8, 0.7));
    let opacities: Vec<f32> = vec![0.1, 0.25, 0.3, 0.5, 0.6, 0.8, 0.9, 0.999, 1.0, 1.5, 7.0, f32::INFINITY, f32::NAN];
    for &opacity in opacities.iter() {
        let mut base: Vec<u8> = Vec::new();
        let mut creative: Vec<u8> = Vec::new();
        let mut n: u32 = 0;
        while n < 256 {
            base.extend_from_slice(&[0u8, 0, 0, n as u8]);
            creative.extend_from_slice(&[0u8, 0, 0, (n * 37 % 256) as u8]);
            n += 1;
        }
        let base_frame = VideoFrame { width: 16, height: 16, data: base.clone() };
        let layer = layer(creative.clone(), IDENTITY, opacity, BlendMode::Normal);
        let result = compositor.composite_segment(&base_frame, &[layer], b(0.0)).unwrap();
        let mut j: usize = 0;
        while j < base.len() {
            let expected = if j % 4 == 3 { hardware_mix(base[j], creative[j], opacity) } else { base[j] };
            assert_eq!(result.data[j], expected, "byte {} opacity {:?}", j, opacity);
            j += 1;
        }
    }
}

#[test]
fn short_layer_leaves_the_rest_of_the_frame() {
    let mut compositor = EdgeCompositor::new(config(256, 0.8, 0.7));
    let base_frame = VideoFrame { width: 2, height: 1, data: vec![10u8, 20, 30, 40, 50, 60, 70, 80] };
    let layer = layer(vec![255u8, 255, 255, 255, 255], IDENTITY, 1.0, BlendMode::Normal);
    let result = compositor.composite_segment(&base_frame, &[layer], b(0.3)).unwrap();
    assert_eq!(result.data, vec![10u8, 20, 30, 255, 50, 60, 70, 80]);
}

#[test]
fn blend_formulas_have_their_values() {
    assert_eq!(combine(BlendMode::Normal, 10, 200), 200);
    // 100 * 200 / 255 = 78.4
    assert_eq!(combine(BlendMode::Multiply, 100, 200), 78);
    assert_eq!(combine(BlendMode::Multiply, 255, 200), 200);
    assert_eq!(combine(BlendMode::Multiply, 0, 200), 0);
    assert_eq!(combine(BlendMode::Multiply, 255, 255), 255);
    // 255 - 155 * 55 / 255 = 255 - 33.4
    assert_eq!(combine(BlendMode::Screen, 100, 200), 222);
    assert_eq!(combine(BlendMode::Screen, 0, 200), 200);
    assert_eq!(combine(BlendMode::Screen, 255, 3), 255);
    assert_eq!(combine(BlendMode::Screen, 0, 0), 0);
    // Dark base: 2 * 100 * 200 / 255 = 156.9
    assert_eq!(combine(BlendMode::Overlay, 100, 200), 157);
    // Light base: 255 - 2 * 55 * 155 / 255 = 255 - 66.9
    assert_eq!(combine(BlendMode::Overlay, 200, 100), 188);
    assert_eq!(combine(BlendMode::Overlay, 127, 255), 254);
    assert_eq!(combine(BlendMode::Overlay, 128, 0), 1);
    assert_eq!(combine(BlendMode::Overlay, 0, 255), 0);
    assert_eq!(combine(BlendMode::Overlay, 255, 0), 255);
}

#[test]
fn colour_modes_mix_the_colour_channels_only() {
    let modes = [BlendMode::Multiply, BlendMode::Screen, BlendMode::Overlay];
    for &mode in modes.iter() {
        let mut compositor = EdgeCompositor::new(config(256, 0.8, 0.7));
        let base = vec![100u8, 200, 30, 40, 250, 5, 128, 90];
        let creative = vec![200u8, 100, 60, 255, 2, 250, 64, 0];
        let base_frame = VideoFrame { width: 2, height: 1, data: base.clone() };
        let layer = layer(creative.clone(), IDENTITY, 0.5, mode);
        let result = compositor.composite_segment(&base_frame, &[layer], b(0.1)).unwrap();
        let mut j: usize = 0;
        while j < base.len() {
            let expected = if j % 4 == 3 {
                base[j]
            } else {
                hardware_mix(base[j], combine(mode, base[j], creative[j]), 0.5)
            };
            assert_eq!(result.data[j], expected, "byte {} mode {:?}", j, mode);
            j += 1;
        }
    }
}

#[test]
fn multiply_at_full_opacity_is_the_product() {
    let mut compositor = EdgeCompositor::new(config(256, 0.8, 0.7));
    let base_frame = VideoFrame { width: 1, height: 1, data: vec![100u8, 255, 0, 77] };
    let layer = layer(vec![200u8, 200, 200, 200], IDENTITY, 1.0, BlendMode::Multiply);
    let result = compositor.composite_segment(&base_frame, &[layer], b(0.1)).unwrap();
    assert_eq!(result.data, vec![78u8, 200, 0, 77]);
}

#[test]
fn layers_are_applied_in_the_order_given() {
    let mut compositor = EdgeCompositor::new(config(256, 0.8, 0.7));
    let base_frame = VideoFrame { width: 1, height: 1, data: vec![100u8, 100, 100, 100] };
    let first = layer(vec![200u8, 200, 200, 200], IDENTITY, 1.0, BlendMode::Multiply);
    let second = layer(vec![50u8, 50, 50, 50], IDENTITY, 1.0, BlendMode::Screen);
    let forward = compositor
        .composite_segment(&base_frame, &[first.clone(), second.clone()], b(0.1))
        .unwrap();
    let backward = compositor.composite_segment(&base_frame, &[second, first], b(0.1)).unwrap();
    // Multiply gives 78, which Screen with 50 lifts to 255 - 177 * 205 / 255 = 113.
    assert_eq!(forward.data, vec![113u8, 113, 113, 100]);
    // Screen gives 255 - 155 * 205 / 255 = 130, which Multiply with 200 takes to 102.
    assert_eq!(backward.data, vec![102u8, 102, 102, 100]);
}

#[test]
fn rejected_layers_leave_the_frame_unchanged() {
    let mut compositor = EdgeCompositor::new(config(256, 0.8, 0.7));
    let base_frame = VideoFrame { width: 1, height: 1, data: vec![100u8, 100, 100, 100] };
    let faint = layer(vec![200u8, 200, 200, 200], IDENTITY, 0.05, BlendMode::Normal);
    let shifted = layer(
        vec![200u8, 200, 200, 200],
        [1.0, 0.0, 50.0, 0.0, 1.0, 0.0, 0.0, 0.0, 1.0],
        0.9,
        BlendMode::Normal,
    );
    let result = compositor.composite_segment(&base_frame, &[faint, shifted], b(0.5)).unwrap();
    assert_eq!(result, base_frame);
    assert_eq!(compositor.get_performance_stats().frames_processed, 1);
}

#[test]
fn admitted_layer_without_data_fails_the_call() {
    let mut compositor = EdgeCompositor::new(config(256, 0.8, 0.7));
    let base_frame = VideoFrame { width: 1, height: 1, data: vec![100u8, 100, 100, 100] };
    let good = layer(vec![200u8, 200, 200, 200], IDENTITY, 0.9, BlendMode::Normal);
    let empty = layer(vec![], IDENTITY, 0.9, BlendMode::Normal);
    let result = compositor.composite_segment(&base_frame, &[good.clone(), empty, good], b(0.3));
    assert_eq!(result.err(), Some(CompositorError::ProcessingFailed));
    let stats = compositor.get_performance_stats();
    assert_eq!(stats.frames_processed, 0);
    assert_eq!(stats.uncertainty_rejections, 0);
    assert_eq!(stats.memory_usage_mb, 0);
}

#[test]
fn rejected_layer_without_data_is_passed_over() {
    let mut compositor = EdgeCompositor::new(config(256, 0.8, 0.7));
    let base_frame = VideoFrame { width: 1, height: 1, data: vec![100u8, 100, 100, 100] };
    let faint_and_empty = layer(vec![], IDENTITY, 0.05, BlendMode::Normal);
    let result = compositor.composite_segment(&base_frame, &[faint_and_empty], b(0.3));
    assert_eq!(result.ok(), Some(base_frame));
}

#[test]
fn composite_layer_reports_missing_data() {
    let compositor = EdgeCompositor::new(config(256, 0.8, 0.7));
    let mut frame = VideoFrame { width: 1, height: 1, data: vec![1u8, 2, 3, 4] };
    let empty = layer(vec![], IDENTITY, 0.9, BlendMode::Screen);
    assert_eq!(compositor.composite_layer(&mut frame, &empty), Err(CompositorError::ProcessingFailed));
    assert_eq!(frame.data, vec![1u8, 2, 3, 4]);
    let full = layer(vec![255u8, 255, 255, 255], IDENTITY, 1.0, BlendMode::Screen);
    assert_eq!(compositor.composite_layer(&mut frame, &full), Ok(()));
    assert_eq!(frame.data, vec![255u8, 255, 255, 4]);
}

#[test]
fn each_blend_function_applies_its_own_mode() {
    let compositor = EdgeCompositor::new(config(256, 0.8, 0.7));
    // The mode named in the layer is not what these go by.
    let layer = layer(vec![200u8, 200, 200, 200], IDENTITY, 1.0, BlendMode::Normal);
    let start = VideoFrame { width: 1, height: 1, data: vec![100u8, 100, 100, 100] };
    let mut frame = start.clone();
    compositor.blend_normal(&mut frame, &layer);
    assert_eq!(frame.data, vec![100u8, 100, 100, 200]);
    let mut frame = start.clone();
    compositor.blend_multiply(&mut frame, &layer);
    assert_eq!(frame.data, vec![78u8, 78, 78, 100]);
    let mut frame = start.clone();
    compositor.blend_screen(&mut frame, &layer);
    assert_eq!(frame.data, vec![222u8, 222, 222, 100]);
    let mut frame = start.clone();
    compositor.blend_overlay(&mut frame, &layer);
    assert_eq!(frame.data, vec![157u8, 157, 157, 100]);
}

#[test]
fn undersized_frame_is_invalid_input() {
    let mut compositor = EdgeCompositor::new(config(256, 0.8, 0.7));
    let short = VideoFrame { width: 2, height: 2, data: vec![0u8; 15] };
    let result = compositor.composite_segment(&short, &[], b(0.3));
    assert_eq!(result.err(), Some(CompositorError::InvalidInput));
    let exact = VideoFrame { width: 2, height: 2, data: vec![0u8; 16] };
    assert!(compositor.composite_segment(&exact, &[], b(0.3)).is_ok());
    let empty_and_dimensionless = VideoFrame { width: 0, height: 0, data: vec![] };
    let result = compositor.composite_segment(&empty_and_dimensionless, &[], b(0.3));
    assert_eq!(result.err(), Some(CompositorError::InvalidInput));
    assert_eq!(compositor.get_performance_stats().frames_processed, 1);
}

#[test]
fn invalid_input_comes_before_the_uncertainty_ceiling() {
    let mut compositor = EdgeCompositor::new(config(256, 0.8, 0.5));
    let empty_frame = VideoFrame { width: 640, height: 480, data: vec![] };
    let result = compositor.composite_segment(&empty_frame, &[], b(0.9));
    assert_eq!(result.err(), Some(CompositorError::InvalidInput));
    assert_eq!(compositor.get_performance_stats().uncertainty_rejections, 0);
}

#[test]
fn uncertainty_ceiling_comes_before_the_memory_budget() {
    let mut compositor = EdgeCompositor::new(config(1, 0.8, 0.5));
    let base_frame = VideoFrame { width: 1, height: 1, data: vec![0u8; 4] };
    let layer = layer(vec![1u8; 4], IDENTITY, 0.7, BlendMode::Normal);
    let result = compositor.composite_segment(&base_frame, &[layer], b(0.9));
    assert_eq!(result.err(), Some(CompositorError::UncertaintyThresholdExceeded));
    assert_eq!(compositor.get_performance_stats().uncertainty_rejections, 1);
}

#[test]
fn uncertainty_rejection_counts_once_and_processes_nothing() {
    let mut compositor = EdgeCompositor::new(config(256, 0.8, 0.5));
    let base_frame = VideoFrame { width: 1, height: 1, data: vec![0u8; 4] };
    assert!(compositor.composite_segment(&base_frame, &[], b(0.5)).is_ok());
    let before: PerformanceStats = *compositor.get_performance_stats();
    let result = compositor.composite_segment(&base_frame, &[], b(0.50001));
    assert_eq!(result.err(), Some(CompositorError::UncertaintyThresholdExceeded));
    let after: PerformanceStats = *compositor.get_performance_stats();
    assert_eq!(after.uncertainty_rejections, before.uncertainty_rejections + 1);
    assert_eq!(after.frames_processed, before.frames_processed);
    assert_eq!(after.memory_usage_mb, before.memory_usage_mb);
    // An uncertainty that is not a number is above nothing.
    assert!(compositor.composite_segment(&base_frame, &[], b(f32::NAN)).is_ok());
    assert!(compositor.composite_segment(&base_frame, &[], b(f32::NEG_INFINITY)).is_ok());
    let result = compositor.composite_segment(&base_frame, &[], b(f32::INFINITY));
    assert_eq!(result.err(), Some(CompositorError::UncertaintyThresholdExceeded));
}

#[test]
fn memory_rejection_leaves_the_counters() {
    let mut compositor = EdgeCompositor::new(config(3, 0.8, 0.7));
    let base_frame = VideoFrame { width: 1, height: 1, data: vec![0u8; 4] };
    let one = layer(vec![1u8; 4], IDENTITY, 0.7, BlendMode::Normal);
    // One layer is reckoned at 2 MB: within the budget.
    assert!(compositor.composite_segment(&base_frame, &[one.clone()], b(0.2)).is_ok());
    let before: PerformanceStats = *compositor.get_performance_stats();
    assert_eq!(before.frames_processed, 1);
    assert_eq!(before.memory_usage_mb, 2);
    // Two layers are reckoned at 4 MB: above it.
    let result = compositor.composite_segment(&base_frame, &[one.clone(), one], b(0.2));
    assert_eq!(result.err(), Some(CompositorError::MemoryExceeded));
    assert_eq!(*compositor.get_performance_stats(), before);
}

#[test]
fn memory_estimate_counts_whole_megabytes_and_layers() {
    let compositor = EdgeCompositor::new(config(256, 0.8, 0.7));
    let one = layer(vec![1u8; 4], IDENTITY, 0.7, BlendMode::Normal);
    let layers = vec![one.clone(), one.clone(), one];
    let small = VideoFrame { width: 511, height: 512, data: vec![] };
    assert_eq!(compositor.estimate_memory_usage(&small, &layers), 6);
    let megabyte = VideoFrame { width: 512, height: 512, data: vec![] };
    assert_eq!(compositor.estimate_memory_usage(&megabyte, &layers), 7);
    let hd = VideoFrame { width: 1920, height: 1080, data: vec![] };
    assert_eq!(compositor.estimate_memory_usage(&hd, &[]), 7);
    // 2^32 * 2^32 * 4 bytes would wrap in 32 or 64 bits; the estimate does not.
    let huge = VideoFrame { width: u32::MAX, height: u32::MAX, data: vec![] };
    assert_eq!(
        compositor.estimate_memory_usage(&huge, &[]),
        (u32::MAX as u128) * (u32::MAX as u128) * 4 / 1048576
    );
}

#[test]
fn memory_at_the_budget_is_accepted() {
    let mut compositor = EdgeCompositor::new(config(2, 0.8, 0.7));
    let base_frame = VideoFrame { width: 1, height: 1, data: vec![0u8; 4] };
    let one = layer(vec![1u8; 4], IDENTITY, 0.7, BlendMode::Normal);
    assert!(compositor.composite_segment(&base_frame, &[one], b(0.2)).is_ok());
    assert_eq!(compositor.get_performance_stats().memory_usage_mb, 2);
}

#[test]
fn reset_zeroes_the_counters() {
    let mut compositor = EdgeCompositor::new(config(256, 0.8, 0.5));
    let base_frame = VideoFrame { width: 1, height: 1, data: vec![0u8; 4] };
    let one = layer(vec![1u8; 4], IDENTITY, 0.7, BlendMode::Normal);
    let _ = compositor.composite_segment(&base_frame, &[one.clone()], b(0.2));
    let _ = compositor.composite_segment(&base_frame, &[one], b(0.9));
    assert_eq!(
        *compositor.get_performance_stats(),
        PerformanceStats { frames_processed: 1, memory_usage_mb: 2, uncertainty_rejections: 1 }
    );
    compositor.reset_stats();
    assert_eq!(*compositor.get_performance_stats(), PerformanceStats::default());
    assert_eq!(
        PerformanceStats::default(),
        PerformanceStats { frames_processed: 0, memory_usage_mb: 0, uncertainty_rejections: 0 }
    );
}
