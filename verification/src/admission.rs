//! The layer admission gate and the multi-layer compositor.
//!
//! A call is refused as a whole when the base frame is unusable, when the
//! frame-level uncertainty is above the configured ceiling, or when the
//! estimated memory cost is above the configured budget. Otherwise each layer
//! is admitted or passed over on its own, and the admitted layers are blended
//! onto the frame in the order given. An admitted layer without creative data
//! fails the whole call: no frame comes back and the statistics stay as they
//! were.

use vstd::prelude::*;
use vstd::arithmetic::power2::*;
use vstd::slice::slice_to_vec;
use crate::arith::{difference, product, sum, whole};
use crate::binary32::{
    Binary32, Value, HIDDEN_BIT, absolute, decode, less_than, magnitude_of, unit,
};
use crate::blend::{BlendMode, blend_onto, blended};
use crate::frame::{frame_bytes, pixels_of, validate_frame_size};
use crate::rounding::{
    round_half_even, round_to_binary32, lemma_binade_unique, lemma_round_half_even_scale,
};

verus! {

/// The pattern of the least opacity worth compositing: 0.1, rounded to binary32.
pub const MIN_OPACITY_BITS: u32 = 0x3dcc_cccd;

/// Bytes in a megabyte.
pub const MEGABYTE: u64 = 0x10_0000;

/// Megabytes reckoned for each layer of a call.
pub const LAYER_MEMORY_MB: u64 = 2;

/// A frame of interleaved 8-bit RGBA pixels in row-major order.
#[derive(Clone, Debug, PartialEq, Eq)]
pub struct VideoFrame {
    pub width: u32,
    pub height: u32,
    pub data: Vec<u8>,
}

/// A candidate piece of creative content.
#[derive(Clone, Debug)]
pub struct PlacementLayer {
    /// The layer's RGBA bytes.
    pub creative_data: Vec<u8>,
    /// A 3x3 affine transform into frame space, row by row.
    pub transform: [Binary32; 9],
    /// How opaque the layer is, from 0 to 1.
    pub opacity: Binary32,
    pub blend_mode: BlendMode,
}

/// The limits a compositor works within.
#[derive(Clone, Copy, Debug)]
pub struct CompositorConfig {
    /// The memory budget of one call, in megabytes.
    pub max_memory_mb: u32,
    /// A layer is admitted only with a transform uncertainty below this.
    pub quality_threshold: Binary32,
    /// A call is refused when the frame-level uncertainty is above this.
    pub uncertainty_threshold: Binary32,
}

/// Running counters of a compositor.
#[derive(Clone, Copy, Debug, PartialEq, Eq)]
pub struct PerformanceStats {
    /// Calls that returned a frame.
    pub frames_processed: u32,
    /// The memory estimate of the last call that returned a frame.
    pub memory_usage_mb: u32,
    /// Calls refused for their frame-level uncertainty.
    pub uncertainty_rejections: u32,
}

/// Why a call returned no frame.
#[derive(Clone, Copy, Debug, PartialEq, Eq)]
pub enum CompositorError {
    /// The base frame's buffer is empty or shorter than its dimensions need.
    InvalidInput,
    /// The estimated memory cost is above the budget.
    MemoryExceeded,
    /// The frame-level uncertainty is above the ceiling.
    UncertaintyThresholdExceeded,
    /// An admitted layer has no creative data.
    ProcessingFailed,
}

/// A compositor: its limits and its counters.
pub struct EdgeCompositor {
    config: CompositorConfig,
    performance_stats: PerformanceStats,
}

impl VideoFrame {
    /// Whether the buffer holds whole pixels only and covers the frame's
    /// dimensions.
    pub open spec fn well_formed(&self) -> bool {
        &&& self.data@.len() % 4 == 0
        &&& self.data@.len() >= frame_bytes(self.width, self.height)
    }
}

/// The least opacity worth compositing.
pub open spec fn minimum_opacity() -> Value {
    decode(MIN_OPACITY_BITS)
}

/// Counters that are all zero.
pub open spec fn zero_stats() -> PerformanceStats {
    PerformanceStats { frames_processed: 0, memory_usage_mb: 0, uncertainty_rejections: 0 }
}

/// How uncertain a layer's placement is: the size of its translation, plus how
/// far its two scale terms are from one, each weighted by the frame-level
/// uncertainty. Every operation is rounded to binary32.
pub open spec fn transform_uncertainty(transform: Seq<Binary32>, uncertainty: Value) -> Value {
    let translation = product(
        sum(absolute(transform[2]@), absolute(transform[5]@)),
        uncertainty,
    );
    let scale = product(
        sum(
            absolute(difference(transform[0]@, whole(1))),
            absolute(difference(transform[4]@, whole(1))),
        ),
        uncertainty,
    );
    sum(translation, scale)
}

/// Whether a layer is admitted: its opacity is not below the minimum, and its
/// transform uncertainty is below the quality threshold.
pub open spec fn admits(config: CompositorConfig, layer: PlacementLayer, uncertainty: Value) -> bool {
    &&& !less_than(layer.opacity@, minimum_opacity())
    &&& less_than(
        transform_uncertainty(layer.transform@, uncertainty),
        config.quality_threshold@,
    )
}

/// The memory estimate of a call in megabytes: the frame's bytes in whole
/// megabytes, and two megabytes for each layer.
pub open spec fn estimated_memory_mb(width: u32, height: u32, layer_count: nat) -> nat {
    frame_bytes(width, height) / (MEGABYTE as nat) + LAYER_MEMORY_MB as nat * layer_count
}

/// Whether a frame's buffer is neither empty nor shorter than its dimensions need.
pub open spec fn usable(frame: VideoFrame) -> bool {
    &&& frame.data@.len() > 0
    &&& frame.data@.len() >= frame_bytes(frame.width, frame.height)
}

/// The frame buffer after the first `count` layers were dealt with, each
/// admitted one blended onto what the layers before it left; `None` when an
/// admitted layer among them has no creative data.
pub open spec fn layered(
    data: Seq<u8>,
    layers: Seq<PlacementLayer>,
    config: CompositorConfig,
    uncertainty: Value,
    count: nat,
) -> Option<Seq<u8>>
    decreases count,
{
    if count == 0 {
        Some(data)
    } else {
        let layer = layers[count - 1];
        match layered(data, layers, config, uncertainty, (count - 1) as nat) {
            None => None,
            Some(beneath) => if !admits(config, layer, uncertainty) {
                Some(beneath)
            } else if layer.creative_data@.len() == 0 {
                None
            } else {
                Some(blended(beneath, layer.creative_data@, layer.opacity@, layer.blend_mode))
            },
        }
    }
}

/// What a call comes to: the bytes of the output frame, or the reason for none.
pub open spec fn segment_outcome(
    config: CompositorConfig,
    frame: VideoFrame,
    layers: Seq<PlacementLayer>,
    uncertainty: Value,
) -> Result<Seq<u8>, CompositorError> {
    if !usable(frame) {
        Err(CompositorError::InvalidInput)
    } else if less_than(config.uncertainty_threshold@, uncertainty) {
        Err(CompositorError::UncertaintyThresholdExceeded)
    } else if estimated_memory_mb(frame.width, frame.height, layers.len())
        > config.max_memory_mb {
        Err(CompositorError::MemoryExceeded)
    } else {
        match layered(frame.data@, layers, config, uncertainty, layers.len()) {
            Some(data) => Ok(data),
            None => Err(CompositorError::ProcessingFailed),
        }
    }
}

/// How the counters move with the outcome of a call: a returned frame counts
/// as processed and records the memory estimate, a refusal for uncertainty
/// counts as a rejection, and any other refusal changes nothing.
pub open spec fn stats_follow(
    before: PerformanceStats,
    after: PerformanceStats,
    outcome: Result<Seq<u8>, CompositorError>,
    estimate: nat,
) -> bool {
    match outcome {
        Ok(_) => {
            &&& after.frames_processed == before.frames_processed + 1
            &&& after.memory_usage_mb == estimate
            &&& after.uncertainty_rejections == before.uncertainty_rejections
        },
        Err(CompositorError::UncertaintyThresholdExceeded) => {
            &&& after.frames_processed == before.frames_processed
            &&& after.memory_usage_mb == before.memory_usage_mb
            &&& after.uncertainty_rejections == before.uncertainty_rejections + 1
        },
        Err(_) => after == before,
    }
}

/// The minimum opacity is one tenth, rounded to binary32.
pub proof fn lemma_minimum_opacity_is_a_tenth()
    ensures
        minimum_opacity() == (Value::Finite {
            negative: false,
            magnitude: round_to_binary32(unit(), 10),
        }),
{
    lemma2_to64();
    let p = pow2(122);
    lemma_pow2_pos(122);
    lemma_pow2_adds(27, 122);
    lemma_pow2_adds(24, 122);
    lemma_pow2_adds(23, 122);
    assert(10 * pow2(145) <= pow2(149) < 10 * pow2(146));
    lemma_binade_unique(unit(), 10, 122);
    lemma_round_half_even_scale(pow2(27), 10, p);
    assert(round_half_even(pow2(27), 10) == 0xcc_cccd);
    assert(MIN_OPACITY_BITS as nat / (HIDDEN_BIT as nat) == 123);
    assert(MIN_OPACITY_BITS as nat % (HIDDEN_BIT as nat) == 0x4c_cccd);
    assert(magnitude_of(MIN_OPACITY_BITS as nat) == 0xcc_cccd * p);
}

/// Once a layer has failed, the layers after it do not mend the call.
pub proof fn lemma_failure_is_final(
    data: Seq<u8>,
    layers: Seq<PlacementLayer>,
    config: CompositorConfig,
    uncertainty: Value,
    failed: nat,
    count: nat,
)
    requires
        failed <= count,
        layered(data, layers, config, uncertainty, failed) is None,
    ensures
        layered(data, layers, config, uncertainty, count) is None,
    decreases count,
{
    if failed < count {
        lemma_failure_is_final(data, layers, config, uncertainty, failed, (count - 1) as nat);
    }
}

/// Blending keeps the length of the frame buffer, layer after layer.
proof fn lemma_layered_length(
    data: Seq<u8>,
    layers: Seq<PlacementLayer>,
    config: CompositorConfig,
    uncertainty: Value,
    count: nat,
)
    ensures
        layered(data, layers, config, uncertainty, count) matches Some(out) ==> out.len()
            == data.len(),
    decreases count,
{
    if count > 0 {
        lemma_layered_length(data, layers, config, uncertainty, (count - 1) as nat);
    }
}

/// The frame that a call returns has as many bytes as the base frame, and so
/// is well formed where the base frame is.
pub proof fn lemma_output_keeps_size(
    config: CompositorConfig,
    frame: VideoFrame,
    layers: Seq<PlacementLayer>,
    uncertainty: Value,
)
    ensures
        segment_outcome(config, frame, layers, uncertainty) matches Ok(data) ==> data.len()
            == frame.data@.len(),
{
    lemma_layered_length(frame.data@, layers, config, uncertainty, layers.len());
}

/// A call on a usable frame with the frame-level uncertainty above the ceiling
/// is refused for uncertainty; it counts as one more rejection and as no
/// processed frame.
pub proof fn lemma_uncertainty_rejection(
    config: CompositorConfig,
    frame: VideoFrame,
    layers: Seq<PlacementLayer>,
    uncertainty: Value,
    before: PerformanceStats,
    after: PerformanceStats,
)
    requires
        usable(frame),
        less_than(config.uncertainty_threshold@, uncertainty),
        stats_follow(
            before,
            after,
            segment_outcome(config, frame, layers, uncertainty),
            estimated_memory_mb(frame.width, frame.height, layers.len()),
        ),
    ensures
        segment_outcome(config, frame, layers, uncertainty) == Err::<Seq<u8>, CompositorError>(
            CompositorError::UncertaintyThresholdExceeded,
        ),
        after.uncertainty_rejections == before.uncertainty_rejections + 1,
        after.frames_processed == before.frames_processed,
{
}

/// A call on a usable frame, with the uncertainty within its ceiling and the
/// memory estimate above the budget, is refused for memory and leaves the
/// counters as they were.
pub proof fn lemma_memory_rejection(
    config: CompositorConfig,
    frame: VideoFrame,
    layers: Seq<PlacementLayer>,
    uncertainty: Value,
    before: PerformanceStats,
    after: PerformanceStats,
)
    requires
        usable(frame),
        !less_than(config.uncertainty_threshold@, uncertainty),
        estimated_memory_mb(frame.width, frame.height, layers.len()) > config.max_memory_mb,
        stats_follow(
            before,
            after,
            segment_outcome(config, frame, layers, uncertainty),
            estimated_memory_mb(frame.width, frame.height, layers.len()),
        ),
    ensures
        segment_outcome(config, frame, layers, uncertainty) == Err::<Seq<u8>, CompositorError>(
            CompositorError::MemoryExceeded,
        ),
        after.frames_processed == before.frames_processed,
        after == before,
{
}

impl Default for PerformanceStats {
    fn default() -> (stats: Self)
        ensures
            stats == zero_stats(),
    {
        PerformanceStats { frames_processed: 0, memory_usage_mb: 0, uncertainty_rejections: 0 }
    }
}

impl EdgeCompositor {
    /// The limits this compositor works within.
    pub closed spec fn config(&self) -> CompositorConfig {
        self.config
    }

    /// The counters of this compositor.
    pub closed spec fn stats(&self) -> PerformanceStats {
        self.performance_stats
    }

    /// A compositor with the given limits and all counters at zero.
    pub fn new(config: CompositorConfig) -> (compositor: Self)
        ensures
            compositor.config() == config,
            compositor.stats() == zero_stats(),
    {
        EdgeCompositor { config, performance_stats: PerformanceStats::default() }
    }

    /// The counters.
    pub fn get_performance_stats(&self) -> (stats: &PerformanceStats)
        ensures
            *stats == self.stats(),
    {
        &self.performance_stats
    }

    /// Sets every counter back to zero.
    pub fn reset_stats(&mut self)
        ensures
            final(self).stats() == zero_stats(),
            final(self).config() == old(self).config(),
    {
        self.performance_stats = PerformanceStats::default();
    }

    /// The memory estimate of a call, in megabytes.
    pub fn estimate_memory_usage(&self, base_frame: &VideoFrame, layers: &[PlacementLayer]) -> (mb:
        u128)
        ensures
            mb == estimated_memory_mb(base_frame.width, base_frame.height, layers@.len()),
    {
        let frame_mb: u128 = (pixels_of(base_frame.width, base_frame.height) as u128) * 4 / (
        MEGABYTE as u128);
        let layers_mb: u128 = (LAYER_MEMORY_MB as u128) * (layers.len() as u128);
        frame_mb + layers_mb
    }

    /// How uncertain a transform's placement is under a frame-level uncertainty.
    pub fn calculate_transform_uncertainty(
        &self,
        transform: &[Binary32; 9],
        base_uncertainty: Binary32,
    ) -> (total: Binary32)
        ensures
            total@ == transform_uncertainty(transform@, base_uncertainty@),
    {
        let one = Binary32::one();
        let scale_x = transform[0];
        let scale_y = transform[4];
        let translation_uncertainty = transform[2].abs().add(transform[5].abs()).mul(
            base_uncertainty,
        );
        let scale_uncertainty = scale_x.sub(one).abs().add(scale_y.sub(one).abs()).mul(
            base_uncertainty,
        );
        translation_uncertainty.add(scale_uncertainty)
    }

    /// Whether a layer is admitted under a frame-level uncertainty.
    pub fn should_composite_layer(&self, layer: &PlacementLayer, uncertainty: Binary32) -> (admitted: bool)
        ensures
            admitted == admits(self.config(), *layer, uncertainty@),
    {
        if layer.opacity.lt(Binary32::from_bits(MIN_OPACITY_BITS)) {
            return false;
        }
        let transform_uncertainty = self.calculate_transform_uncertainty(
            &layer.transform,
            uncertainty,
        );
        transform_uncertainty.lt(self.config.quality_threshold)
    }

    /// Blends a layer onto a frame by the layer's blend mode. A layer without
    /// creative data is an error and leaves the frame as it is.
    pub fn composite_layer(&self, base_frame: &mut VideoFrame, layer: &PlacementLayer) -> (result:
        Result<(), CompositorError>)
        ensures
            final(base_frame).width == old(base_frame).width,
            final(base_frame).height == old(base_frame).height,
            layer.creative_data@.len() == 0 ==> result == Err::<(), CompositorError>(
                CompositorError::ProcessingFailed,
            ) && final(base_frame).data@ == old(base_frame).data@,
            layer.creative_data@.len() > 0 ==> result is Ok && final(base_frame).data@ == blended(
                old(base_frame).data@,
                layer.creative_data@,
                layer.opacity@,
                layer.blend_mode,
            ),
    {
        if layer.creative_data.is_empty() {
            return Err(CompositorError::ProcessingFailed);
        }
        match layer.blend_mode {
            BlendMode::Normal => self.blend_normal(base_frame, layer),
            BlendMode::Multiply => self.blend_multiply(base_frame, layer),
            BlendMode::Screen => self.blend_screen(base_frame, layer),
            BlendMode::Overlay => self.blend_overlay(base_frame, layer),
        }
        Ok(())
    }

    /// Mixes the layer's alpha channel into the frame's by the layer's opacity.
    pub fn blend_normal(&self, base_frame: &mut VideoFrame, layer: &PlacementLayer)
        ensures
            final(base_frame).width == old(base_frame).width,
            final(base_frame).height == old(base_frame).height,
            final(base_frame).data@ == blended(
                old(base_frame).data@,
                layer.creative_data@,
                layer.opacity@,
                BlendMode::Normal,
            ),
    {
        blend_onto(
            &mut base_frame.data,
            layer.creative_data.as_slice(),
            layer.opacity,
            BlendMode::Normal,
        );
    }

    /// Multiplies the layer's colour channels into the frame's, by the layer's opacity.
    pub fn blend_multiply(&self, base_frame: &mut VideoFrame, layer: &PlacementLayer)
        ensures
            final(base_frame).width == old(base_frame).width,
            final(base_frame).height == old(base_frame).height,
            final(base_frame).data@ == blended(
                old(base_frame).data@,
                layer.creative_data@,
                layer.opacity@,
                BlendMode::Multiply,
            ),
    {
        blend_onto(
            &mut base_frame.data,
            layer.creative_data.as_slice(),
            layer.opacity,
            BlendMode::Multiply,
        );
    }

    /// Screens the layer's colour channels onto the frame's, by the layer's opacity.
    pub fn blend_screen(&self, base_frame: &mut VideoFrame, layer: &PlacementLayer)
        ensures
            final(base_frame).width == old(base_frame).width,
            final(base_frame).height == old(base_frame).height,
            final(base_frame).data@ == blended(
                old(base_frame).data@,
                layer.creative_data@,
                layer.opacity@,
                BlendMode::Screen,
            ),
    {
        blend_onto(
            &mut base_frame.data,
            layer.creative_data.as_slice(),
            layer.opacity,
            BlendMode::Screen,
        );
    }

    /// Overlays the layer's colour channels on the frame's, by the layer's opacity.
    pub fn blend_overlay(&self, base_frame: &mut VideoFrame, layer: &PlacementLayer)
        ensures
            final(base_frame).width == old(base_frame).width,
            final(base_frame).height == old(base_frame).height,
            final(base_frame).data@ == blended(
                old(base_frame).data@,
                layer.creative_data@,
                layer.opacity@,
                BlendMode::Overlay,
            ),
    {
        blend_onto(
            &mut base_frame.data,
            layer.creative_data.as_slice(),
            layer.opacity,
            BlendMode::Overlay,
        );
    }

    /// Composites the admitted layers onto a copy of the base frame, in the
    /// order given.
    ///
    /// The call is refused with `InvalidInput` for an unusable base frame,
    /// else with `UncertaintyThresholdExceeded` for an uncertainty above the
    /// ceiling, else with `MemoryExceeded` for a memory estimate above the
    /// budget, else with `ProcessingFailed` when an admitted layer has no
    /// creative data. A counter that would move must not be at its maximum.
    pub fn composite_segment(
        &mut self,
        base_frame: &VideoFrame,
        layers: &[PlacementLayer],
        uncertainty_score: Binary32,
    ) -> (result: Result<VideoFrame, CompositorError>)
        requires
            segment_outcome(old(self).config(), *base_frame, layers@, uncertainty_score@) is Ok
                ==> old(self).stats().frames_processed < u32::MAX,
            segment_outcome(old(self).config(), *base_frame, layers@, uncertainty_score@) == Err::<
                Seq<u8>,
                CompositorError,
            >(CompositorError::UncertaintyThresholdExceeded) ==> old(
                self,
            ).stats().uncertainty_rejections < u32::MAX,
        ensures
            final(self).config() == old(self).config(),
            stats_follow(
                old(self).stats(),
                final(self).stats(),
                segment_outcome(old(self).config(), *base_frame, layers@, uncertainty_score@),
                estimated_memory_mb(base_frame.width, base_frame.height, layers@.len()),
            ),
            match segment_outcome(old(self).config(), *base_frame, layers@, uncertainty_score@) {
                Ok(data) => {
                    &&& result matches Ok(frame)
                    &&& frame.width == base_frame.width
                    &&& frame.height == base_frame.height
                    &&& frame.data@ == data
                    &&& base_frame.well_formed() ==> frame.well_formed()
                },
                Err(reason) => result matches Err(given) && given == reason,
            },
    {
        if base_frame.data.is_empty() || !validate_frame_size(
            base_frame.data.len(),
            base_frame.width,
            base_frame.height,
        ) {
            return Err(CompositorError::InvalidInput);
        }
        if uncertainty_score.gt(self.config.uncertainty_threshold) {
            self.performance_stats.uncertainty_rejections =
                self.performance_stats.uncertainty_rejections + 1;
            return Err(CompositorError::UncertaintyThresholdExceeded);
        }
        let estimated_memory = self.estimate_memory_usage(base_frame, layers);
        if estimated_memory > self.config.max_memory_mb as u128 {
            return Err(CompositorError::MemoryExceeded);
        }
        let mut output_frame = VideoFrame {
            width: base_frame.width,
            height: base_frame.height,
            data: slice_to_vec(base_frame.data.as_slice()),
        };
        let ghost start = *self;
        let mut i: usize = 0;
        while i < layers.len()
            invariant
                i <= layers@.len(),
                *self == start,
                start.config == old(self).config,
                start.performance_stats == old(self).performance_stats,
                usable(*base_frame),
                !less_than(self.config.uncertainty_threshold@, uncertainty_score@),
                estimated_memory == estimated_memory_mb(
                    base_frame.width,
                    base_frame.height,
                    layers@.len(),
                ),
                estimated_memory <= self.config.max_memory_mb,
                output_frame.width == base_frame.width,
                output_frame.height == base_frame.height,
                layered(base_frame.data@, layers@, self.config, uncertainty_score@, i as nat)
                    == Some(output_frame.data@),
            decreases layers@.len() - i,
        {
            if self.should_composite_layer(&layers[i], uncertainty_score) {
                match self.composite_layer(&mut output_frame, &layers[i]) {
                    Err(reason) => {
                        proof {
                            lemma_failure_is_final(
                                base_frame.data@,
                                layers@,
                                self.config,
                                uncertainty_score@,
                                (i + 1) as nat,
                                layers@.len(),
                            );
                        }
                        return Err(reason);
                    },
                    Ok(()) => {},
                }
            }
            i = i + 1;
        }
        proof {
            lemma_layered_length(
                base_frame.data@,
                layers@,
                self.config,
                uncertainty_score@,
                layers@.len(),
            );
        }
        self.performance_stats.frames_processed = self.performance_stats.frames_processed + 1;
        self.performance_stats.memory_usage_mb = estimated_memory as u32;
        Ok(output_frame)
    }
}

} // verus!
