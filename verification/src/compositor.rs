//! The pixel compositor: a per-pixel depth test and alpha blend of one layer
//! of creative content onto a base frame.
//!
//! A pixel of the creative frame replaces or tints the base pixel only where
//! the creative content lies strictly in front of the scene and its mask is
//! not zero. The blend is carried out in binary32 arithmetic, so the output
//! is bit for bit what single-precision hardware computes.

use vstd::prelude::*;
use vstd::arithmetic::power2::*;
use vstd::arithmetic::div_mod::*;
use vstd::slice::slice_to_vec;
use crate::arith::{
    byte_fraction, difference, product, sum, to_byte, whole, lemma_whole_encodable,
};
use crate::binary32::{Binary32, Value, less_than, overflow_threshold, unit};
use crate::frame::{frame_bytes, pixel_count, pixels_of};
use crate::rounding::{round_to_binary32, lemma_round_scale, lemma_round_zero};

verus! {

/// One channel of the blend `creative * alpha + base * (1 - alpha)`, each
/// operation rounded to binary32 and the result converted to a byte.
pub open spec fn blend(base: u8, creative: u8, alpha: Value) -> u8 {
    to_byte(
        sum(
            product(whole(creative as nat), alpha),
            product(whole(base as nat), difference(whole(1), alpha)),
        ),
    )
}

/// Whether creative content at `creative_depth` covers the scene at a pixel:
/// it must be strictly nearer than the scene, and its alpha above zero. A NaN
/// depth on either side never covers.
pub open spec fn occludes(creative_depth: Value, scene_depth: Value, alpha: Value) -> bool {
    less_than(creative_depth, scene_depth) && less_than(whole(0), alpha)
}

/// Byte `j` of the composited frame, for `j` within the frame's pixels.
pub open spec fn composited_byte(
    base: Seq<u8>,
    creative: Seq<u8>,
    depth_map: Seq<Binary32>,
    alpha_mask: Seq<u8>,
    creative_depth: Binary32,
    j: int,
) -> u8 {
    let pixel = j / 4;
    let alpha = byte_fraction(alpha_mask[pixel]);
    if occludes(creative_depth@, depth_map[pixel]@, alpha) {
        blend(base[j], creative[j], alpha)
    } else {
        base[j]
    }
}

/// The composited frame: as long as the base buffer, its first `pixels`
/// pixels composited and every byte after them zero.
pub open spec fn composited(
    base: Seq<u8>,
    creative: Seq<u8>,
    depth_map: Seq<Binary32>,
    alpha_mask: Seq<u8>,
    pixels: nat,
    creative_depth: Binary32,
) -> Seq<u8> {
    Seq::new(
        base.len(),
        |j: int|
            if j < 4 * pixels {
                composited_byte(base, creative, depth_map, alpha_mask, creative_depth, j)
            } else {
                0u8
            },
    )
}

/// Whether the four buffers are long enough for a `width` x `height` frame.
pub open spec fn buffers_cover(
    base_len: nat,
    creative_len: nat,
    depth_len: nat,
    alpha_len: nat,
    width: u32,
    height: u32,
) -> bool {
    &&& base_len >= frame_bytes(width, height)
    &&& creative_len >= frame_bytes(width, height)
    &&& depth_len >= pixel_count(width, height)
    &&& alpha_len >= pixel_count(width, height)
}

/// What `composite_segment` returns: the composited frame where the buffers
/// cover the frame, and the base buffer as it is where they do not.
pub open spec fn composite_output(
    base: Seq<u8>,
    creative: Seq<u8>,
    depth_map: Seq<Binary32>,
    alpha_mask: Seq<u8>,
    width: u32,
    height: u32,
    creative_depth: Binary32,
) -> Seq<u8> {
    if buffers_cover(base.len(), creative.len(), depth_map.len(), alpha_mask.len(), width, height) {
        composited(
            base,
            creative,
            depth_map,
            alpha_mask,
            pixel_count(width, height),
            creative_depth,
        )
    } else {
        base
    }
}

/// One channel of the blend, computed on bit patterns. `inverse` is `1 - alpha`.
pub fn blend_channel(base: u8, creative: u8, alpha: Binary32, inverse: Binary32) -> (out: u8)
    requires
        inverse@ == difference(whole(1), alpha@),
    ensures
        out == blend(base, creative, alpha@),
{
    let from_creative = Binary32::from_u8(creative).mul(alpha);
    let from_base = Binary32::from_u8(base).mul(inverse);
    from_creative.add(from_base).to_u8()
}

/// Composites `creative_frame` onto `base_frame` pixel by pixel.
///
/// The buffers must cover the frame; `composite_segment` checks that first.
pub fn composite_with_depth(
    base_frame: &[u8],
    creative_frame: &[u8],
    depth_map: &[Binary32],
    alpha_mask: &[u8],
    width: u32,
    height: u32,
    creative_depth: Binary32,
) -> (result: Vec<u8>)
    requires
        buffers_cover(
            base_frame@.len(),
            creative_frame@.len(),
            depth_map@.len(),
            alpha_mask@.len(),
            width,
            height,
        ),
    ensures
        result@ == composited(
            base_frame@,
            creative_frame@,
            depth_map@,
            alpha_mask@,
            pixel_count(width, height),
            creative_depth,
        ),
{
    let base_len = base_frame.len();
    let count = pixels_of(width, height);
    assert(4 * count <= base_len);
    let pixels: usize = count as usize;
    let mut result: Vec<u8> = Vec::with_capacity(base_len);
    let mut i: usize = 0;
    while i < pixels
        invariant
            i <= pixels,
            pixels == pixel_count(width, height),
            base_len == base_frame@.len(),
            4 * pixels <= base_frame@.len(),
            4 * pixels <= creative_frame@.len(),
            pixels <= depth_map@.len(),
            pixels <= alpha_mask@.len(),
            result@.len() == 4 * i,
            forall|j: int|
                0 <= j < 4 * i ==> result@[j] == composited_byte(
                    base_frame@,
                    creative_frame@,
                    depth_map@,
                    alpha_mask@,
                    creative_depth,
                    j,
                ),
        decreases pixels - i,
    {
        let at: usize = 4 * i;
        let alpha = Binary32::from_byte_fraction(alpha_mask[i]);
        let in_front = creative_depth.lt(depth_map[i]) && alpha.gt(Binary32::zero(false));
        assert(0 * unit() == 0);
        assert(in_front == occludes(creative_depth@, depth_map@[i as int]@, alpha@));
        if in_front {
            let inverse = Binary32::one().sub(alpha);
            result.push(blend_channel(base_frame[at], creative_frame[at], alpha, inverse));
            result.push(blend_channel(base_frame[at + 1], creative_frame[at + 1], alpha, inverse));
            result.push(blend_channel(base_frame[at + 2], creative_frame[at + 2], alpha, inverse));
            result.push(blend_channel(base_frame[at + 3], creative_frame[at + 3], alpha, inverse));
        } else {
            result.push(base_frame[at]);
            result.push(base_frame[at + 1]);
            result.push(base_frame[at + 2]);
            result.push(base_frame[at + 3]);
        }
        assert forall|j: int| 0 <= j < 4 * (i + 1) implies result@[j] == composited_byte(
            base_frame@,
            creative_frame@,
            depth_map@,
            alpha_mask@,
            creative_depth,
            j,
        ) by {
            if j >= 4 * i {
                assert(j / 4 == i);
            }
        }
        i = i + 1;
    }
    while result.len() < base_frame.len()
        invariant
            4 * pixels <= result@.len() <= base_frame@.len(),
            pixels == pixel_count(width, height),
            forall|j: int|
                0 <= j < 4 * pixels ==> result@[j] == composited_byte(
                    base_frame@,
                    creative_frame@,
                    depth_map@,
                    alpha_mask@,
                    creative_depth,
                    j,
                ),
            forall|j: int| 4 * pixels <= j < result@.len() ==> result@[j] == 0,
        decreases base_frame@.len() - result@.len(),
    {
        result.push(0);
    }
    assert(result@ =~= composited(
        base_frame@,
        creative_frame@,
        depth_map@,
        alpha_mask@,
        pixel_count(width, height),
        creative_depth,
    ));
    result
}

/// Whether four buffers of the given lengths are long enough for a
/// `width` x `height` frame.
pub fn buffers_suffice(
    base_len: usize,
    creative_len: usize,
    depth_len: usize,
    alpha_len: usize,
    width: u32,
    height: u32,
) -> (ok: bool)
    ensures
        ok == buffers_cover(
            base_len as nat,
            creative_len as nat,
            depth_len as nat,
            alpha_len as nat,
            width,
            height,
        ),
{
    let pixels: u128 = pixels_of(width, height) as u128;
    (base_len as u128) >= pixels * 4 && (creative_len as u128) >= pixels * 4 && (depth_len as u128)
        >= pixels && (alpha_len as u128) >= pixels
}

/// Composites one layer of creative content onto a base frame, each given as
/// a raw buffer.
///
/// Where a buffer is too short for a `width` x `height` frame, the base buffer
/// comes back unchanged.
pub fn composite_segment(
    base_frame: &[u8],
    creative_frame: &[u8],
    depth_map: &[Binary32],
    alpha_mask: &[u8],
    width: u32,
    height: u32,
    creative_depth: Binary32,
) -> (result: Vec<u8>)
    ensures
        result@ == composite_output(
            base_frame@,
            creative_frame@,
            depth_map@,
            alpha_mask@,
            width,
            height,
            creative_depth,
        ),
{
    if !buffers_suffice(
        base_frame.len(),
        creative_frame.len(),
        depth_map.len(),
        alpha_mask.len(),
        width,
        height,
    ) {
        return slice_to_vec(base_frame);
    }
    composite_with_depth(
        base_frame,
        creative_frame,
        depth_map,
        alpha_mask,
        width,
        height,
        creative_depth,
    )
}

/// Every byte is a whole number that binary32 holds exactly.
pub proof fn lemma_whole_byte(n: u8)
    ensures
        round_to_binary32(n as nat * unit(), 1) == n as nat * unit(),
        n as nat * unit() < overflow_threshold(),
{
    lemma2_to64();
    if n == 0 {
        assert(0 * unit() == 0);
        lemma_round_zero(1);
        lemma_pow2_pos(277);
    } else if n < 2 {
        lemma_whole_encodable(n as nat, 1);
    } else if n < 4 {
        lemma_whole_encodable(n as nat, 2);
    } else if n < 8 {
        lemma_whole_encodable(n as nat, 3);
    } else if n < 16 {
        lemma_whole_encodable(n as nat, 4);
    } else if n < 32 {
        lemma_whole_encodable(n as nat, 5);
    } else if n < 64 {
        lemma_whole_encodable(n as nat, 6);
    } else if n < 128 {
        lemma_whole_encodable(n as nat, 7);
    } else {
        lemma_whole_encodable(n as nat, 8);
    }
}

/// A mask of 255 is an alpha of exactly one, and a mask of 0 an alpha of zero.
pub proof fn lemma_extreme_alpha()
    ensures
        byte_fraction(255) == whole(1),
        byte_fraction(0) == whole(0),
{
    lemma_pow2_pos(149);
    assert(255 * unit() == unit() * 255 && 1 * 255 == 255) by (nonlinear_arith);
    lemma_round_scale(unit(), 1, 255);
    lemma_whole_byte(1);
    assert(1 * unit() == unit());
    assert(0 * unit() == 0);
    lemma_round_zero(255);
}

/// With an alpha of one the blend is the creative channel, whatever the base.
pub proof fn lemma_blend_opaque(base: u8, creative: u8)
    ensures
        blend(base, creative, whole(1)) == creative,
{
    let one = whole(1);
    let c = creative as nat * unit();
    let b = base as nat * unit();
    lemma_pow2_pos(149);
    lemma_pow2_pos(277);
    assert(1 * unit() == unit());
    // 1 - 1 is +0.
    assert(difference(one, one) == whole(0)) by {
        assert(0 * unit() == 0);
    }
    // creative * 1 is creative.
    lemma_whole_byte(creative);
    lemma_round_scale(c, 1, unit());
    assert(product(whole(creative as nat), one) == whole(creative as nat));
    // base * 0 is +0.
    lemma_round_zero(unit());
    assert(b * 0 == 0);
    assert(0 * unit() == 0);
    assert(product(whole(base as nat), whole(0)) == whole(0));
    // creative + 0 is creative.
    assert(sum(whole(creative as nat), whole(0)) == whole(creative as nat));
    // Back to a byte.
    lemma_div_by_multiple(creative as int, unit() as int);
}

/// Where the creative content is in front of the scene and fully opaque, the
/// output pixel is the creative pixel.
pub proof fn lemma_opaque_in_front_takes_creative(
    base: Seq<u8>,
    creative: Seq<u8>,
    depth_map: Seq<Binary32>,
    alpha_mask: Seq<u8>,
    width: u32,
    height: u32,
    creative_depth: Binary32,
    pixel: int,
    channel: int,
)
    requires
        buffers_cover(base.len(), creative.len(), depth_map.len(), alpha_mask.len(), width, height),
        0 <= pixel < pixel_count(width, height),
        0 <= channel < 4,
        less_than(creative_depth@, depth_map[pixel]@),
        alpha_mask[pixel] == 255,
    ensures
        composite_output(base, creative, depth_map, alpha_mask, width, height, creative_depth)[4
            * pixel + channel] == creative[4 * pixel + channel],
{
    let j = 4 * pixel + channel;
    assert(j / 4 == pixel);
    lemma_extreme_alpha();
    lemma_blend_opaque(base[j], creative[j]);
    lemma_pow2_pos(149);
    assert(0 * unit() == 0);
    assert(1 * unit() == unit());
}

/// Where the creative content is not strictly in front of the scene, or its
/// mask is zero, the output pixel is the base pixel. So the scene wins a tie
/// of depths, and a NaN depth leaves the scene as it is.
pub proof fn lemma_behind_or_transparent_keeps_base(
    base: Seq<u8>,
    creative: Seq<u8>,
    depth_map: Seq<Binary32>,
    alpha_mask: Seq<u8>,
    width: u32,
    height: u32,
    creative_depth: Binary32,
    pixel: int,
    channel: int,
)
    requires
        0 <= pixel < pixel_count(width, height),
        0 <= channel < 4,
        !less_than(creative_depth@, depth_map[pixel]@) || alpha_mask[pixel] == 0,
    ensures
        composite_output(base, creative, depth_map, alpha_mask, width, height, creative_depth)[4
            * pixel + channel] == base[4 * pixel + channel],
{
    let j = 4 * pixel + channel;
    assert(j / 4 == pixel);
    lemma_extreme_alpha();
    assert(0 * unit() == 0);
}

/// A malformed call leaves the base buffer as it is.
pub proof fn lemma_malformed_call_returns_base(
    base: Seq<u8>,
    creative: Seq<u8>,
    depth_map: Seq<Binary32>,
    alpha_mask: Seq<u8>,
    width: u32,
    height: u32,
    creative_depth: Binary32,
)
    requires
        !buffers_cover(base.len(), creative.len(), depth_map.len(), alpha_mask.len(), width, height),
    ensures
        composite_output(base, creative, depth_map, alpha_mask, width, height, creative_depth)
            == base,
{
}

/// The output has the length of the base buffer on every call.
pub proof fn lemma_output_length(
    base: Seq<u8>,
    creative: Seq<u8>,
    depth_map: Seq<Binary32>,
    alpha_mask: Seq<u8>,
    width: u32,
    height: u32,
    creative_depth: Binary32,
)
    ensures
        composite_output(base, creative, depth_map, alpha_mask, width, height, creative_depth).len()
            == base.len(),
{
}

/// Two calls on the same inputs return the same buffer.
pub proof fn lemma_same_inputs_same_output(
    first: Seq<u8>,
    second: Seq<u8>,
    base: Seq<u8>,
    creative: Seq<u8>,
    depth_map: Seq<Binary32>,
    alpha_mask: Seq<u8>,
    width: u32,
    height: u32,
    creative_depth: Binary32,
)
    requires
        first == composite_output(
            base,
            creative,
            depth_map,
            alpha_mask,
            width,
            height,
            creative_depth,
        ),
        second == composite_output(
            base,
            creative,
            depth_map,
            alpha_mask,
            width,
            height,
            creative_depth,
        ),
    ensures
        first == second,
{
}

} // verus!
