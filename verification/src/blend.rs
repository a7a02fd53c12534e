//! Blend modes: how a layer's bytes combine with the frame beneath it.
//!
//! Every mode first combines a base channel with a creative channel into a
//! source value and then mixes that source into the base by the layer's
//! opacity, `base * (1 - opacity) + source * opacity`, in binary32
//! arithmetic. `Normal` touches the alpha channel only and takes the creative
//! byte itself as the source. `Multiply`, `Screen` and `Overlay` touch the
//! three colour channels, with the usual photographic formulas on channels
//! scaled to 0..=255 and rounded to the nearest byte.

use vstd::prelude::*;
use crate::arith::{difference, product, sum, to_byte, whole};
use crate::binary32::{Binary32, Value};

verus! {

/// How a layer combines with what lies beneath it.
#[derive(Clone, Copy, Debug, PartialEq, Eq)]
pub enum BlendMode {
    /// The layer's alpha channel is mixed into the frame's.
    Normal,
    /// The colour channels are multiplied: the result is never lighter.
    Multiply,
    /// The inverted colour channels are multiplied: the result is never darker.
    Screen,
    /// `Multiply` where the frame is dark, `Screen` where it is light.
    Overlay,
}

/// `a * b / 255`, rounded to the nearest whole number.
pub open spec fn scaled_product(a: int, b: int) -> int {
    (a * b + 127) / 255
}

/// The source value that a mode makes of a base and a creative channel.
///
/// - `Normal`: the creative channel.
/// - `Multiply`: `base * creative`, on channels scaled to the unit interval.
/// - `Screen`: `1 - (1 - base) * (1 - creative)`.
/// - `Overlay`: `Multiply` doubled where the base is dark (below 128), and
///   `Screen` doubled where it is light.
pub open spec fn combined(mode: BlendMode, base: u8, creative: u8) -> u8 {
    match mode {
        BlendMode::Normal => creative,
        BlendMode::Multiply => scaled_product(base as int, creative as int) as u8,
        BlendMode::Screen => (255 - scaled_product(255 - base, 255 - creative)) as u8,
        BlendMode::Overlay => if base < 128 {
            scaled_product(2 * base, creative as int) as u8
        } else {
            (255 - scaled_product(2 * (255 - base), 255 - creative)) as u8
        },
    }
}

/// Whether a mode writes byte `j` of an interleaved RGBA buffer: `Normal`
/// writes the alpha channel, the other modes the colour channels.
pub open spec fn touches(mode: BlendMode, j: int) -> bool {
    (mode == BlendMode::Normal) == (j % 4 == 3)
}

/// `base * (1 - opacity) + source * opacity`, each operation rounded to
/// binary32 and the result converted to a byte.
pub open spec fn mixed(base: u8, source: u8, opacity: Value) -> u8 {
    to_byte(
        sum(
            product(whole(base as nat), difference(whole(1), opacity)),
            product(whole(source as nat), opacity),
        ),
    )
}

/// Byte `j` of a frame after a layer was blended onto it.
pub open spec fn blended_byte(
    mode: BlendMode,
    base: u8,
    creative: u8,
    opacity: Value,
    j: int,
) -> u8 {
    if touches(mode, j) {
        mixed(base, combined(mode, base, creative), opacity)
    } else {
        base
    }
}

/// A frame buffer after a layer was blended onto it: the bytes that both
/// buffers have are blended, the others are kept.
pub open spec fn blended(data: Seq<u8>, creative: Seq<u8>, opacity: Value, mode: BlendMode) -> Seq<
    u8,
> {
    Seq::new(
        data.len(),
        |j: int|
            if j < creative.len() {
                blended_byte(mode, data[j], creative[j], opacity, j)
            } else {
                data[j]
            },
    )
}

/// The rounded scaled product of two channels stays a byte.
pub proof fn lemma_scaled_product_bounds(a: int, b: int)
    requires
        0 <= a <= 255,
        0 <= b <= 255,
    ensures
        0 <= a * b <= 65025,
        0 <= scaled_product(a, b) <= 255,
{
    assert(0 <= a * b <= 65025) by (nonlinear_arith)
        requires
            0 <= a <= 255,
            0 <= b <= 255,
    ;
}

/// The doubled scaled product of a dark channel stays a byte.
pub proof fn lemma_doubled_product_bounds(a: int, b: int)
    requires
        0 <= a <= 127,
        0 <= b <= 255,
    ensures
        0 <= (2 * a) * b <= 64770,
        0 <= scaled_product(2 * a, b) <= 254,
{
    assert(0 <= (2 * a) * b <= 64770) by (nonlinear_arith)
        requires
            0 <= a <= 127,
            0 <= b <= 255,
    ;
}

/// `a * b / 255` rounded to the nearest whole number, for two channels.
fn scale_product(a: u32, b: u32) -> (r: u32)
    requires
        a <= 255,
        b <= 255,
    ensures
        r == scaled_product(a as int, b as int),
        r <= 255,
{
    proof {
        lemma_scaled_product_bounds(a as int, b as int);
    }
    (a * b + 127) / 255
}

/// The source value that `mode` makes of a base and a creative channel.
pub fn combine(mode: BlendMode, base: u8, creative: u8) -> (source: u8)
    ensures
        source == combined(mode, base, creative),
{
    let b: u32 = base as u32;
    let c: u32 = creative as u32;
    match mode {
        BlendMode::Normal => creative,
        BlendMode::Multiply => scale_product(b, c) as u8,
        BlendMode::Screen => (255 - scale_product(255 - b, 255 - c)) as u8,
        BlendMode::Overlay => {
            if b < 128 {
                proof {
                    lemma_doubled_product_bounds(b as int, c as int);
                }
                ((2 * b * c + 127) / 255) as u8
            } else {
                proof {
                    lemma_doubled_product_bounds(255 - b, 255 - c);
                }
                (255 - (2 * (255 - b) * (255 - c) + 127) / 255) as u8
            }
        },
    }
}

/// Mixes `source` into `base` by an opacity. `inverse` is `1 - opacity`.
pub fn mix(base: u8, source: u8, opacity: Binary32, inverse: Binary32) -> (out: u8)
    requires
        inverse@ == difference(whole(1), opacity@),
    ensures
        out == mixed(base, source, opacity@),
{
    let from_base = Binary32::from_u8(base).mul(inverse);
    let from_source = Binary32::from_u8(source).mul(opacity);
    from_base.add(from_source).to_u8()
}

/// Whether `mode` writes byte `j` of an interleaved RGBA buffer.
pub fn writes_channel(mode: BlendMode, j: usize) -> (yes: bool)
    ensures
        yes == touches(mode, j as int),
{
    let alpha_channel = j % 4 == 3;
    match mode {
        BlendMode::Normal => alpha_channel,
        BlendMode::Multiply => !alpha_channel,
        BlendMode::Screen => !alpha_channel,
        BlendMode::Overlay => !alpha_channel,
    }
}

/// Blends a layer's bytes onto a frame buffer in place.
pub fn blend_onto(data: &mut Vec<u8>, creative: &[u8], opacity: Binary32, mode: BlendMode)
    ensures
        final(data)@ == blended(old(data)@, creative@, opacity@, mode),
{
    let ghost before = data@;
    let shared: usize = if data.len() < creative.len() {
        data.len()
    } else {
        creative.len()
    };
    let inverse = Binary32::one().sub(opacity);
    let mut j: usize = 0;
    while j < shared
        invariant
            j <= shared,
            shared <= before.len(),
            shared <= creative@.len(),
            data@.len() == before.len(),
            inverse@ == difference(whole(1), opacity@),
            forall|t: int|
                0 <= t < j ==> data@[t] == blended_byte(mode, before[t], creative@[t], opacity@, t),
            forall|t: int| j <= t < before.len() ==> data@[t] == before[t],
        decreases shared - j,
    {
        if writes_channel(mode, j) {
            let base = data[j];
            let source = combine(mode, base, creative[j]);
            let out = mix(base, source, opacity, inverse);
            data.set(j, out);
        }
        j = j + 1;
    }
    assert(data@ =~= blended(before, creative@, opacity@, mode));
}

} // verus!
