//! Frame geometry: how many bytes a frame of given dimensions occupies.

use vstd::prelude::*;

verus! {

/// Number of pixels of a `width` x `height` frame.
pub open spec fn pixel_count(width: u32, height: u32) -> nat {
    (width as nat) * (height as nat)
}

/// Number of bytes an RGBA frame of the given dimensions needs.
pub open spec fn frame_bytes(width: u32, height: u32) -> nat {
    pixel_count(width, height) * 4
}

/// The pixel count of any frame fits in 64 bits.
pub proof fn lemma_pixel_count_bound(width: u32, height: u32)
    ensures
        pixel_count(width, height) <= 0xFFFF_FFFE_0000_0001,
{
    assert((width as nat) * (height as nat) <= 0xFFFF_FFFFnat * 0xFFFF_FFFFnat)
        by (nonlinear_arith)
        requires
            width <= 0xFFFF_FFFF,
            height <= 0xFFFF_FFFF,
    ;
}

/// The number of pixels of a frame, computed without overflow.
pub fn pixels_of(width: u32, height: u32) -> (n: u64)
    ensures
        n == pixel_count(width, height),
{
    proof {
        lemma_pixel_count_bound(width, height);
    }
    (width as u64) * (height as u64)
}

/// Whether a buffer of `data_len` bytes can hold a `width` x `height` RGBA frame.
pub fn validate_frame_size(data_len: usize, width: u32, height: u32) -> (ok: bool)
    ensures
        ok == (data_len as nat >= frame_bytes(width, height)),
{
    let pixels = pixels_of(width, height);
    (data_len as u128) >= (pixels as u128) * 4
}

} // verus!
