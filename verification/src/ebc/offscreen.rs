//! The picture that the panel shows while the device sleeps: how it is
//! brought into the shape that the driver takes.

use vstd::prelude::*;

verus! {

/// Why the off-screen picture could not be set.
#[derive(Clone, Copy, Debug, PartialEq, Eq, Structural)]
pub enum OffScreenError {
    /// The file could not be opened.
    LoadFailed,
    /// The file holds no picture that can be read.
    DecodeFailed,
    /// The driver did not take the picture.
    UploadFailed,
}

/// How a picture is turned before it goes to the panel, which is mounted
/// sideways and mirrored.
#[derive(Clone, Copy, Debug, PartialEq, Eq, Structural)]
pub enum Orientation {
    /// For a picture that is higher than wide: a quarter turn, then
    /// mirrored.
    Rotate90FlipH,
    /// For every other picture: mirrored.
    FlipHorizontal,
}

/// The turn that a picture of the given size needs.
pub fn orientation_for(width: u32, height: u32) -> (r: Orientation)
    ensures
        r == if height > width {
            Orientation::Rotate90FlipH
        } else {
            Orientation::FlipHorizontal
        },
{
    if height > width {
        Orientation::Rotate90FlipH
    } else {
        Orientation::FlipHorizontal
    }
}

/// Whether a picture of the size `(width, height)` has to be brought to
/// the size of the display.
pub fn needs_resize(width: u32, height: u32, display_width: u32, display_height: u32) -> (r: bool)
    ensures
        r == (width != display_width || height != display_height),
{
    width != display_width || height != display_height
}

/// The grey levels of a picture with sixteen levels for each pixel, from
/// one with 256: the upper four bits of every pixel.
pub open spec fn spec_to_y4(pixels: Seq<u8>) -> Seq<u8> {
    Seq::new(pixels.len(), |i: int| pixels[i] / 16)
}

/// Brings the pixels of a picture down to sixteen grey levels.
pub fn to_y4(pixels: &Vec<u8>) -> (r: Vec<u8>)
    ensures
        r@ == spec_to_y4(pixels@),
{
    let mut out: Vec<u8> = Vec::new();
    let mut i: usize = 0;
    while i < pixels.len()
        invariant
            i <= pixels.len(),
            out.len() == i,
            forall|k: int| 0 <= k < i ==> out[k] == pixels[k] / 16,
        decreases pixels.len() - i,
    {
        let p = pixels[i];
        let q = p >> 4;
        proof {
            assert(q == p / 16) by (bit_vector)
                requires
                    q == p >> 4u8,
            ;
        }
        out.push(q);
        i += 1;
    }
    proof {
        assert(out@ =~= spec_to_y4(pixels@));
    }
    out
}

} // verus!
