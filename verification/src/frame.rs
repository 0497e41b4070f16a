//! An RGBA image held as its raw bytes, row by row, four bytes per pixel.
use vstd::prelude::*;

verus! {

/// Bytes per RGBA pixel.
pub const BYTES_PER_PIXEL: u32 = 4;

/// What a frame is made of: its size and its raw pixel bytes.
pub struct FrameView {
    pub width: u32,
    pub height: u32,
    pub data: Seq<u8>,
}

/// The number of bytes that a `width` by `height` RGBA image needs.
pub open spec fn required_len(width: u32, height: u32) -> int {
    width * height * 4
}

/// An RGBA image buffer: `width` by `height` pixels whose bytes are held in
/// `data`. The buffer may be longer than the image needs, never shorter.
#[derive(Debug, PartialEq, Eq)]
pub struct Frame {
    width: u32,
    height: u32,
    data: Vec<u8>,
}

impl View for Frame {
    type V = FrameView;

    closed spec fn view(&self) -> FrameView {
        FrameView { width: self.width, height: self.height, data: self.data@ }
    }
}

impl Frame {
    #[verifier::type_invariant]
    closed spec fn fits(self) -> bool {
        required_len(self.width, self.height) <= self.data@.len()
    }

    /// Wraps `data` as a `width` by `height` image, or returns `None` when
    /// `data` is too short to hold that many pixels.
    pub fn from_raw(width: u32, height: u32, data: Vec<u8>) -> (r: Option<Frame>)
        ensures
            r is Some <==> required_len(width, height) <= data@.len(),
            r matches Some(f) ==> f@ == (FrameView { width, height, data: data@ }),
    {
        let w: u128 = width as u128;
        let h: u128 = height as u128;
        assert(w * h <= 0xffff_ffff_u128 * 0xffff_ffff_u128) by (nonlinear_arith)
            requires
                w <= 0xffff_ffff_u128,
                h <= 0xffff_ffff_u128,
        ;
        let need: u128 = w * h * 4;
        if need <= data.len() as u128 {
            Some(Frame { width, height, data })
        } else {
            None
        }
    }

    /// The width in pixels.
    pub fn width(&self) -> (r: u32)
        ensures
            r == self@.width,
    {
        self.width
    }

    /// The height in pixels.
    pub fn height(&self) -> (r: u32)
        ensures
            r == self@.height,
    {
        self.height
    }

    /// The raw bytes, borrowed; there are at least as many as the size needs.
    pub fn as_raw(&self) -> (r: &Vec<u8>)
        ensures
            r@ == self@.data,
            required_len(self@.width, self@.height) <= r@.len(),
    {
        proof {
            use_type_invariant(self);
        }
        &self.data
    }

    /// The raw bytes, taken out of the frame; there are at least as many as
    /// the size needs.
    pub fn into_raw(self) -> (r: Vec<u8>)
        ensures
            r@ == self@.data,
            required_len(self@.width, self@.height) <= r@.len(),
    {
        proof {
            use_type_invariant(&self);
        }
        self.data
    }
}

} // verus!
