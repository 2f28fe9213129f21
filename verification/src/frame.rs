//! Owned image frames and the letterbox-padding preprocessing stage:
//! pad a frame to a square with black pixels, keeping the original in
//! the top-left corner. The subsequent resize to the model input size
//! and the division by 255 are the inference backend's concern.

use vstd::prelude::*;
use crate::errors::DetectError;
use crate::nms::imax;

verus! {

/// Bound on frame width and height accepted by preprocessing, so that
/// the padded square buffer's size stays within address-space limits.
pub const MAX_FRAME_DIM: usize = 4096;

/// An owned image buffer: `width * height` pixels of three interleaved
/// channels, row-major, the byte of channel `c` of pixel `(x, y)` at
/// index `(y * width + x) * 3 + c`.
#[derive(Debug, PartialEq, Eq)]
pub struct Frame {
    pub width: usize,
    pub height: usize,
    pub data: Vec<u8>,
}

pub open spec fn frame_wf(f: Frame) -> bool {
    f.data@.len() == f.width as int * f.height as int * 3
}

impl Frame {
    /// Build a frame after checking that the buffer length matches the
    /// dimensions; `None` exactly when it does not.
    pub fn new(width: usize, height: usize, data: Vec<u8>) -> (r: Option<Frame>)
        ensures
            r matches Some(f) ==> f.width == width && f.height == height
                && f.data@ == data@ && frame_wf(f),
            r is Some <==> data@.len() == width as int * height as int * 3,
    {
        proof {
            assert(width as int * height as int <= 0xffff_ffff_ffff_ffff * 0xffff_ffff_ffff_ffff)
                by (nonlinear_arith)
                requires 0 <= width as int <= 0xffff_ffff_ffff_ffff,
                    0 <= height as int <= 0xffff_ffff_ffff_ffff;
            assert(width as int * height as int >= 0) by (nonlinear_arith)
                requires 0 <= width as int, 0 <= height as int;
        }
        let n = data.len();
        let wh: u128 = width as u128 * height as u128;
        if wh > 0xffff_ffff_ffff_ffffu128 {
            return None;
        }
        let prod: u128 = wh * 3;
        if prod != n as u128 {
            return None;
        }
        Some(Frame { width, height, data })
    }
}

/// The byte at flat index `i` of the square padded to `side`: the
/// original frame's byte where the pixel lies inside the frame, black
/// (zero) in the padding.
pub open spec fn pad_byte(f: Frame, side: int, i: int) -> u8 {
    let p = i / 3;
    let ch = i % 3;
    let px = p % side;
    let py = p / side;
    if px < f.width && py < f.height {
        f.data@[(py * f.width as int + px) * 3 + ch]
    } else {
        0
    }
}

/// The whole padded square buffer of side `side`.
pub open spec fn pad_spec(f: Frame, side: int) -> Seq<u8> {
    Seq::new((side * side * 3) as nat, |i: int| pad_byte(f, side, i))
}

/// Letterbox padding: a square frame of side `max(width, height)`,
/// zero-filled, with the original frame copied into its top-left
/// corner. A frame with a zero dimension is rejected as `InvalidFrame`.
pub fn pre_process(f: &Frame) -> (r: Result<Frame, DetectError>)
    requires
        frame_wf(*f),
        f.width <= MAX_FRAME_DIM,
        f.height <= MAX_FRAME_DIM,
    ensures
        (f.width == 0 || f.height == 0) ==> (r matches Err(e) && e == DetectError::InvalidFrame),
        (f.width > 0 && f.height > 0) ==> (r matches Ok(out) && {
            let side = imax(f.width as int, f.height as int);
            &&& out.width == side
            &&& out.height == side
            &&& frame_wf(out)
            &&& out.data@ == pad_spec(*f, side)
        }),
{
    if f.width == 0 || f.height == 0 {
        return Err(DetectError::InvalidFrame);
    }
    let side = if f.width >= f.height { f.width } else { f.height };
    proof {
        assert(side as int * side as int <= 4096 * 4096) by (nonlinear_arith)
            requires 0 <= side as int <= 4096;
    }
    let total = side * side * 3;
    let mut out: Vec<u8> = Vec::new();
    let mut i: usize = 0;
    while i < total
        invariant
            frame_wf(*f),
            0 < f.width <= MAX_FRAME_DIM,
            0 < f.height <= MAX_FRAME_DIM,
            side == imax(f.width as int, f.height as int),
            side <= MAX_FRAME_DIM,
            total == side as int * side as int * 3,
            i <= total,
            out@.len() == i,
            forall|j: int| 0 <= j < i ==> #[trigger] out@[j] == pad_byte(*f, side as int, j),
        decreases total - i,
    {
        let p = i / 3;
        let ch = i % 3;
        let px = p % side;
        let py = p / side;
        let b: u8;
        if px < f.width && py < f.height {
            proof {
                assert((py as int * f.width as int + px as int) * 3 + ch
                    < f.width as int * f.height as int * 3) by (nonlinear_arith)
                    requires 0 <= (px as int) && (px as int) < f.width as int,
                        0 <= (py as int) && (py as int) < f.height as int,
                        0 <= ch < 3;
                assert((py as int * f.width as int + px as int) * 3 + ch >= 0) by (nonlinear_arith)
                    requires 0 <= px as int, 0 <= py as int, 0 <= ch, 0 <= f.width as int;
                assert(0 <= py as int * f.width as int
                    && py as int * f.width as int + px as int <= 4096 * 4096) by (nonlinear_arith)
                    requires 0 <= (py as int), (py as int) < f.height as int,
                        f.height as int <= 4096, 0 <= (px as int),
                        (px as int) < f.width as int, f.width as int <= 4096;
            }
            let src = (py * f.width + px) * 3 + ch;
            b = f.data[src];
        } else {
            b = 0;
        }
        out.push(b);
        i += 1;
    }
    proof {
        assert(out@ =~= pad_spec(*f, side as int));
    }
    Ok(Frame { width: side, height: side, data: out })
}

/// The padding preserves every original pixel at its own coordinates:
/// inside the frame, the padded square holds exactly the frame's bytes.
pub proof fn lemma_padding_preserves_pixels(f: Frame, side: int, x: int, y: int, c: int)
    requires
        frame_wf(f),
        side >= f.width,
        side >= f.height,
        0 <= x < f.width,
        0 <= y < f.height,
        0 <= c < 3,
    ensures
        pad_spec(f, side)[(y * side + x) * 3 + c] == f.data@[(y * f.width as int + x) * 3 + c],
{
    let i = (y * side + x) * 3 + c;
    assert(0 <= y * side + x < side * side) by (nonlinear_arith)
        requires 0 <= x < side, 0 <= y < side, side >= 1;
    assert(0 <= i < side * side * 3) by (nonlinear_arith)
        requires 0 <= y * side + x < side * side, i == (y * side + x) * 3 + c, 0 <= c < 3;
    assert(i / 3 == y * side + x && i % 3 == c) by (nonlinear_arith)
        requires i == (y * side + x) * 3 + c, 0 <= c < 3, 0 <= y * side + x;
    let p = y * side + x;
    assert(p % side == x && p / side == y) by (nonlinear_arith)
        requires p == y * side + x, 0 <= x < side, 0 <= y, side >= 1;
    assert(pad_spec(f, side)[i] == pad_byte(f, side, i));
}

} // verus!
