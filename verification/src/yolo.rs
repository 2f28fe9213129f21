//! Detection decode: from the model's raw anchor-grid tensor to
//! thresholded, suppressed, coordinate-rescaled boxes.
//!
//! The tensor is taken already quantized to integers: box parameters in
//! whole model-input pixels, class scores in thousandths. The decode
//! stage keeps every anchor whose best class score strictly exceeds the
//! fixed floor of 0.25 (250 thousandths), rescales its box into the
//! coordinate space described by `MatInfo` with half-away-from-zero
//! rounding, and hands the candidates to non-max suppression.

use vstd::prelude::*;
use crate::errors::DetectError;
use crate::nms::{Candidate, all_ok, cand_ok, imax, nms_spec, nms, MILLI, BOX_LIMIT};
use crate::round::{round_div, round_div_i64, lemma_round_div_bound, lemma_round_div_nonneg};

verus! {

/// Bound on the magnitude of a quantized tensor value.
pub const VAL_LIMIT: i64 = 0x10_0000;

/// Bound on frame dimensions and on the model input size.
pub const DIM_LIMIT: i64 = 32768;

/// Fixed internal confidence floor (thousandths) applied at decode,
/// independent of the caller-supplied threshold applied inside NMS.
pub const FLOOR_MILLI: i64 = 250;

/// The coordinate space that decoded boxes are rescaled into, carried
/// over from preprocessing: the dimensions of the image the model input
/// was resized from, and the square model input size.
#[derive(Clone, Copy, Debug, PartialEq, Eq, Structural)]
pub struct MatInfo {
    pub width: i64,
    pub height: i64,
    pub scaled_size: i64,
}

impl MatInfo {
    pub open spec fn wf(self) -> bool {
        &&& 0 <= self.width <= DIM_LIMIT
        &&& 0 <= self.height <= DIM_LIMIT
        &&& 1 <= self.scaled_size <= DIM_LIMIT
    }

    /// Executable check of the validity bounds above.
    pub fn is_wf(&self) -> (r: bool)
        ensures
            r == self.wf(),
    {
        0 <= self.width && self.width <= DIM_LIMIT
            && 0 <= self.height && self.height <= DIM_LIMIT
            && 1 <= self.scaled_size && self.scaled_size <= DIM_LIMIT
    }
}

/// The coordinate space for decoding the detections of a frame of the
/// given dimensions: preprocessing pads the frame to a square of side
/// `max(width, height)` and resizes that square to the model input, so
/// both axes rescale from model space by `side / input_size`. `None`
/// when a dimension is zero or out of bounds.
pub fn mat_info_for(width: usize, height: usize, input_size: i32) -> (r: Option<MatInfo>)
    ensures
        r is Some <==> (0 < width && width <= DIM_LIMIT && 0 < height && height <= DIM_LIMIT
            && 0 < input_size && input_size <= DIM_LIMIT),
        r matches Some(m) ==> m.wf()
            && m.width == imax(width as int, height as int)
            && m.height == m.width
            && m.scaled_size == input_size,
{
    if width == 0 || height == 0 || width > 32768 || height > 32768 {
        return None;
    }
    if input_size < 1 || input_size > 32768 {
        return None;
    }
    let side = if width >= height { width } else { height };
    Some(MatInfo { width: side as i64, height: side as i64, scaled_size: input_size as i64 })
}

pub open spec fn tensor_wf_parts(channels: int, anchors: int, data: Seq<i64>) -> bool {
    &&& data.len() == channels * anchors
    &&& forall|i: int| 0 <= i < data.len() ==> -VAL_LIMIT <= #[trigger] data[i] <= VAL_LIMIT
    &&& forall|i: int| 0 <= i < data.len() && i < 4 * anchors ==> #[trigger] data[i] >= 0
}

/// The raw output tensor, flattened: shape 1 x channels x anchors, with
/// the value of channel `c` at anchor `r` stored at index
/// `c * anchors + r`. The first four channels are box parameters
/// (center-x, center-y, width, height) in model-input pixels, hence
/// nonnegative; the remaining channels are per-class scores in
/// thousandths.
pub struct Tensor {
    pub channels: usize,
    pub anchors: usize,
    pub data: Vec<i64>,
}

impl Tensor {
    pub open spec fn wf(self) -> bool {
        tensor_wf_parts(self.channels as int, self.anchors as int, self.data@)
    }

    /// Build a tensor after checking the shape and value bounds; `None`
    /// exactly when they do not hold.
    pub fn new(channels: usize, anchors: usize, data: Vec<i64>) -> (r: Option<Tensor>)
        ensures
            r matches Some(t) ==> t.channels == channels && t.anchors == anchors
                && t.data@ == data@ && t.wf(),
            r is Some <==> tensor_wf_parts(channels as int, anchors as int, data@),
    {
        proof {
            assert(channels as int * anchors as int <= 0xffff_ffff_ffff_ffff * 0xffff_ffff_ffff_ffff)
                by (nonlinear_arith)
                requires 0 <= channels as int <= 0xffff_ffff_ffff_ffff,
                    0 <= anchors as int <= 0xffff_ffff_ffff_ffff;
        }
        let prod: u128 = channels as u128 * anchors as u128;
        if prod != data.len() as u128 {
            return None;
        }
        let coord_end: u128 = 4u128 * anchors as u128;
        let mut i: usize = 0;
        while i < data.len()
            invariant
                i <= data@.len(),
                data@.len() == channels as int * anchors as int,
                coord_end == 4 * anchors as int,
                forall|j: int| 0 <= j < i ==> -VAL_LIMIT <= #[trigger] data@[j] <= VAL_LIMIT,
                forall|j: int| 0 <= j < i && j < 4 * anchors as int ==> #[trigger] data@[j] >= 0,
            decreases data@.len() - i,
        {
            let v = data[i];
            if v < -VAL_LIMIT || v > VAL_LIMIT {
                return None;
            }
            if (i as u128) < coord_end && v < 0 {
                return None;
            }
            i += 1;
        }
        Some(Tensor { channels, anchors, data })
    }
}

/// The tensor value of channel `col` at anchor `row`, as an integer.
pub open spec fn at(t: Tensor, col: int, row: int) -> int {
    t.data@[col * t.anchors as int + row] as int
}

/// Left-to-right scan of the class-score channels `[4, c)` of one anchor,
/// exactly as the decode loop performs it: returns the running maximum
/// score (starting from 0) and the class index that first attained it.
pub open spec fn scan_scores(t: Tensor, row: int, c: int) -> (int, int)
    decreases c,
{
    if c <= 4 {
        (0, 0)
    } else {
        let p = scan_scores(t, row, c - 1);
        if at(t, c - 1, row) > p.0 {
            (at(t, c - 1, row), c - 1 - 4)
        } else {
            p
        }
    }
}

/// Best class score of one anchor (0 when no score is positive).
pub open spec fn anchor_score(t: Tensor, row: int) -> int {
    scan_scores(t, row, t.channels as int).0
}

/// Class index attaining the best score of one anchor.
pub open spec fn anchor_class(t: Tensor, row: int) -> int {
    scan_scores(t, row, t.channels as int).1
}

/// The candidate decoded from one anchor: the box corner and extents
/// rescaled from model-input space into the `info` coordinate space with
/// half-away-from-zero rounding, widths by the horizontal scale and
/// heights by the vertical scale.
pub open spec fn cand_of(t: Tensor, row: int, info: MatInfo) -> Candidate {
    let cx = at(t, 0, row);
    let cy = at(t, 1, row);
    let w = at(t, 2, row);
    let h = at(t, 3, row);
    let s = info.scaled_size as int;
    Candidate {
        x: round_div((2 * cx - w) * info.width as int, 2 * s) as i64,
        y: round_div((2 * cy - h) * info.height as int, 2 * s) as i64,
        w: round_div(w * info.width as int, s) as i64,
        h: round_div(h * info.height as int, s) as i64,
        score: anchor_score(t, row) as i64,
        class: anchor_class(t, row) as i64,
    }
}

/// Candidates of the first `n` anchors whose best score strictly exceeds
/// the fixed floor, in anchor order.
pub open spec fn decode_spec(t: Tensor, info: MatInfo, n: int) -> Seq<Candidate>
    decreases n,
{
    if n <= 0 {
        Seq::empty()
    } else {
        let rest = decode_spec(t, info, n - 1);
        if anchor_score(t, n - 1) > FLOOR_MILLI {
            rest.push(cand_of(t, n - 1, info))
        } else {
            rest
        }
    }
}

/// All decode candidates of the tensor.
pub open spec fn decoded(t: Tensor, info: MatInfo) -> Seq<Candidate> {
    decode_spec(t, info, t.anchors as int)
}

proof fn lemma_coord_values(t: Tensor, row: int)
    requires
        t.wf(),
        t.channels >= 4,
        0 <= row < t.anchors,
    ensures
        forall|c: int| 0 <= c < 4 ==> 0 <= #[trigger] at(t, c, row) <= VAL_LIMIT,
{
    assert forall|c: int| 0 <= c < 4 implies 0 <= #[trigger] at(t, c, row) <= VAL_LIMIT by {
        let idx = c * t.anchors as int + row;
        assert(0 <= idx < 4 * t.anchors as int) by (nonlinear_arith)
            requires 0 <= c < 4, 0 <= row < t.anchors as int, idx == c * t.anchors as int + row;
        assert(4 * t.anchors as int <= t.channels as int * t.anchors as int) by (nonlinear_arith)
            requires t.channels as int >= 4, t.anchors as int >= 0;
        assert(t.data@[idx] >= 0);
        assert(t.data@[idx] <= VAL_LIMIT);
    }
}

proof fn lemma_scan_bounds(t: Tensor, row: int, c: int)
    requires
        t.wf(),
        0 <= row < t.anchors,
        c <= t.channels,
    ensures
        0 <= scan_scores(t, row, c).0 <= VAL_LIMIT,
        0 <= scan_scores(t, row, c).1,
        scan_scores(t, row, c).1 <= if c - 5 >= 0 { c - 5 } else { 0 },
    decreases c,
{
    if c > 4 {
        lemma_scan_bounds(t, row, c - 1);
        let idx = (c - 1) * t.anchors as int + row;
        assert(0 <= idx < t.channels as int * t.anchors as int) by (nonlinear_arith)
            requires 0 <= c - 1 < t.channels as int, 0 <= row < t.anchors as int,
                idx == (c - 1) * t.anchors as int + row;
        assert(-VAL_LIMIT <= t.data@[idx] <= VAL_LIMIT);
    }
}

/// Decode every anchor of the tensor: scan its class scores, apply the
/// fixed floor, and rescale the retained boxes into `info` space.
pub fn decode_candidates(t: &Tensor, info: &MatInfo) -> (r: Vec<Candidate>)
    requires
        t.wf(),
        info.wf(),
        t.channels >= 4,
    ensures
        r@ == decoded(*t, *info),
        all_ok(r@),
{
    let dlen = t.data.len();
    let mut out: Vec<Candidate> = Vec::new();
    let mut row: usize = 0;
    while row < t.anchors
        invariant
            t.wf(),
            info.wf(),
            t.channels >= 4,
            row <= t.anchors,
            dlen == t.data@.len(),
            out@ == decode_spec(*t, *info, row as int),
            all_ok(out@),
        decreases t.anchors as int - row,
    {
        let mut ms: i64 = 0;
        let mut mi: usize = 0;
        let mut col: usize = 4;
        while col < t.channels
            invariant
                t.wf(),
                t.channels >= 4,
                row < t.anchors,
                4 <= col <= t.channels,
                dlen == t.data@.len(),
                ms as int == scan_scores(*t, row as int, col as int).0,
                mi as int == scan_scores(*t, row as int, col as int).1,
                mi + 4 <= t.channels,
            decreases t.channels as int - col,
        {
            proof {
                assert(col * t.anchors as int + row < t.channels as int * t.anchors as int)
                    by (nonlinear_arith)
                    requires 0 <= col < t.channels as int, 0 <= row < t.anchors as int;
            }
            let idx = col * t.anchors + row;
            let v = t.data[idx];
            if v > ms {
                ms = v;
                mi = col - 4;
            }
            col += 1;
        }
        proof {
            assert(ms as int == anchor_score(*t, row as int));
            assert(mi as int == anchor_class(*t, row as int));
        }
        if ms > FLOOR_MILLI {
            proof {
                lemma_coord_values(*t, row as int);
                assert(4 * t.anchors as int <= t.channels as int * t.anchors as int)
                    by (nonlinear_arith)
                    requires t.channels as int >= 4, t.anchors as int >= 0;
                assert(0 * t.anchors as int + row == row as int);
                assert(1 * t.anchors as int + row == t.anchors as int + row);
                assert(row < 4 * t.anchors as int) by (nonlinear_arith)
                    requires 0 <= row < t.anchors as int;
                assert(t.anchors as int + row < 4 * t.anchors as int) by (nonlinear_arith)
                    requires 0 <= row < t.anchors as int;
                assert(2 * t.anchors as int + row < 4 * t.anchors as int) by (nonlinear_arith)
                    requires 0 <= row < t.anchors as int;
                assert(3 * t.anchors as int + row < 4 * t.anchors as int) by (nonlinear_arith)
                    requires 0 <= row < t.anchors as int;
            }
            let cx = t.data[row];
            let cy = t.data[t.anchors + row];
            let w = t.data[2 * t.anchors + row];
            let h = t.data[3 * t.anchors + row];
            proof {
                assert(cx as int == at(*t, 0, row as int));
                assert(cy as int == at(*t, 1, row as int));
                assert(w as int == at(*t, 2, row as int));
                assert(h as int == at(*t, 3, row as int));
            }
            let bx = scale_corner(cx, w, info.width, info.scaled_size);
            let by = scale_corner(cy, h, info.height, info.scaled_size);
            let bw = scale_extent(w, info.width, info.scaled_size);
            let bh = scale_extent(h, info.height, info.scaled_size);
            let cand = Candidate { x: bx, y: by, w: bw, h: bh, score: ms, class: mi as i64 };
            proof {
                assert(cand == cand_of(*t, row as int, *info));
            }
            out.push(cand);
        }
        proof {
            assert(decode_spec(*t, *info, row as int + 1) == if anchor_score(*t, row as int) > FLOOR_MILLI {
                decode_spec(*t, *info, row as int).push(cand_of(*t, row as int, *info))
            } else {
                decode_spec(*t, *info, row as int)
            });
        }
        row += 1;
    }
    out
}

/// Rescaled top-left corner coordinate `round((c - e/2) * dim / s)`,
/// computed as `round_div((2c - e) * dim, 2s)`.
fn scale_corner(c: i64, e: i64, dim: i64, s: i64) -> (r: i64)
    requires
        0 <= c <= VAL_LIMIT,
        0 <= e <= VAL_LIMIT,
        0 <= dim <= DIM_LIMIT,
        1 <= s <= DIM_LIMIT,
    ensures
        r == round_div((2 * c - e) * dim as int, 2 * s as int),
        -BOX_LIMIT <= r <= BOX_LIMIT,
{
    proof {
        assert(-(VAL_LIMIT as int * DIM_LIMIT as int) <= (2 * c - e) * dim as int
            <= 2 * VAL_LIMIT as int * DIM_LIMIT as int) by (nonlinear_arith)
            requires -VAL_LIMIT as int <= 2 * c - e <= 2 * VAL_LIMIT as int,
                0 <= dim as int <= DIM_LIMIT as int;
    }
    let num = (2 * c - e) * dim;
    proof {
        lemma_round_div_bound(num as int, 2 * s as int, 2 * VAL_LIMIT as int * DIM_LIMIT as int);
    }
    round_div_i64(num, 2 * s)
}

/// Rescaled extent `round(e * dim / s)`.
fn scale_extent(e: i64, dim: i64, s: i64) -> (r: i64)
    requires
        0 <= e <= VAL_LIMIT,
        0 <= dim <= DIM_LIMIT,
        1 <= s <= DIM_LIMIT,
    ensures
        r == round_div(e * dim as int, s as int),
        0 <= r <= BOX_LIMIT,
{
    proof {
        assert(0 <= e * dim as int <= VAL_LIMIT as int * DIM_LIMIT as int) by (nonlinear_arith)
            requires 0 <= e as int <= VAL_LIMIT as int, 0 <= dim as int <= DIM_LIMIT as int;
    }
    let num = e * dim;
    proof {
        lemma_round_div_bound(num as int, s as int, VAL_LIMIT as int * DIM_LIMIT as int);
        lemma_round_div_nonneg(num as int, s as int);
    }
    round_div_i64(num, s)
}

/// One exported detection: box corners in original-frame pixels, the
/// class index and the per-mille confidence score.
#[derive(Clone, Copy, Debug, PartialEq, Eq, Structural)]
pub struct BoxDetection {
    pub xmin: i64,
    pub ymin: i64,
    pub xmax: i64,
    pub ymax: i64,
    pub class: i64,
    pub conf: i64,
}

/// The detections of one frame, in NMS survivor order.
#[derive(Debug, PartialEq, Eq)]
pub struct Detections {
    pub detections: Vec<BoxDetection>,
}

/// The exported form of one surviving candidate:
/// `xmax = x + width`, `ymax = y + height`.
pub open spec fn box_of(c: Candidate) -> BoxDetection {
    BoxDetection {
        xmin: c.x,
        ymin: c.y,
        xmax: (c.x + c.w) as i64,
        ymax: (c.y + c.h) as i64,
        class: c.class,
        conf: c.score,
    }
}

pub open spec fn export_spec(s: Seq<Candidate>) -> Seq<BoxDetection> {
    Seq::new(s.len(), |i: int| box_of(s[i]))
}

/// Turn the NMS survivors into exported detections.
pub fn export(cands: &Vec<Candidate>) -> (r: Detections)
    requires
        all_ok(cands@),
    ensures
        r.detections@ == export_spec(cands@),
{
    let mut out: Vec<BoxDetection> = Vec::new();
    let mut i: usize = 0;
    while i < cands.len()
        invariant
            i <= cands@.len(),
            all_ok(cands@),
            out@.len() == i,
            forall|j: int| 0 <= j < i ==> #[trigger] out@[j] == box_of(cands@[j]),
        decreases cands@.len() - i,
    {
        let c = cands[i];
        out.push(BoxDetection {
            xmin: c.x,
            ymin: c.y,
            xmax: c.x + c.w,
            ymax: c.y + c.h,
            class: c.class,
            conf: c.score,
        });
        i += 1;
    }
    proof {
        assert(out@ =~= export_spec(cands@));
    }
    Detections { detections: out }
}

/// Exported boxes are well-formed: with nonnegative extents the corner
/// order `xmin <= xmax`, `ymin <= ymax` always holds.
pub proof fn lemma_export_box_order(s: Seq<Candidate>)
    requires
        all_ok(s),
    ensures
        forall|k: int| 0 <= k < export_spec(s).len()
            ==> (#[trigger] export_spec(s)[k]).xmin <= export_spec(s)[k].xmax
                && export_spec(s)[k].ymin <= export_spec(s)[k].ymax,
{
    assert forall|k: int| 0 <= k < export_spec(s).len()
        implies (#[trigger] export_spec(s)[k]).xmin <= export_spec(s)[k].xmax
            && export_spec(s)[k].ymin <= export_spec(s)[k].ymax by {
        assert(cand_ok(s[k]));
        assert(export_spec(s)[k] == box_of(s[k]));
    }
}

/// The complete decode stage as a mathematical function: decode each
/// anchor, apply the caller's confidence floor and greedy IoU
/// suppression, and export the survivors.
pub open spec fn detections_spec(t: Tensor, info: MatInfo, conf: int, nms_t: int) -> Seq<BoxDetection> {
    export_spec(nms_spec(decoded(t, info), conf, nms_t))
}

/// Post-process the model's raw tensor: validate its shape against the
/// expected channel count `4 + num_classes`, decode, suppress, export.
/// An empty tensor (no anchor above the fixed floor) yields an empty
/// detection list, not an error.
pub fn post_process(
    t: &Tensor,
    info: &MatInfo,
    num_classes: usize,
    conf_thresh_milli: i64,
    nms_thresh_milli: i64,
) -> (r: Result<Detections, DetectError>)
    requires
        t.wf(),
        info.wf(),
        0 <= nms_thresh_milli <= MILLI,
        num_classes <= usize::MAX - 4,
    ensures
        t.channels == 4 + num_classes ==> (r matches Ok(d)
            && d.detections@ == detections_spec(*t, *info, conf_thresh_milli as int, nms_thresh_milli as int)),
        t.channels != 4 + num_classes ==> (r matches Err(e) && e == DetectError::MalformedTensor),
{
    if t.channels != 4 + num_classes {
        return Err(DetectError::MalformedTensor);
    }
    let cands = decode_candidates(t, info);
    let kept = nms(&cands, conf_thresh_milli, nms_thresh_milli);
    Ok(export(&kept))
}

/// Decode floor: an anchor whose best class score is at or below the
/// fixed floor never contributes a candidate — every decode candidate
/// comes from an anchor whose best score strictly exceeds the floor, and
/// carries that anchor's score and class.
pub proof fn lemma_decode_floor(t: Tensor, info: MatInfo)
    ensures
        forall|k: int| 0 <= k < decoded(t, info).len()
            ==> exists|row: int| 0 <= row < t.anchors
                && anchor_score(t, row) > FLOOR_MILLI
                && #[trigger] decoded(t, info)[k] == cand_of(t, row, info),
{
    lemma_decode_floor_rec(t, info, t.anchors as int);
}

proof fn lemma_decode_floor_rec(t: Tensor, info: MatInfo, n: int)
    requires
        n <= t.anchors,
    ensures
        forall|k: int| 0 <= k < decode_spec(t, info, n).len()
            ==> exists|row: int| 0 <= row < t.anchors
                && anchor_score(t, row) > FLOOR_MILLI
                && #[trigger] decode_spec(t, info, n)[k] == cand_of(t, row, info),
    decreases n,
{
    if n > 0 {
        lemma_decode_floor_rec(t, info, n - 1);
        assert forall|k: int| 0 <= k < decode_spec(t, info, n).len()
            implies exists|row: int| 0 <= row < t.anchors
                && anchor_score(t, row) > FLOOR_MILLI
                && #[trigger] decode_spec(t, info, n)[k] == cand_of(t, row, info) by {
            if anchor_score(t, n - 1) > FLOOR_MILLI
                && k == decode_spec(t, info, n).len() - 1 {
                assert(decode_spec(t, info, n)[k] == cand_of(t, n - 1, info));
                assert(0 <= n - 1 < t.anchors
                    && anchor_score(t, n - 1) > FLOOR_MILLI
                    && decode_spec(t, info, n)[k] == cand_of(t, n - 1, info));
            } else {
                assert(decode_spec(t, info, n)[k] == decode_spec(t, info, n - 1)[k]);
            }
        }
    }
}

/// Coordinate round-trip: each decoded coordinate is exactly the stated
/// rounding of the exact rational rescaling — `x` differs from
/// `(cx - w/2) * width / s` by at most one half, and likewise for the
/// other three, with the extents scaled by their own axis. Stated with
/// every quantity multiplied by the positive denominator.
pub proof fn lemma_coordinate_round_trip(t: Tensor, info: MatInfo, row: int)
    requires
        t.wf(),
        info.wf(),
        t.channels >= 4,
        0 <= row < t.anchors,
    ensures
        ({
            let c = cand_of(t, row, info);
            let cx = at(t, 0, row);
            let cy = at(t, 1, row);
            let w = at(t, 2, row);
            let h = at(t, 3, row);
            let s = info.scaled_size as int;
            &&& -(2 * s) <= 2 * ((2 * cx - w) * info.width as int - c.x * (2 * s)) <= 2 * s
            &&& -(2 * s) <= 2 * ((2 * cy - h) * info.height as int - c.y * (2 * s)) <= 2 * s
            &&& -s <= 2 * (w * info.width as int - c.w * s) <= s
            &&& -s <= 2 * (h * info.height as int - c.h * s) <= s
        }),
{
    lemma_coord_values(t, row);
    let cx = at(t, 0, row);
    let cy = at(t, 1, row);
    let w = at(t, 2, row);
    let h = at(t, 3, row);
    let s = info.scaled_size as int;
    let big = 2 * VAL_LIMIT as int * DIM_LIMIT as int;
    assert(-big <= (2 * cx - w) * info.width as int <= big) by (nonlinear_arith)
        requires -VAL_LIMIT as int <= 2 * cx - w <= 2 * VAL_LIMIT as int,
            0 <= info.width as int <= DIM_LIMIT as int,
            big == 2 * VAL_LIMIT as int * DIM_LIMIT as int;
    assert(-big <= (2 * cy - h) * info.height as int <= big) by (nonlinear_arith)
        requires -VAL_LIMIT as int <= 2 * cy - h <= 2 * VAL_LIMIT as int,
            0 <= info.height as int <= DIM_LIMIT as int,
            big == 2 * VAL_LIMIT as int * DIM_LIMIT as int;
    assert(0 <= w * info.width as int <= big) by (nonlinear_arith)
        requires 0 <= w <= VAL_LIMIT as int, 0 <= info.width as int <= DIM_LIMIT as int,
            big == 2 * VAL_LIMIT as int * DIM_LIMIT as int;
    assert(0 <= h * info.height as int <= big) by (nonlinear_arith)
        requires 0 <= h <= VAL_LIMIT as int, 0 <= info.height as int <= DIM_LIMIT as int,
            big == 2 * VAL_LIMIT as int * DIM_LIMIT as int;
    lemma_round_div_bound((2 * cx - w) * info.width as int, 2 * s, big);
    lemma_round_div_bound((2 * cy - h) * info.height as int, 2 * s, big);
    lemma_round_div_bound(w * info.width as int, s, big);
    lemma_round_div_bound(h * info.height as int, s, big);
    crate::round::lemma_round_div_nearest((2 * cx - w) * info.width as int, 2 * s);
    crate::round::lemma_round_div_nearest((2 * cy - h) * info.height as int, 2 * s);
    crate::round::lemma_round_div_nearest(w * info.width as int, s);
    crate::round::lemma_round_div_nearest(h * info.height as int, s);
}

} // verus!
