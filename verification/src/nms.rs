//! Greedy non-max suppression over decoded detection candidates.
//!
//! All scores and thresholds are integers in thousandths (per-mille), and
//! IoU comparisons are done by exact cross-multiplication, so the whole
//! stage is integer arithmetic. Ties in score are broken toward the
//! candidate that appears first in the input order.

use vstd::prelude::*;

verus! {

/// Bound on candidate coordinates and extents; rescaled boxes produced by
/// the decoder stay well inside it, and it keeps every IoU product inside
/// 128-bit arithmetic.
pub const BOX_LIMIT: i64 = 0x40_0000_0000;

/// Denominator of the per-mille fixed-point scale used for scores,
/// confidence thresholds and IoU thresholds.
pub const MILLI: i64 = 1000;

/// One decode candidate: a rescaled box in original-frame pixels, its
/// per-mille confidence score and its class index.
#[derive(Clone, Copy, Debug, PartialEq, Eq, Structural)]
pub struct Candidate {
    pub x: i64,
    pub y: i64,
    pub w: i64,
    pub h: i64,
    pub score: i64,
    pub class: i64,
}

pub open spec fn imax(a: int, b: int) -> int {
    if a >= b { a } else { b }
}

pub open spec fn imin(a: int, b: int) -> int {
    if a <= b { a } else { b }
}

/// Candidate whose box fits the arithmetic bounds: nonnegative extents,
/// coordinates within `BOX_LIMIT`.
pub open spec fn cand_ok(c: Candidate) -> bool {
    &&& -BOX_LIMIT <= c.x <= BOX_LIMIT
    &&& -BOX_LIMIT <= c.y <= BOX_LIMIT
    &&& 0 <= c.w <= BOX_LIMIT
    &&& 0 <= c.h <= BOX_LIMIT
}

pub open spec fn all_ok(s: Seq<Candidate>) -> bool {
    forall|i: int| 0 <= i < s.len() ==> cand_ok(#[trigger] s[i])
}

/// Width of the overlap of the two boxes (zero when they do not overlap).
pub open spec fn inter_w(a: Candidate, b: Candidate) -> int {
    let lo = imax(a.x as int, b.x as int);
    let hi = imin(a.x + a.w, b.x + b.w);
    if hi > lo { hi - lo } else { 0 }
}

/// Height of the overlap of the two boxes (zero when they do not overlap).
pub open spec fn inter_h(a: Candidate, b: Candidate) -> int {
    let lo = imax(a.y as int, b.y as int);
    let hi = imin(a.y + a.h, b.y + b.h);
    if hi > lo { hi - lo } else { 0 }
}

pub open spec fn inter_area(a: Candidate, b: Candidate) -> int {
    inter_w(a, b) * inter_h(a, b)
}

pub open spec fn union_area(a: Candidate, b: Candidate) -> int {
    a.w * a.h + b.w * b.h - inter_area(a, b)
}

/// Whether the IoU of the two boxes strictly exceeds `t` thousandths,
/// decided by cross-multiplication: `inter / union > t / 1000` iff
/// `1000 * inter > t * union`. Two zero-area boxes have IoU treated as
/// zero, so they never suppress each other.
pub open spec fn iou_exceeds(a: Candidate, b: Candidate, t: int) -> bool {
    MILLI * inter_area(a, b) > t * union_area(a, b)
}

/// Executable IoU threshold test; exact, in 128-bit arithmetic.
pub fn iou_exceeds_exec(a: &Candidate, b: &Candidate, t_milli: i64) -> (r: bool)
    requires
        cand_ok(*a),
        cand_ok(*b),
        0 <= t_milli <= MILLI,
    ensures
        r == iou_exceeds(*a, *b, t_milli as int),
{
    let ax2: i128 = a.x as i128 + a.w as i128;
    let bx2: i128 = b.x as i128 + b.w as i128;
    let lox: i128 = if a.x >= b.x { a.x as i128 } else { b.x as i128 };
    let hix: i128 = if ax2 <= bx2 { ax2 } else { bx2 };
    let iw: i128 = if hix > lox { hix - lox } else { 0 };

    let ay2: i128 = a.y as i128 + a.h as i128;
    let by2: i128 = b.y as i128 + b.h as i128;
    let loy: i128 = if a.y >= b.y { a.y as i128 } else { b.y as i128 };
    let hiy: i128 = if ay2 <= by2 { ay2 } else { by2 };
    let ih: i128 = if hiy > loy { hiy - loy } else { 0 };

    proof {
        assert(0 <= iw <= 2 * BOX_LIMIT);
        assert(0 <= ih <= 2 * BOX_LIMIT);
        assert(iw * ih <= (2 * BOX_LIMIT) * (2 * BOX_LIMIT)) by (nonlinear_arith)
            requires 0 <= iw <= 2 * BOX_LIMIT, 0 <= ih <= 2 * BOX_LIMIT;
        assert(a.w as int * a.h as int <= BOX_LIMIT * BOX_LIMIT) by (nonlinear_arith)
            requires 0 <= a.w <= BOX_LIMIT, 0 <= a.h <= BOX_LIMIT;
        assert(b.w as int * b.h as int <= BOX_LIMIT * BOX_LIMIT) by (nonlinear_arith)
            requires 0 <= b.w <= BOX_LIMIT, 0 <= b.h <= BOX_LIMIT;
        assert(a.w as int * a.h as int >= 0) by (nonlinear_arith)
            requires 0 <= a.w, 0 <= a.h;
        assert(b.w as int * b.h as int >= 0) by (nonlinear_arith)
            requires 0 <= b.w, 0 <= b.h;
        assert(iw * ih >= 0) by (nonlinear_arith)
            requires 0 <= iw, 0 <= ih;
    }
    let inter: i128 = iw * ih;
    let area_a: i128 = a.w as i128 * a.h as i128;
    let area_b: i128 = b.w as i128 * b.h as i128;
    let uni: i128 = area_a + area_b - inter;
    proof {
        let big = (2 * BOX_LIMIT) * (2 * BOX_LIMIT) + 2 * (BOX_LIMIT * BOX_LIMIT);
        assert((MILLI as int) * inter <= (MILLI as int) * ((2 * BOX_LIMIT) * (2 * BOX_LIMIT)))
            by (nonlinear_arith)
            requires inter <= (2 * BOX_LIMIT) * (2 * BOX_LIMIT), 0 < MILLI;
        assert((MILLI as int) * inter >= 0) by (nonlinear_arith)
            requires inter >= 0, 0 < MILLI;
        assert((t_milli as int) * uni <= (MILLI as int) * big && (t_milli as int) * uni >= -((MILLI as int) * big))
            by (nonlinear_arith)
            requires -big <= uni <= big, 0 <= t_milli <= MILLI, big > 0;
    }
    MILLI as i128 * inter > t_milli as i128 * uni
}

/// The candidates of `s` whose score strictly exceeds `conf`, in order.
pub open spec fn keep_above(s: Seq<Candidate>, conf: int) -> Seq<Candidate>
    decreases s.len(),
{
    if s.len() == 0 {
        Seq::empty()
    } else {
        let rest = keep_above(s.drop_last(), conf);
        if s.last().score > conf { rest.push(s.last()) } else { rest }
    }
}

/// The candidates of `s` not suppressed by `sel`, in order.
pub open spec fn keep_far(sel: Candidate, s: Seq<Candidate>, t: int) -> Seq<Candidate>
    decreases s.len(),
{
    if s.len() == 0 {
        Seq::empty()
    } else {
        let rest = keep_far(sel, s.drop_last(), t);
        if !iou_exceeds(sel, s.last(), t) { rest.push(s.last()) } else { rest }
    }
}

/// Index of the highest-scoring candidate, earliest index on ties.
pub open spec fn best_idx(s: Seq<Candidate>) -> int
    decreases s.len(),
{
    if s.len() <= 1 {
        0
    } else {
        let b = best_idx(s.drop_last());
        if s.last().score > s[b].score { s.len() - 1 } else { b }
    }
}

pub proof fn lemma_best_idx(s: Seq<Candidate>)
    requires
        s.len() > 0,
    ensures
        0 <= best_idx(s) < s.len(),
        forall|i: int| 0 <= i < s.len() ==> (#[trigger] s[i]).score <= s[best_idx(s)].score,
        forall|i: int| 0 <= i < best_idx(s) ==> (#[trigger] s[i]).score < s[best_idx(s)].score,
    decreases s.len(),
{
    if s.len() > 1 {
        lemma_best_idx(s.drop_last());
        assert(forall|i: int| 0 <= i < s.len() - 1 ==> s.drop_last()[i] == #[trigger] s[i]);
    }
}

pub proof fn lemma_keep_far_len(sel: Candidate, s: Seq<Candidate>, t: int)
    ensures
        keep_far(sel, s, t).len() <= s.len(),
    decreases s.len(),
{
    if s.len() > 0 {
        lemma_keep_far_len(sel, s.drop_last(), t);
    }
}

pub proof fn lemma_keep_far_mem(sel: Candidate, s: Seq<Candidate>, t: int)
    ensures
        forall|k: int| 0 <= k < keep_far(sel, s, t).len()
            ==> s.contains(#[trigger] keep_far(sel, s, t)[k])
                && !iou_exceeds(sel, keep_far(sel, s, t)[k], t),
    decreases s.len(),
{
    if s.len() > 0 {
        lemma_keep_far_mem(sel, s.drop_last(), t);
        assert forall|k: int| 0 <= k < keep_far(sel, s, t).len()
            implies s.contains(#[trigger] keep_far(sel, s, t)[k])
                && !iou_exceeds(sel, keep_far(sel, s, t)[k], t) by {
            let x = keep_far(sel, s, t)[k];
            if !iou_exceeds(sel, s.last(), t) && k == keep_far(sel, s, t).len() - 1 {
                assert(x == s.last());
                assert(s[s.len() - 1] == x);
            } else {
                assert(x == keep_far(sel, s.drop_last(), t)[k]);
                assert(s.drop_last().contains(x));
                let j = choose|j: int| 0 <= j < s.drop_last().len() && s.drop_last()[j] == x;
                assert(s[j] == x);
            }
        }
    }
}

pub proof fn lemma_keep_far_all(sel: Candidate, s: Seq<Candidate>, t: int)
    requires
        forall|i: int| 0 <= i < s.len() ==> !iou_exceeds(sel, #[trigger] s[i], t),
    ensures
        keep_far(sel, s, t) == s,
    decreases s.len(),
{
    if s.len() > 0 {
        assert(forall|i: int| 0 <= i < s.len() - 1 ==> s.drop_last()[i] == #[trigger] s[i]);
        lemma_keep_far_all(sel, s.drop_last(), t);
        assert(s[s.len() - 1] == s.last());
        assert(keep_far(sel, s, t) =~= s);
    }
}

pub proof fn lemma_keep_above_mem(s: Seq<Candidate>, conf: int)
    ensures
        forall|k: int| 0 <= k < keep_above(s, conf).len()
            ==> s.contains(#[trigger] keep_above(s, conf)[k])
                && keep_above(s, conf)[k].score > conf,
    decreases s.len(),
{
    if s.len() > 0 {
        lemma_keep_above_mem(s.drop_last(), conf);
        assert forall|k: int| 0 <= k < keep_above(s, conf).len()
            implies s.contains(#[trigger] keep_above(s, conf)[k])
                && keep_above(s, conf)[k].score > conf by {
            let x = keep_above(s, conf)[k];
            if s.last().score > conf && k == keep_above(s, conf).len() - 1 {
                assert(x == s.last());
                assert(s[s.len() - 1] == x);
            } else {
                assert(x == keep_above(s.drop_last(), conf)[k]);
                assert(s.drop_last().contains(x));
                let j = choose|j: int| 0 <= j < s.drop_last().len() && s.drop_last()[j] == x;
                assert(s[j] == x);
            }
        }
    }
}

pub proof fn lemma_keep_above_all(s: Seq<Candidate>, conf: int)
    requires
        forall|i: int| 0 <= i < s.len() ==> (#[trigger] s[i]).score > conf,
    ensures
        keep_above(s, conf) == s,
    decreases s.len(),
{
    if s.len() > 0 {
        assert(forall|i: int| 0 <= i < s.len() - 1 ==> s.drop_last()[i] == #[trigger] s[i]);
        lemma_keep_above_all(s.drop_last(), conf);
        assert(s[s.len() - 1] == s.last());
        assert(keep_above(s, conf) =~= s);
    }
}

/// Greedy suppression loop: repeatedly select the highest-scoring
/// remaining candidate (earliest on ties), emit it, and drop every
/// remaining candidate whose IoU with it exceeds `t`.
pub open spec fn nms_loop(s: Seq<Candidate>, t: int) -> Seq<Candidate>
    decreases s.len(),
    via nms_loop_decreases
{
    if s.len() == 0 {
        Seq::empty()
    } else {
        let b = best_idx(s);
        let sel = s[b];
        seq![sel] + nms_loop(keep_far(sel, s.remove(b), t), t)
    }
}

#[via_fn]
proof fn nms_loop_decreases(s: Seq<Candidate>, t: int) {
    if s.len() > 0 {
        let b = best_idx(s);
        lemma_best_idx(s);
        lemma_keep_far_len(s[b], s.remove(b), t);
    }
}

/// The whole suppression stage: the caller-supplied confidence floor,
/// then the greedy IoU suppression loop.
pub open spec fn nms_spec(s: Seq<Candidate>, conf: int, t: int) -> Seq<Candidate> {
    nms_loop(keep_above(s, conf), t)
}

pub proof fn lemma_nms_loop_mem(s: Seq<Candidate>, t: int)
    ensures
        forall|k: int| 0 <= k < nms_loop(s, t).len() ==> s.contains(#[trigger] nms_loop(s, t)[k]),
        nms_loop(s, t).len() <= s.len(),
    decreases s.len(),
{
    if s.len() > 0 {
        let b = best_idx(s);
        lemma_best_idx(s);
        let sel = s[b];
        let rem = s.remove(b);
        s.remove_ensures(b);
        let rest = keep_far(sel, rem, t);
        lemma_keep_far_len(sel, rem, t);
        lemma_keep_far_mem(sel, rem, t);
        lemma_nms_loop_mem(rest, t);
        assert forall|k: int| 0 <= k < nms_loop(s, t).len()
            implies s.contains(#[trigger] nms_loop(s, t)[k]) by {
            let x = nms_loop(s, t)[k];
            if k == 0 {
                assert(s[b] == x);
            } else {
                assert(x == nms_loop(rest, t)[k - 1]);
                assert(rest.contains(x));
                let j = choose|j: int| 0 <= j < rest.len() && rest[j] == x;
                assert(rem.contains(x));
                let i = choose|i: int| 0 <= i < rem.len() && rem[i] == x;
                if i < b {
                    assert(s[i] == x);
                } else {
                    assert(s[i + 1] == x);
                }
            }
        }
    }
}

/// A candidate set is `reduced` when it is weakly descending in score and
/// no pair of its members exceeds the IoU threshold.
pub open spec fn reduced(s: Seq<Candidate>, t: int) -> bool {
    forall|i: int, j: int| 0 <= i < j < s.len()
        ==> (#[trigger] s[i]).score >= (#[trigger] s[j]).score && !iou_exceeds(s[i], s[j], t)
}

pub proof fn lemma_nms_loop_reduced(s: Seq<Candidate>, t: int)
    ensures
        reduced(nms_loop(s, t), t),
    decreases s.len(),
{
    if s.len() > 0 {
        let b = best_idx(s);
        lemma_best_idx(s);
        let sel = s[b];
        let rem = s.remove(b);
        s.remove_ensures(b);
        let rest = keep_far(sel, rem, t);
        lemma_keep_far_len(sel, rem, t);
        lemma_keep_far_mem(sel, rem, t);
        lemma_nms_loop_mem(rest, t);
        lemma_nms_loop_reduced(rest, t);
        let o = nms_loop(s, t);
        assert forall|i: int, j: int| 0 <= i < j < o.len()
            implies (#[trigger] o[i]).score >= (#[trigger] o[j]).score
                && !iou_exceeds(o[i], o[j], t) by {
            if i == 0 {
                let x = nms_loop(rest, t)[j - 1];
                assert(o[j] == x);
                assert(rest.contains(x));
                let jj = choose|jj: int| 0 <= jj < rest.len() && rest[jj] == x;
                assert(!iou_exceeds(sel, x, t));
                assert(rem.contains(x));
                let ii = choose|ii: int| 0 <= ii < rem.len() && rem[ii] == x;
                if ii < b {
                    assert(s[ii] == x);
                } else {
                    assert(s[ii + 1] == x);
                }
                assert(x.score <= sel.score);
            } else {
                assert(o[i] == nms_loop(rest, t)[i - 1]);
                assert(o[j] == nms_loop(rest, t)[j - 1]);
            }
        }
    }
}

/// On a reduced set the greedy loop removes nothing: it returns its input.
pub proof fn lemma_nms_loop_fixed(s: Seq<Candidate>, t: int)
    requires
        reduced(s, t),
    ensures
        nms_loop(s, t) == s,
    decreases s.len(),
{
    if s.len() > 0 {
        let b = best_idx(s);
        lemma_best_idx(s);
        if b > 0 {
            assert(s[0].score >= s[b].score);
            assert(s[0].score < s[b].score);
        }
        assert(b == 0);
        let sel = s[0];
        let rem = s.remove(0);
        s.remove_ensures(0);
        assert(forall|i: int| 0 <= i < rem.len() ==> #[trigger] rem[i] == s[i + 1]);
        assert forall|i: int| 0 <= i < rem.len() implies !iou_exceeds(sel, #[trigger] rem[i], t) by {
            assert(rem[i] == s[i + 1]);
        }
        lemma_keep_far_all(sel, rem, t);
        assert forall|i: int, j: int| 0 <= i < j < rem.len()
            implies (#[trigger] rem[i]).score >= (#[trigger] rem[j]).score
                && !iou_exceeds(rem[i], rem[j], t) by {
            assert(rem[i] == s[i + 1]);
            assert(rem[j] == s[j + 1]);
        }
        lemma_nms_loop_fixed(rem, t);
        assert(nms_loop(s, t) =~= s);
    }
}

/// Suppression is idempotent: running the whole stage a second time on
/// its own output changes nothing.
pub proof fn lemma_nms_idempotent(s: Seq<Candidate>, conf: int, t: int)
    ensures
        nms_spec(nms_spec(s, conf, t), conf, t) == nms_spec(s, conf, t),
{
    let f = keep_above(s, conf);
    let o = nms_loop(f, t);
    lemma_keep_above_mem(s, conf);
    lemma_nms_loop_mem(f, t);
    assert forall|k: int| 0 <= k < o.len() implies (#[trigger] o[k]).score > conf by {
        assert(f.contains(o[k]));
        let j = choose|j: int| 0 <= j < f.len() && f[j] == o[k];
    }
    lemma_keep_above_all(o, conf);
    lemma_nms_loop_reduced(f, t);
    lemma_nms_loop_fixed(o, t);
}

proof fn lemma_all_ok_from_contains(a: Seq<Candidate>, b: Seq<Candidate>)
    requires
        all_ok(b),
        forall|k: int| 0 <= k < a.len() ==> b.contains(#[trigger] a[k]),
    ensures
        all_ok(a),
{
    assert forall|k: int| 0 <= k < a.len() implies cand_ok(#[trigger] a[k]) by {
        assert(b.contains(a[k]));
        let j = choose|j: int| 0 <= j < b.len() && b[j] == a[k];
    }
}

/// Executable non-max suppression: drops candidates at or below
/// `conf_milli`, then greedily suppresses by IoU above `nms_milli`.
pub fn nms(cands: &Vec<Candidate>, conf_milli: i64, nms_milli: i64) -> (r: Vec<Candidate>)
    requires
        all_ok(cands@),
        0 <= nms_milli <= MILLI,
    ensures
        r@ == nms_spec(cands@, conf_milli as int, nms_milli as int),
        all_ok(r@),
{
    let ghost t: int = nms_milli as int;
    let ghost conf: int = conf_milli as int;

    let mut work: Vec<Candidate> = Vec::new();
    let mut i: usize = 0;
    while i < cands.len()
        invariant
            i <= cands@.len(),
            all_ok(cands@),
            work@ == keep_above(cands@.take(i as int), conf),
            conf == conf_milli as int,
        decreases cands@.len() - i,
    {
        let c = cands[i];
        proof {
            assert(cands@.take(i as int + 1).drop_last() =~= cands@.take(i as int));
            assert(cands@.take(i as int + 1).last() == cands@[i as int]);
        }
        if c.score > conf_milli {
            work.push(c);
        }
        i += 1;
    }
    proof {
        assert(cands@.take(cands@.len() as int) =~= cands@);
        lemma_keep_above_mem(cands@, conf);
        lemma_all_ok_from_contains(work@, cands@);
    }

    let mut out: Vec<Candidate> = Vec::new();
    proof {
        assert(out@ + nms_loop(work@, t) =~= nms_loop(work@, t));
    }
    while work.len() > 0
        invariant
            all_ok(work@),
            all_ok(out@),
            out@ + nms_loop(work@, t) == nms_spec(cands@, conf, t),
            t == nms_milli as int,
            0 <= nms_milli <= MILLI,
        decreases work@.len(),
    {
        let ghost w0 = work@;
        let mut b: usize = 0;
        let mut j: usize = 1;
        while j < work.len()
            invariant
                work@.len() > 0,
                1 <= j <= work@.len(),
                b < j,
                b == best_idx(work@.take(j as int)),
            decreases work@.len() - j,
        {
            proof {
                assert(work@.take(j as int + 1).drop_last() =~= work@.take(j as int));
                assert(work@.take(j as int + 1).last() == work@[j as int]);
            }
            if work[j].score > work[b].score {
                b = j;
            }
            j += 1;
        }
        proof {
            assert(work@.take(work@.len() as int) =~= work@);
            assert(b == best_idx(w0));
            lemma_best_idx(w0);
        }
        let sel = work.remove(b);
        assert(sel == w0[b as int]);
        out.push(sel);

        let mut next: Vec<Candidate> = Vec::new();
        let mut k: usize = 0;
        proof {
            s_remove_all_ok(w0, b as int);
        }
        while k < work.len()
            invariant
                k <= work@.len(),
                all_ok(work@),
                cand_ok(sel),
                0 <= nms_milli <= MILLI,
                t == nms_milli as int,
                next@ == keep_far(sel, work@.take(k as int), t),
            decreases work@.len() - k,
        {
            let c = work[k];
            proof {
                assert(work@.take(k as int + 1).drop_last() =~= work@.take(k as int));
                assert(work@.take(k as int + 1).last() == work@[k as int]);
            }
            if !iou_exceeds_exec(&sel, &c, nms_milli) {
                next.push(c);
            }
            k += 1;
        }
        proof {
            assert(work@.take(work@.len() as int) =~= work@);
        }
        let ghost rem = w0.remove(b as int);
        work = next;
        proof {
            assert(work@ == keep_far(sel, rem, t));
            lemma_keep_far_len(sel, rem, t);
            w0.remove_ensures(b as int);
            lemma_keep_far_mem(sel, rem, t);
            lemma_all_ok_from_contains(work@, rem);
            assert(nms_loop(w0, t) == seq![sel] + nms_loop(work@, t));
            assert(out@ + nms_loop(work@, t) =~= out@.drop_last() + nms_loop(w0, t));
        }
    }
    proof {
        assert(nms_loop(work@, t) =~= Seq::<Candidate>::empty());
        assert(out@ + nms_loop(work@, t) =~= out@);
    }
    out
}

proof fn s_remove_all_ok(s: Seq<Candidate>, i: int)
    requires
        all_ok(s),
        0 <= i < s.len(),
    ensures
        all_ok(s.remove(i)),
{
    s.remove_ensures(i);
    assert forall|k: int| 0 <= k < s.remove(i).len() implies cand_ok(#[trigger] s.remove(i)[k]) by {
        if k < i {
            assert(s.remove(i)[k] == s[k]);
        } else {
            assert(s.remove(i)[k] == s[k + 1]);
        }
    }
}

} // verus!
