//! Detection boxes, intersection-over-union, and non-maximum suppression.
//!
//! Coordinates, scores and thresholds are fixed-point numbers: the real value
//! is the stored integer divided by `SCALE`.  A box coordinate of `15625`
//! therefore means `1.5625` pixels, and a threshold of `5000` means `0.5`.

use vstd::prelude::*;

verus! {

/// Fixed-point unit: stored values are real values multiplied by `SCALE`.
pub const SCALE: i64 = 10_000;

/// Largest coordinate magnitude the geometry accepts; keeps every product
/// taken while comparing intersection-over-union against a threshold inside
/// `i128`.
pub const MAX_COORD: i64 = 1_000_000_000_000_000;

/// One detection in original-image coordinates (fixed point, `SCALE` units
/// per pixel).  `score` is the model confidence in `SCALE` units; `class` is
/// an index into the model's class list.
#[derive(Clone, Copy, Debug, PartialEq, Eq, Structural)]
pub struct Bbox {
    pub x1: i64,
    pub y1: i64,
    pub x2: i64,
    pub y2: i64,
    pub score: i64,
    pub class: usize,
}

pub open spec fn smax(a: int, b: int) -> int {
    if a >= b {
        a
    } else {
        b
    }
}

pub open spec fn smin(a: int, b: int) -> int {
    if a <= b {
        a
    } else {
        b
    }
}

/// Coordinates small enough for exact IoU arithmetic.
pub open spec fn wf_bbox(b: Bbox) -> bool {
    &&& 0 <= b.x1 <= MAX_COORD
    &&& 0 <= b.y1 <= MAX_COORD
    &&& 0 <= b.x2 <= MAX_COORD
    &&& 0 <= b.y2 <= MAX_COORD
}

pub open spec fn all_wf(s: Seq<Bbox>) -> bool {
    forall|i: int| 0 <= i < s.len() ==> wf_bbox(s[i])
}

/// Signed area of a box (negative when the corners are out of order).
pub open spec fn spec_area(b: Bbox) -> int {
    (b.x2 - b.x1) * (b.y2 - b.y1)
}

/// Area of the intersection of two boxes; zero when they do not overlap.
pub open spec fn spec_inter(a: Bbox, b: Bbox) -> int {
    smax(0, smin(a.x2 as int, b.x2 as int) - smax(a.x1 as int, b.x1 as int)) * smax(
        0,
        smin(a.y2 as int, b.y2 as int) - smax(a.y1 as int, b.y1 as int),
    )
}

pub open spec fn spec_union(a: Bbox, b: Bbox) -> int {
    spec_area(a) + spec_area(b) - spec_inter(a, b)
}

/// Whether the intersection-over-union of two boxes reaches threshold `t`
/// (`t` in `SCALE` units).  An empty union counts as an IoU of zero.
pub open spec fn spec_iou_ge(a: Bbox, b: Bbox, t: i64) -> bool {
    if spec_union(a, b) <= 0 {
        0 >= t
    } else {
        spec_inter(a, b) * SCALE >= t * spec_union(a, b)
    }
}

/// IoU does not depend on the order of its two boxes.
pub proof fn lemma_iou_ge_symmetric(a: Bbox, b: Bbox, t: i64)
    ensures
        spec_iou_ge(a, b, t) == spec_iou_ge(b, a, t),
{
    assert(spec_inter(a, b) == spec_inter(b, a));
    assert(spec_union(a, b) == spec_union(b, a));
}

proof fn lemma_area_bound(b: Bbox)
    requires
        wf_bbox(b),
    ensures
        -(1_000_000_000_000_000_000_000_000_000_000int) <= spec_area(b)
            <= 1_000_000_000_000_000_000_000_000_000_000int,
{
    assert(-(1_000_000_000_000_000_000_000_000_000_000int) <= (b.x2 - b.x1) * (b.y2 - b.y1)
        <= 1_000_000_000_000_000_000_000_000_000_000int) by (nonlinear_arith)
        requires
            -1_000_000_000_000_000 <= b.x2 - b.x1 <= 1_000_000_000_000_000,
            -1_000_000_000_000_000 <= b.y2 - b.y1 <= 1_000_000_000_000_000,
    ;
}

proof fn lemma_inter_bound(a: Bbox, b: Bbox)
    requires
        wf_bbox(a),
        wf_bbox(b),
    ensures
        0 <= spec_inter(a, b) <= 1_000_000_000_000_000_000_000_000_000_000int,
{
    let w = smax(0, smin(a.x2 as int, b.x2 as int) - smax(a.x1 as int, b.x1 as int));
    let h = smax(0, smin(a.y2 as int, b.y2 as int) - smax(a.y1 as int, b.y1 as int));
    assert(0 <= w * h <= 1_000_000_000_000_000_000_000_000_000_000int) by (nonlinear_arith)
        requires
            0 <= w <= 1_000_000_000_000_000,
            0 <= h <= 1_000_000_000_000_000,
    ;
}

/// Compare the IoU of two boxes against threshold `t` with exact integer
/// arithmetic.
pub fn iou_ge(a: &Bbox, b: &Bbox, t: i64) -> (r: bool)
    requires
        wf_bbox(*a),
        wf_bbox(*b),
        0 <= t <= SCALE,
    ensures
        r == spec_iou_ge(*a, *b, t),
{
    let ix1 = if a.x1 >= b.x1 {
        a.x1
    } else {
        b.x1
    };
    let ix2 = if a.x2 <= b.x2 {
        a.x2
    } else {
        b.x2
    };
    let iy1 = if a.y1 >= b.y1 {
        a.y1
    } else {
        b.y1
    };
    let iy2 = if a.y2 <= b.y2 {
        a.y2
    } else {
        b.y2
    };
    let iw: i128 = if ix2 > ix1 {
        (ix2 - ix1) as i128
    } else {
        0
    };
    let ih: i128 = if iy2 > iy1 {
        (iy2 - iy1) as i128
    } else {
        0
    };
    proof {
        assert(0 <= iw * ih <= 1_000_000_000_000_000_000_000_000_000_000int) by (nonlinear_arith)
            requires
                0 <= iw <= 1_000_000_000_000_000,
                0 <= ih <= 1_000_000_000_000_000,
        ;
    }
    let inter: i128 = iw * ih;
    proof {
        lemma_area_bound(*a);
        lemma_area_bound(*b);
        lemma_inter_bound(*a, *b);
        assert((a.x2 - a.x1) as i128 * (a.y2 - a.y1) as i128 == spec_area(*a));
        assert((b.x2 - b.x1) as i128 * (b.y2 - b.y1) as i128 == spec_area(*b));
    }
    let area_a: i128 = (a.x2 - a.x1) as i128 * (a.y2 - a.y1) as i128;
    let area_b: i128 = (b.x2 - b.x1) as i128 * (b.y2 - b.y1) as i128;
    let un: i128 = area_a + area_b - inter;
    if un <= 0 {
        0 >= t
    } else {
        proof {
            assert(inter * (SCALE as i128) <= 10_000_000_000_000_000_000_000_000_000_000_000int)
                by (nonlinear_arith)
                requires
                    0 <= inter <= 1_000_000_000_000_000_000_000_000_000_000int,
            ;
            assert((t as i128) * un <= 30_000_000_000_000_000_000_000_000_000_000_000int
                && (t as i128) * un >= 0) by (nonlinear_arith)
                requires
                    0 <= t <= 10_000,
                    0 < un <= 3_000_000_000_000_000_000_000_000_000_000int,
            ;
        }
        inter * (SCALE as i128) >= (t as i128) * un
    }
}

/// Scores never increase along the sequence.
pub open spec fn sorted_desc(s: Seq<Bbox>) -> bool {
    forall|i: int, j: int| 0 <= i < j < s.len() ==> s[i].score >= s[j].score
}

/// Every element of `a` occurs somewhere in `b`.
pub open spec fn seq_subset(a: Seq<Bbox>, b: Seq<Bbox>) -> bool {
    forall|i: int| 0 <= i < a.len() ==> b.contains(a[i])
}

/// Number of boxes of class `c` in the sequence.
pub open spec fn count_class(s: Seq<Bbox>, c: usize) -> nat
    decreases s.len(),
{
    if s.len() == 0 {
        0
    } else {
        count_class(s.drop_last(), c) + (if s.last().class == c {
            1nat
        } else {
            0nat
        })
    }
}

pub proof fn lemma_count_class_concat(a: Seq<Bbox>, b: Seq<Bbox>, c: usize)
    ensures
        count_class(a + b, c) == count_class(a, c) + count_class(b, c),
    decreases b.len(),
{
    if b.len() == 0 {
        assert(a + b =~= a);
    } else {
        lemma_count_class_concat(a, b.drop_last(), c);
        assert((a + b).drop_last() =~= a + b.drop_last());
        assert((a + b).last() == b.last());
    }
}

pub proof fn lemma_count_class_none(s: Seq<Bbox>, c: usize)
    requires
        forall|i: int| 0 <= i < s.len() ==> s[i].class != c,
    ensures
        count_class(s, c) == 0,
    decreases s.len(),
{
    if s.len() > 0 {
        lemma_count_class_none(s.drop_last(), c);
    }
}

pub proof fn lemma_count_class_bound(s: Seq<Bbox>, c: usize)
    ensures
        count_class(s, c) <= s.len(),
    decreases s.len(),
{
    if s.len() > 0 {
        lemma_count_class_bound(s.drop_last(), c);
    }
}

/// Sort boxes by descending score (selection of the first maximum, so the
/// earliest top-scoring box comes out first).
fn sort_by_score_desc(v: Vec<Bbox>) -> (r: Vec<Bbox>)
    ensures
        r@.len() == v@.len(),
        sorted_desc(r@),
        seq_subset(r@, v@),
        seq_subset(v@, r@),
{
    let mut rest = v;
    let ghost orig = rest@;
    let mut out: Vec<Bbox> = Vec::new();
    while rest.len() > 0
        invariant
            out@.len() + rest@.len() == orig.len(),
            sorted_desc(out@),
            seq_subset(out@, orig),
            seq_subset(rest@, orig),
            forall|j: int| 0 <= j < orig.len() ==> out@.contains(orig[j]) || rest@.contains(orig[j]),
            forall|i: int, j: int|
                0 <= i < out@.len() && 0 <= j < rest@.len() ==> out@[i].score >= rest@[j].score,
        decreases rest@.len(),
    {
        let mut k: usize = 1;
        let mut m: usize = 0;
        while k < rest.len()
            invariant
                0 < rest@.len(),
                m < k <= rest@.len(),
                forall|j: int| 0 <= j < k ==> rest@[m as int].score >= rest@[j].score,
            decreases rest@.len() - k,
        {
            if rest[k].score > rest[m].score {
                m = k;
            }
            k = k + 1;
        }
        let ghost pre = rest@;
        let ghost pre_out = out@;
        let b = rest.remove(m);
        out.push(b);
        proof {
            assert(pre.contains(b)) by {
                assert(pre[m as int] == b);
            }
            assert forall|j: int| 0 <= j < rest@.len() implies pre.contains(rest@[j]) by {
                if j < m {
                    assert(rest@[j] == pre[j]);
                } else {
                    assert(rest@[j] == pre[j + 1]);
                }
            }
            assert forall|j: int| 0 <= j < orig.len() implies out@.contains(orig[j])
                || rest@.contains(orig[j]) by {
                if pre_out.contains(orig[j]) {
                    let i = choose|i: int| 0 <= i < pre_out.len() && pre_out[i] == orig[j];
                    assert(out@[i] == orig[j]);
                } else {
                    assert(pre.contains(orig[j]));
                    let i = choose|i: int| 0 <= i < pre.len() && pre[i] == orig[j];
                    if i == m {
                        assert(out@[out@.len() - 1] == orig[j]);
                    } else if i < m {
                        assert(rest@[i] == orig[j]);
                    } else {
                        assert(rest@[i - 1] == orig[j]);
                    }
                }
            }
            assert forall|i: int, j: int|
                0 <= i < out@.len() && 0 <= j < rest@.len() implies out@[i].score
                >= rest@[j].score by {
                if j < m {
                    assert(rest@[j] == pre[j]);
                } else {
                    assert(rest@[j] == pre[j + 1]);
                }
            }
        }
    }
    out
}

/// Non-maximum suppression over one candidate list, already sorted by
/// descending score: repeatedly keep the best remaining box and drop every
/// later box whose IoU with it reaches `t`, stopping before the output would
/// exceed `topk` boxes.
fn nms_core(cands: Vec<Bbox>, topk: usize, t: i64) -> (r: Vec<Bbox>)
    requires
        all_wf(cands@),
        0 <= t <= SCALE,
        sorted_desc(cands@),
    ensures
        r@.len() <= topk,
        seq_subset(r@, cands@),
        sorted_desc(r@),
        forall|i: int, j: int| 0 <= i < j < r@.len() ==> !spec_iou_ge(r@[i], r@[j], t),
        cands@.len() > 0 && topk > 0 ==> r@.len() > 0 && r@[0] == cands@[0],
{
    let ghost orig = cands@;
    let mut rest = cands;
    let mut out: Vec<Bbox> = Vec::new();
    while rest.len() > 0 && out.len() < topk
        invariant
            all_wf(orig),
            0 <= t <= SCALE,
            sorted_desc(orig),
            seq_subset(out@, orig),
            seq_subset(rest@, orig),
            sorted_desc(out@),
            sorted_desc(rest@),
            out@.len() <= topk,
            forall|i: int, j: int| 0 <= i < j < out@.len() ==> !spec_iou_ge(out@[i], out@[j], t),
            forall|i: int, j: int|
                0 <= i < out@.len() && 0 <= j < rest@.len() ==> !spec_iou_ge(
                    out@[i],
                    rest@[j],
                    t,
                ),
            forall|i: int, j: int|
                0 <= i < out@.len() && 0 <= j < rest@.len() ==> out@[i].score >= rest@[j].score,
            orig.len() > 0 && topk > 0 ==> (out@.len() > 0 ==> out@[0] == orig[0]),
            orig.len() > 0 && topk > 0 ==> (out@.len() > 0 || rest@ == orig),
        decreases rest@.len(),
    {
        let ghost pre = rest@;
        let best = rest.remove(0);
        proof {
            assert(pre.contains(best)) by {
                assert(pre[0] == best);
            }
            assert(orig.contains(best)) by {
                assert(orig.contains(pre[0]));
            }
            let x = choose|x: int| 0 <= x < orig.len() && orig[x] == best;
            assert(wf_bbox(best)) by {
                assert(wf_bbox(orig[x]));
            }
            assert forall|j: int| 0 <= j < rest@.len() implies pre.contains(rest@[j]) by {
                assert(rest@[j] == pre[j + 1]);
            }
            assert forall|j: int| 0 <= j < rest@.len() implies orig.contains(rest@[j]) by {
                assert(rest@[j] == pre[j + 1]);
                assert(orig.contains(pre[j + 1]));
            }
        }
        out.push(best);
        let mut kept: Vec<Bbox> = Vec::new();
        let mut i: usize = 0;
        while i < rest.len()
            invariant
                all_wf(orig),
                0 <= t <= SCALE,
                i <= rest@.len(),
                kept@.len() <= i,
                seq_subset(rest@, orig),
                seq_subset(kept@, rest@.take(i as int)),
                sorted_desc(rest@),
                sorted_desc(kept@),
                wf_bbox(best),
                forall|j: int| 0 <= j < kept@.len() ==> !spec_iou_ge(best, kept@[j], t),
                forall|j: int, l: int|
                    0 <= j < kept@.len() && i <= l < rest@.len() ==> kept@[j].score
                        >= rest@[l].score,
            decreases rest@.len() - i,
        {
            proof {
                assert(rest@.contains(rest@[i as int]));
                let x = choose|x: int| 0 <= x < orig.len() && orig[x] == rest@[i as int];
                assert(wf_bbox(orig[x]));
            }
            let cand = rest[i];
            if !iou_ge(&best, &cand, t) {
                let ghost prek = kept@;
                kept.push(cand);
                proof {
                    assert forall|j: int|
                        0 <= j < kept@.len() implies rest@.take(i as int + 1).contains(
                        kept@[j],
                    ) by {
                        if j < prek.len() {
                            assert(prek[j] == kept@[j]);
                            let x = choose|x: int|
                                0 <= x < i && rest@.take(i as int)[x] == prek[j];
                            assert(rest@.take(i as int + 1)[x] == prek[j]);
                        } else {
                            assert(kept@[j] == rest@[i as int]);
                            assert(rest@.take(i as int + 1)[i as int] == rest@[i as int]);
                        }
                    }
                }
            } else {
                proof {
                    assert forall|j: int|
                        0 <= j < kept@.len() implies rest@.take(i as int + 1).contains(
                        kept@[j],
                    ) by {
                        let x = choose|x: int| 0 <= x < i && rest@.take(i as int)[x] == kept@[j];
                        assert(rest@.take(i as int + 1)[x] == kept@[j]);
                    }
                }
            }
            i = i + 1;
        }
        proof {
            assert(rest@.take(rest@.len() as int) =~= rest@);
            assert forall|j: int| 0 <= j < kept@.len() implies orig.contains(kept@[j]) by {
                let x = choose|x: int| 0 <= x < rest@.len() && rest@[x] == kept@[j];
                assert(orig.contains(rest@[x]));
            }
            assert forall|a: int, j: int|
                0 <= a < out@.len() && 0 <= j < kept@.len() implies !spec_iou_ge(
                out@[a],
                kept@[j],
                t,
            ) by {
                let x = choose|x: int| 0 <= x < rest@.len() && rest@[x] == kept@[j];
                if a < out@.len() - 1 {
                    assert(!spec_iou_ge(out@[a], rest@[x], t));
                }
            }
            assert forall|a: int, j: int|
                0 <= a < out@.len() && 0 <= j < kept@.len() implies out@[a].score
                >= kept@[j].score by {
                let x = choose|x: int| 0 <= x < rest@.len() && rest@[x] == kept@[j];
                if a < out@.len() - 1 {
                    assert(out@[a].score >= rest@[x].score);
                } else {
                    assert(out@[a] == best);
                    assert(best.score >= rest@[x].score);
                }
            }
        }
        rest = kept;
    }
    out
}

fn contains_usize(v: &Vec<usize>, x: usize) -> (r: bool)
    ensures
        r == v@.contains(x),
{
    let mut i: usize = 0;
    while i < v.len()
        invariant
            i <= v@.len(),
            forall|j: int| 0 <= j < i ==> v@[j] != x,
        decreases v@.len() - i,
    {
        if v[i] == x {
            proof {
                assert(v@[i as int] == x);
            }
            return true;
        }
        i = i + 1;
    }
    false
}

/// Keep the boxes of one class, in order.
fn filter_class(v: &Vec<Bbox>, c: usize) -> (r: Vec<Bbox>)
    requires
        sorted_desc(v@),
    ensures
        seq_subset(r@, v@),
        forall|i: int| 0 <= i < r@.len() ==> r@[i].class == c,
        sorted_desc(r@),
        forall|j: int| 0 <= j < v@.len() && v@[j].class == c ==> r@.contains(v@[j]),
        v@.len() > 0 && v@[0].class == c ==> r@.len() > 0 && r@[0] == v@[0],
{
    let mut r: Vec<Bbox> = Vec::new();
    let mut i: usize = 0;
    while i < v.len()
        invariant
            i <= v@.len(),
            r@.len() <= i,
            sorted_desc(v@),
            seq_subset(r@, v@),
            forall|p: int| 0 <= p < r@.len() ==> r@[p].class == c,
            sorted_desc(r@),
            forall|j: int| 0 <= j < i && v@[j].class == c ==> r@.contains(v@[j]),
            forall|p: int, q: int|
                0 <= p < r@.len() && i <= q < v@.len() ==> r@[p].score >= v@[q].score,
            (0 < i && v@[0].class == c) ==> (r@.len() > 0 && r@[0] == v@[0]),
        decreases v@.len() - i,
    {
        let ghost prev = r@;
        let x = v[i];
        if x.class == c {
            r.push(x);
            proof {
                assert(v@.contains(x)) by {
                    assert(v@[i as int] == x);
                }
                assert forall|j: int| 0 <= j < i + 1 && v@[j].class == c implies r@.contains(
                    v@[j],
                ) by {
                    if j < i {
                        let p = choose|p: int| 0 <= p < prev.len() && prev[p] == v@[j];
                        assert(r@[p] == v@[j]);
                    } else {
                        assert(r@[r@.len() - 1] == v@[j]);
                    }
                }
            }
        } else {
            proof {
                assert forall|j: int| 0 <= j < i + 1 && v@[j].class == c implies r@.contains(
                    v@[j],
                ) by {
                    assert(j < i);
                }
            }
        }
        i = i + 1;
    }
    r
}

/// Non-maximum suppression.  Boxes are first sorted by descending score.
/// In agnostic mode one list is pruned; otherwise each class is pruned on
/// its own, classes taken in order of their best-scoring box.  Within a
/// list, the best remaining box is kept and every later box whose IoU with
/// it reaches `iou_threshold` is dropped; a list stops growing before it
/// would exceed `topk` boxes.
pub fn nms(boxes: Vec<Bbox>, agnostic: bool, topk: usize, iou_threshold: i64) -> (r: Vec<Bbox>)
    requires
        all_wf(boxes@),
        0 <= iou_threshold <= SCALE,
    ensures
        seq_subset(r@, boxes@),
        all_wf(r@),
        agnostic ==> r@.len() <= topk,
        agnostic ==> forall|i: int, j: int|
            0 <= i < j < r@.len() ==> !spec_iou_ge(r@[i], r@[j], iou_threshold),
        forall|i: int, j: int|
            0 <= i < j < r@.len() && r@[i].class == r@[j].class ==> !spec_iou_ge(
                r@[i],
                r@[j],
                iou_threshold,
            ),
        forall|c: usize| #[trigger] count_class(r@, c) <= topk as nat,
        boxes@.len() > 0 && topk > 0 ==> r@.len() > 0 && (forall|j: int|
            0 <= j < boxes@.len() ==> r@[0].score >= boxes@[j].score),
{
    let ghost orig = boxes@;
    let sorted = sort_by_score_desc(boxes);
    proof {
        assert forall|i: int| 0 <= i < sorted@.len() implies wf_bbox(sorted@[i]) by {
            let x = choose|x: int| 0 <= x < orig.len() && orig[x] == sorted@[i];
        }
    }
    if agnostic {
        let r = nms_core(sorted, topk, iou_threshold);
        proof {
            assert forall|i: int| 0 <= i < r@.len() implies orig.contains(r@[i]) by {
                let x = choose|x: int| 0 <= x < sorted@.len() && sorted@[x] == r@[i];
                assert(orig.contains(sorted@[x]));
            }
            assert forall|i: int| 0 <= i < r@.len() implies wf_bbox(r@[i]) by {
                let x = choose|x: int| 0 <= x < orig.len() && orig[x] == r@[i];
            }
            assert forall|c: usize| #[trigger] count_class(r@, c) <= topk as nat by {
                lemma_count_class_bound(r@, c);
            }
            if orig.len() > 0 && topk > 0 {
                assert forall|j: int| 0 <= j < orig.len() implies r@[0].score
                    >= orig[j].score by {
                    let x = choose|x: int| 0 <= x < sorted@.len() && sorted@[x] == orig[j];
                    assert(sorted@[0].score >= sorted@[x].score);
                }
            }
        }
        return r;
    }
    let mut classes: Vec<usize> = Vec::new();
    let mut i: usize = 0;
    while i < sorted.len()
        invariant
            i <= sorted@.len(),
            classes@.len() <= i,
            forall|a: int, b: int| 0 <= a < b < classes@.len() ==> classes@[a] != classes@[b],
            forall|j: int| 0 <= j < i ==> classes@.contains(sorted@[j].class),
            0 < i ==> classes@.len() > 0 && classes@[0] == sorted@[0].class,
        decreases sorted@.len() - i,
    {
        let ghost prev = classes@;
        let c = sorted[i].class;
        if !contains_usize(&classes, c) {
            classes.push(c);
            proof {
                assert forall|j: int| 0 <= j < i + 1 implies classes@.contains(
                    sorted@[j].class,
                ) by {
                    if j < i {
                        let p = choose|p: int| 0 <= p < prev.len() && prev[p] == sorted@[j].class;
                        assert(classes@[p] == sorted@[j].class);
                    } else {
                        assert(classes@[classes@.len() - 1] == sorted@[j].class);
                    }
                }
            }
        } else {
            proof {
                assert(classes@.contains(sorted@[i as int].class));
            }
        }
        i = i + 1;
    }
    let mut out: Vec<Bbox> = Vec::new();
    let mut k: usize = 0;
    while k < classes.len()
        invariant
            k <= classes@.len(),
            all_wf(sorted@),
            sorted_desc(sorted@),
            0 <= iou_threshold <= SCALE,
            forall|a: int, b: int| 0 <= a < b < classes@.len() ==> classes@[a] != classes@[b],
            seq_subset(out@, sorted@),
            forall|i2: int|
                0 <= i2 < out@.len() ==> classes@.take(k as int).contains(out@[i2].class),
            forall|i2: int, j2: int|
                0 <= i2 < j2 < out@.len() && out@[i2].class == out@[j2].class ==> !spec_iou_ge(
                    out@[i2],
                    out@[j2],
                    iou_threshold,
                ),
            forall|c: usize| #[trigger] count_class(out@, c) <= topk as nat,
            (k > 0 && topk > 0 && sorted@.len() > 0 && classes@[0] == sorted@[0].class) ==> (
            out@.len() > 0 && out@[0] == sorted@[0]),
        decreases classes@.len() - k,
    {
        let c = classes[k];
        let members = filter_class(&sorted, c);
        proof {
            assert forall|i2: int| 0 <= i2 < members@.len() implies wf_bbox(members@[i2]) by {
                let x = choose|x: int| 0 <= x < sorted@.len() && sorted@[x] == members@[i2];
            }
        }
        let ghost pre_out = out@;
        let mut picked = nms_core(members, topk, iou_threshold);
        let ghost picked_s = picked@;
        out.append(&mut picked);
        proof {
            assert(out@ == pre_out + picked_s);
            assert forall|i2: int| 0 <= i2 < picked_s.len() implies picked_s[i2].class == c
                && sorted@.contains(picked_s[i2]) by {
                let x = choose|x: int| 0 <= x < members@.len() && members@[x] == picked_s[i2];
            }
            assert forall|i2: int| 0 <= i2 < out@.len() implies classes@.take(
                k as int + 1,
            ).contains(out@[i2].class) by {
                if i2 < pre_out.len() {
                    assert(classes@.take(k as int).contains(pre_out[i2].class));
                    let p = choose|p: int|
                        0 <= p < k && classes@.take(k as int)[p] == pre_out[i2].class;
                    assert(classes@.take(k as int + 1)[p] == pre_out[i2].class);
                } else {
                    assert(out@[i2] == picked_s[i2 - pre_out.len()]);
                    assert(classes@.take(k as int + 1)[k as int] == c);
                }
            }
            // no earlier box has class c
            assert forall|i2: int| 0 <= i2 < pre_out.len() implies pre_out[i2].class != c by {
                let p = choose|p: int|
                    0 <= p < k && classes@.take(k as int)[p] == pre_out[i2].class;
                assert(classes@[p] != classes@[k as int]);
            }
            assert forall|i2: int, j2: int|
                0 <= i2 < j2 < out@.len() && out@[i2].class == out@[j2].class implies !spec_iou_ge(
                out@[i2],
                out@[j2],
                iou_threshold,
            ) by {
                if j2 < pre_out.len() {
                    assert(out@[i2] == pre_out[i2] && out@[j2] == pre_out[j2]);
                } else if i2 >= pre_out.len() {
                    assert(out@[i2] == picked_s[i2 - pre_out.len()]);
                    assert(out@[j2] == picked_s[j2 - pre_out.len()]);
                } else {
                    assert(out@[i2] == pre_out[i2]);
                    assert(out@[j2] == picked_s[j2 - pre_out.len()]);
                    assert(pre_out[i2].class != c);
                }
            }
            assert forall|c2: usize| #[trigger] count_class(out@, c2) <= topk as nat by {
                lemma_count_class_concat(pre_out, picked_s, c2);
                if c2 == c {
                    lemma_count_class_none(pre_out, c2);
                    lemma_count_class_bound(picked_s, c2);
                } else {
                    lemma_count_class_none(picked_s, c2);
                }
            }
            if k == 0 && topk > 0 && sorted@.len() > 0 && classes@[0] == sorted@[0].class {
                assert(members@.len() > 0 && members@[0] == sorted@[0]);
                assert(picked_s[0] == members@[0]);
                assert(out@[0] == sorted@[0]);
            }
        }
        k = k + 1;
    }
    proof {
        assert(classes@.take(classes@.len() as int) =~= classes@);
        assert forall|i2: int| 0 <= i2 < out@.len() implies orig.contains(out@[i2]) by {
            let x = choose|x: int| 0 <= x < sorted@.len() && sorted@[x] == out@[i2];
            assert(orig.contains(sorted@[x]));
        }
        assert forall|i2: int| 0 <= i2 < out@.len() implies wf_bbox(out@[i2]) by {
            let x = choose|x: int| 0 <= x < orig.len() && orig[x] == out@[i2];
        }
        if orig.len() > 0 && topk > 0 {
            assert(classes@.len() > 0);
            assert(out@.len() > 0 && out@[0] == sorted@[0]);
            assert forall|j: int| 0 <= j < orig.len() implies out@[0].score >= orig[j].score by {
                let x = choose|x: int| 0 <= x < sorted@.len() && sorted@[x] == orig[j];
                assert(sorted@[0].score >= sorted@[x].score);
            }
        }
    }
    out
}

} // verus!
