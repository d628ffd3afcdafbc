//! The detect stage: batching of incoming frames, un-projection of model
//! coordinates back to the original image, confidence filtering,
//! class-aware non-maximum suppression, and label synthesis.
//!
//! Model outputs arrive as rows `[x1, y1, x2, y2, score, class]` in
//! `SCALE` fixed-point units (the host converts the runtime's floats).
//! A standard detector emits letterboxed coordinates, un-projected here
//! as `(x - pad) * ratio`; an RT-DETR detector emits original-scale
//! coordinates, un-projected as `x - pad * ratio`, and does its own
//! suppression.

use crate::geometry::{all_wf, count_class, nms, seq_subset, spec_iou_ge, wf_bbox, Bbox, SCALE};
use crate::codec::{fmt_u64, scan_u64, spec_scan_u64, spec_u64_string};
use crate::media::{FrameMeta, MAX_DIM};
use crate::text::{contains_str, dirname, spec_contains, spec_dirname, spec_upper, to_upper_ascii};
use crate::utils::Ep;
use vstd::arithmetic::div_mod::lemma_div_is_ordered;
use vstd::arithmetic::mul::lemma_mul_inequality;
use vstd::prelude::*;

verus! {

/// Largest magnitude accepted for a raw model coordinate, in `SCALE`
/// units; the host saturates anything wilder before handing it over.
pub const RAW_LIMIT: i64 = 1_000_000_000_000;

/// Largest letterbox ratio a frame can carry (`MAX_DIM * SCALE`).
pub const RATIO_LIMIT: i64 = 300_000_000;

/// Per-class cap on boxes kept by suppression.
pub const NMS_TOPK: usize = 100;

/// One row of the model's output tensor, in `SCALE` units.
#[derive(Clone, Copy, Debug, PartialEq, Eq, Structural)]
pub struct RawDetection {
    pub x1: i64,
    pub y1: i64,
    pub x2: i64,
    pub y2: i64,
    pub score: i64,
    pub class_id: usize,
}

pub open spec fn raw_in_range(row: RawDetection) -> bool {
    &&& -RAW_LIMIT <= row.x1 <= RAW_LIMIT
    &&& -RAW_LIMIT <= row.y1 <= RAW_LIMIT
    &&& -RAW_LIMIT <= row.x2 <= RAW_LIMIT
    &&& -RAW_LIMIT <= row.y2 <= RAW_LIMIT
}

pub open spec fn spec_clamp(v: int, hi: int) -> int {
    if v < 0 {
        0
    } else if v > hi {
        hi
    } else {
        v
    }
}

/// Model coordinate mapped back to the original image, in `SCALE` units.
pub open spec fn spec_unproject(x: int, pad: int, ratio: int, rtdetr: bool) -> int {
    if rtdetr {
        x - pad * ratio
    } else {
        (x - pad * (SCALE as int)) * ratio / (SCALE as int)
    }
}

/// The box one passing row becomes: both corners un-projected and clamped
/// to the image rectangle (`hi_x = width * SCALE`, `hi_y = height * SCALE`).
pub open spec fn spec_box_of(
    row: RawDetection,
    px: int,
    py: int,
    ratio: int,
    w: int,
    h: int,
    rtdetr: bool,
) -> Bbox {
    Bbox {
        x1: spec_clamp(spec_unproject(row.x1 as int, px, ratio, rtdetr), w * (SCALE as int)) as i64,
        y1: spec_clamp(spec_unproject(row.y1 as int, py, ratio, rtdetr), h * (SCALE as int)) as i64,
        x2: spec_clamp(spec_unproject(row.x2 as int, px, ratio, rtdetr), w * (SCALE as int)) as i64,
        y2: spec_clamp(spec_unproject(row.y2 as int, py, ratio, rtdetr), h * (SCALE as int)) as i64,
        score: row.score,
        class: row.class_id,
    }
}

/// The boxes of all rows whose score reaches `conf`, in row order.
pub open spec fn spec_boxes(
    rows: Seq<RawDetection>,
    px: int,
    py: int,
    ratio: int,
    w: int,
    h: int,
    conf: i64,
    rtdetr: bool,
) -> Seq<Bbox>
    decreases rows.len(),
{
    if rows.len() == 0 {
        Seq::empty()
    } else {
        spec_boxes(rows.drop_last(), px, py, ratio, w, h, conf, rtdetr) + (if rows.last().score
            >= conf {
            seq![spec_box_of(rows.last(), px, py, ratio, w, h, rtdetr)]
        } else {
            Seq::empty()
        })
    }
}

/// Every box built from a row lies inside the image rectangle.
pub proof fn lemma_spec_boxes_bounded(
    rows: Seq<RawDetection>,
    px: int,
    py: int,
    ratio: int,
    w: int,
    h: int,
    conf: i64,
    rtdetr: bool,
)
    requires
        1 <= w <= MAX_DIM,
        1 <= h <= MAX_DIM,
    ensures
        forall|i: int|
            0 <= i < spec_boxes(rows, px, py, ratio, w, h, conf, rtdetr).len() ==> {
                let b = #[trigger] spec_boxes(rows, px, py, ratio, w, h, conf, rtdetr)[i];
                &&& 0 <= b.x1 <= w * (SCALE as int)
                &&& 0 <= b.y1 <= h * (SCALE as int)
                &&& 0 <= b.x2 <= w * (SCALE as int)
                &&& 0 <= b.y2 <= h * (SCALE as int)
                &&& wf_bbox(b)
            },
    decreases rows.len(),
{
    assert(SCALE as int == 10_000);
    assert(0 <= w * (SCALE as int) <= 300_000_000);
    assert(0 <= h * (SCALE as int) <= 300_000_000);
    if rows.len() > 0 {
        let pre = rows.drop_last();
        let sb = spec_boxes(rows, px, py, ratio, w, h, conf, rtdetr);
        let sbp = spec_boxes(pre, px, py, ratio, w, h, conf, rtdetr);
        lemma_spec_boxes_bounded(pre, px, py, ratio, w, h, conf, rtdetr);
        assert forall|i: int| 0 <= i < sb.len() implies {
            let b = #[trigger] sb[i];
            &&& 0 <= b.x1 <= w * (SCALE as int)
            &&& 0 <= b.y1 <= h * (SCALE as int)
            &&& 0 <= b.x2 <= w * (SCALE as int)
            &&& 0 <= b.y2 <= h * (SCALE as int)
            &&& wf_bbox(b)
        } by {
            if i < sbp.len() {
                assert(sb[i] == sbp[i]);
            } else {
                assert(sb[i] == spec_box_of(rows.last(), px, py, ratio, w, h, rtdetr));
            }
        }
    }
}

/// `b` is the box of some row of `rows` whose score reaches `conf`.
pub open spec fn box_of_some_row(
    b: Bbox,
    rows: Seq<RawDetection>,
    px: int,
    py: int,
    ratio: int,
    w: int,
    h: int,
    conf: i64,
    rtdetr: bool,
) -> bool {
    exists|j: int|
        0 <= j < rows.len() && rows[j].score >= conf && b == spec_box_of(
            #[trigger] rows[j],
            px,
            py,
            ratio,
            w,
            h,
            rtdetr,
        )
}

/// Every box built from a row is the box of some passing row.
pub proof fn lemma_spec_boxes_provenance(
    rows: Seq<RawDetection>,
    px: int,
    py: int,
    ratio: int,
    w: int,
    h: int,
    conf: i64,
    rtdetr: bool,
)
    ensures
        forall|i: int|
            0 <= i < spec_boxes(rows, px, py, ratio, w, h, conf, rtdetr).len()
                ==> box_of_some_row(
                #[trigger] spec_boxes(rows, px, py, ratio, w, h, conf, rtdetr)[i],
                rows,
                px,
                py,
                ratio,
                w,
                h,
                conf,
                rtdetr,
            ),
    decreases rows.len(),
{
    if rows.len() > 0 {
        let pre = rows.drop_last();
        let sb = spec_boxes(rows, px, py, ratio, w, h, conf, rtdetr);
        let sbp = spec_boxes(pre, px, py, ratio, w, h, conf, rtdetr);
        lemma_spec_boxes_provenance(pre, px, py, ratio, w, h, conf, rtdetr);
        assert forall|i: int| 0 <= i < sb.len() implies box_of_some_row(
            sb[i],
            rows,
            px,
            py,
            ratio,
            w,
            h,
            conf,
            rtdetr,
        ) by {
            if i < sbp.len() {
                assert(box_of_some_row(sbp[i], pre, px, py, ratio, w, h, conf, rtdetr));
                let j = choose|j: int|
                    0 <= j < pre.len() && pre[j].score >= conf && sbp[i] == spec_box_of(
                        #[trigger] pre[j],
                        px,
                        py,
                        ratio,
                        w,
                        h,
                        rtdetr,
                    );
                assert(rows[j] == pre[j]);
                assert(sb[i] == sbp[i]);
            } else {
                assert(rows.last().score >= conf);
                assert(sb[i] == spec_box_of(rows[rows.len() - 1], px, py, ratio, w, h, rtdetr));
            }
        }
    }
}

/// A row with ordered corners keeps them ordered after un-projection and
/// clamping: the monotone steps cannot swap them.
pub proof fn lemma_box_of_ordered(
    row: RawDetection,
    px: int,
    py: int,
    ratio: int,
    w: int,
    h: int,
    rtdetr: bool,
)
    requires
        row.x1 <= row.x2,
        row.y1 <= row.y2,
        ratio >= 0,
        1 <= w <= MAX_DIM,
        1 <= h <= MAX_DIM,
    ensures
        spec_box_of(row, px, py, ratio, w, h, rtdetr).x1 <= spec_box_of(
            row,
            px,
            py,
            ratio,
            w,
            h,
            rtdetr,
        ).x2,
        spec_box_of(row, px, py, ratio, w, h, rtdetr).y1 <= spec_box_of(
            row,
            px,
            py,
            ratio,
            w,
            h,
            rtdetr,
        ).y2,
{
    assert(SCALE as int == 10_000);
    assert(0 <= w * (SCALE as int) <= 300_000_000);
    assert(0 <= h * (SCALE as int) <= 300_000_000);
    if !rtdetr {
        lemma_mul_inequality(row.x1 - px * (SCALE as int), row.x2 - px * (SCALE as int), ratio);
        lemma_div_is_ordered(
            (row.x1 - px * (SCALE as int)) * ratio,
            (row.x2 - px * (SCALE as int)) * ratio,
            SCALE as int,
        );
        lemma_mul_inequality(row.y1 - py * (SCALE as int), row.y2 - py * (SCALE as int), ratio);
        lemma_div_is_ordered(
            (row.y1 - py * (SCALE as int)) * ratio,
            (row.y2 - py * (SCALE as int)) * ratio,
            SCALE as int,
        );
    }
}

/// Every box a row with ordered corners becomes lies inside the image
/// rectangle with its corners still ordered:
/// `0 <= x1 <= x2 <= width` and `0 <= y1 <= y2 <= height`, in `SCALE`
/// units.
pub proof fn lemma_bbox_within_image(
    row: RawDetection,
    px: int,
    py: int,
    ratio: int,
    w: int,
    h: int,
    rtdetr: bool,
)
    requires
        row.x1 <= row.x2,
        row.y1 <= row.y2,
        ratio >= 0,
        1 <= w <= MAX_DIM,
        1 <= h <= MAX_DIM,
    ensures
        ({
            let b = spec_box_of(row, px, py, ratio, w, h, rtdetr);
            &&& 0 <= b.x1 <= b.x2 <= w * (SCALE as int)
            &&& 0 <= b.y1 <= b.y2 <= h * (SCALE as int)
        }),
{
    assert(SCALE as int == 10_000);
    assert(0 <= w * (SCALE as int) <= 300_000_000);
    assert(0 <= h * (SCALE as int) <= 300_000_000);
    lemma_box_of_ordered(row, px, py, ratio, w, h, rtdetr);
}

/// Un-project one coordinate and clamp it to `[0, hi]`.
fn unproject_clamp(x: i64, pad: usize, ratio: i64, hi: i64, rtdetr: bool) -> (r: i64)
    requires
        -RAW_LIMIT <= x <= RAW_LIMIT,
        pad <= MAX_DIM,
        0 <= ratio <= RATIO_LIMIT,
        0 <= hi <= RATIO_LIMIT,
    ensures
        r == spec_clamp(spec_unproject(x as int, pad as int, ratio as int, rtdetr), hi as int),
{
    if rtdetr {
        proof {
            assert(0 <= (pad as int) * (ratio as int) <= 9_000_000_000_000int) by (nonlinear_arith)
                requires
                    0 <= pad as int <= 30_000,
                    0 <= ratio as int <= 300_000_000,
            ;
        }
        let v: i128 = x as i128 - (pad as i128) * (ratio as i128);
        if v < 0 {
            0
        } else if v > hi as i128 {
            hi
        } else {
            v as i64
        }
    } else {
        let d: i128 = x as i128 - (pad as i128) * 10_000;
        if d <= 0 {
            proof {
                let u = (x - pad * (SCALE as int)) * ratio;
                assert(u <= 0) by (nonlinear_arith)
                    requires
                        x - pad * (SCALE as int) <= 0,
                        ratio >= 0,
                        u == (x - pad * (SCALE as int)) * ratio,
                ;
                lemma_div_is_ordered(u, 0, SCALE as int);
            }
            0
        } else {
            proof {
                assert(0 <= (d as int) * (ratio as int) <= 2_000_000_000_000_000_000_000int)
                    by (nonlinear_arith)
                    requires
                        0 < d as int <= 2_000_000_000_000int,
                        0 <= ratio as int <= 300_000_000,
                ;
            }
            let m: i128 = d * (ratio as i128);
            let v: i128 = m / 10_000;
            if v < 0 {
                0
            } else if v > hi as i128 {
                hi
            } else {
                v as i64
            }
        }
    }
}

/// Filter model rows by confidence, un-project the survivors into the
/// original image, clamp them to its rectangle, and (for a standard
/// detector) prune them with class-aware non-maximum suppression capped
/// at [`NMS_TOPK`] boxes per class.  An RT-DETR detector has already
/// suppressed its output, so its boxes pass through in row order.
pub fn postprocess_frame(
    rows: &Vec<RawDetection>,
    frame: &FrameMeta,
    conf_thres: i64,
    iou_thres: i64,
    rtdetr: bool,
) -> (r: Vec<Bbox>)
    requires
        1 <= frame.width <= MAX_DIM,
        1 <= frame.height <= MAX_DIM,
        frame.padding.0 <= MAX_DIM,
        frame.padding.1 <= MAX_DIM,
        0 <= frame.ratio <= RATIO_LIMIT,
        0 <= iou_thres <= SCALE,
        forall|i: int| 0 <= i < rows@.len() ==> raw_in_range(#[trigger] rows@[i]),
    ensures
        ({
            let sboxes = spec_boxes(
                rows@,
                frame.padding.0 as int,
                frame.padding.1 as int,
                frame.ratio as int,
                frame.width as int,
                frame.height as int,
                conf_thres,
                rtdetr,
            );
            &&& forall|i: int|
                0 <= i < r@.len() ==> {
                    let b = #[trigger] r@[i];
                    &&& 0 <= b.x1 <= frame.width * (SCALE as int)
                    &&& 0 <= b.y1 <= frame.height * (SCALE as int)
                    &&& 0 <= b.x2 <= frame.width * (SCALE as int)
                    &&& 0 <= b.y2 <= frame.height * (SCALE as int)
                }
            &&& rtdetr ==> r@ == sboxes
            &&& !rtdetr ==> {
                &&& seq_subset(r@, sboxes)
                &&& forall|i: int, j: int|
                    0 <= i < j < r@.len() && r@[i].class == r@[j].class ==> !spec_iou_ge(
                        r@[i],
                        r@[j],
                        iou_thres,
                    )
                &&& forall|c: usize| #[trigger] count_class(r@, c) <= NMS_TOPK as nat
                &&& sboxes.len() > 0 ==> r@.len() > 0 && (forall|j: int|
                    0 <= j < sboxes.len() ==> r@[0].score >= sboxes[j].score)
            }
        }),
{
    let ghost px = frame.padding.0 as int;
    let ghost py = frame.padding.1 as int;
    let ghost ratio = frame.ratio as int;
    let ghost w = frame.width as int;
    let ghost h = frame.height as int;
    let hi_x: i64 = (frame.width as i64) * 10_000;
    let hi_y: i64 = (frame.height as i64) * 10_000;
    let mut boxes: Vec<Bbox> = Vec::new();
    let mut i: usize = 0;
    while i < rows.len()
        invariant
            i <= rows@.len(),
            1 <= frame.width <= MAX_DIM,
            1 <= frame.height <= MAX_DIM,
            frame.padding.0 <= MAX_DIM,
            frame.padding.1 <= MAX_DIM,
            0 <= frame.ratio <= RATIO_LIMIT,
            forall|j: int| 0 <= j < rows@.len() ==> raw_in_range(#[trigger] rows@[j]),
            px == frame.padding.0 as int,
            py == frame.padding.1 as int,
            ratio == frame.ratio as int,
            w == frame.width as int,
            h == frame.height as int,
            hi_x == w * (SCALE as int),
            hi_y == h * (SCALE as int),
            boxes@ == spec_boxes(
                rows@.take(i as int),
                px,
                py,
                ratio,
                w,
                h,
                conf_thres,
                rtdetr,
            ),
        decreases rows@.len() - i,
    {
        let row = rows[i];
        proof {
            assert(rows@.take(i as int + 1).drop_last() =~= rows@.take(i as int));
            assert(rows@.take(i as int + 1).last() == rows@[i as int]);
        }
        if row.score >= conf_thres {
            let b = Bbox {
                x1: unproject_clamp(row.x1, frame.padding.0, frame.ratio, hi_x, rtdetr),
                y1: unproject_clamp(row.y1, frame.padding.1, frame.ratio, hi_y, rtdetr),
                x2: unproject_clamp(row.x2, frame.padding.0, frame.ratio, hi_x, rtdetr),
                y2: unproject_clamp(row.y2, frame.padding.1, frame.ratio, hi_y, rtdetr),
                score: row.score,
                class: row.class_id,
            };
            proof {
                assert(b == spec_box_of(rows@[i as int], px, py, ratio, w, h, rtdetr));
            }
            boxes.push(b);
            proof {
                assert(boxes@ =~= spec_boxes(
                    rows@.take(i as int + 1),
                    px,
                    py,
                    ratio,
                    w,
                    h,
                    conf_thres,
                    rtdetr,
                ));
            }
        } else {
            proof {
                assert(boxes@ =~= spec_boxes(
                    rows@.take(i as int + 1),
                    px,
                    py,
                    ratio,
                    w,
                    h,
                    conf_thres,
                    rtdetr,
                ));
            }
        }
        i = i + 1;
    }
    proof {
        assert(rows@.take(rows@.len() as int) =~= rows@);
        lemma_spec_boxes_bounded(rows@, px, py, ratio, w, h, conf_thres, rtdetr);
    }
    if rtdetr {
        proof {
            let sb = spec_boxes(rows@, px, py, ratio, w, h, conf_thres, rtdetr);
            assert forall|i2: int| 0 <= i2 < boxes@.len() implies {
                let b = #[trigger] boxes@[i2];
                &&& 0 <= b.x1 <= w * (SCALE as int)
                &&& 0 <= b.y1 <= h * (SCALE as int)
                &&& 0 <= b.x2 <= w * (SCALE as int)
                &&& 0 <= b.y2 <= h * (SCALE as int)
            } by {
                assert(boxes@[i2] == sb[i2]);
            }
        }
        return boxes;
    }
    let ghost sboxes = spec_boxes(rows@, px, py, ratio, w, h, conf_thres, rtdetr);
    proof {
        assert(all_wf(boxes@));
    }
    let r = nms(boxes, false, NMS_TOPK, iou_thres);
    proof {
        assert forall|i2: int| 0 <= i2 < r@.len() implies {
            let b = #[trigger] r@[i2];
            &&& 0 <= b.x1 <= w * (SCALE as int)
            &&& 0 <= b.y1 <= h * (SCALE as int)
            &&& 0 <= b.x2 <= w * (SCALE as int)
            &&& 0 <= b.y2 <= h * (SCALE as int)
        } by {
            let x = choose|x: int| 0 <= x < sboxes.len() && sboxes[x] == r@[i2];
        }
    }
    r
}

/// Model name test that switches the RT-DETR handling on.
pub fn is_rtdetr(model_name: &str) -> (r: bool)
    ensures
        r == spec_contains(model_name@, "rtdetr"@),
{
    contains_str(model_name, "rtdetr")
}

/// The `orig_target_sizes` row an RT-DETR batch carries for one frame:
/// the longer original side, duplicated into both components (the model
/// was exported that way).
pub fn orig_target_sizes_row(width: usize, height: usize) -> (r: (i64, i64))
    requires
        width <= MAX_DIM,
        height <= MAX_DIM,
    ensures
        r.0 == if width >= height {
            width as i64
        } else {
            height as i64
        },
        r.1 == r.0,
{
    let m: i64 = if width >= height {
        width as i64
    } else {
        height as i64
    };
    (m, m)
}

/// Accumulates frames for one detect worker and decides when a batch is
/// full.  The timeout side of the flush decision lives in
/// [`remaining_timeout`]; the worker flushes whatever is buffered when
/// the receive times out or the channel closes.
pub struct Batcher<T> {
    pub buf: Vec<T>,
    pub batch_size: usize,
}

impl<T> Batcher<T> {
    pub fn new(batch_size: usize) -> (r: Batcher<T>)
        ensures
            r.buf@.len() == 0,
            r.batch_size == batch_size,
    {
        Batcher { buf: Vec::new(), batch_size }
    }

    /// Add one frame; when that fills the batch, hand the whole batch
    /// back (in arrival order) and start an empty one.
    pub fn push(&mut self, item: T) -> (r: Option<Vec<T>>)
        ensures
            final(self).batch_size == old(self).batch_size,
            old(self).buf@.len() + 1 >= old(self).batch_size ==> (match r {
                Some(batch) => batch@ == old(self).buf@.push(item) && final(self).buf@.len() == 0,
                None => false,
            }),
            old(self).buf@.len() + 1 < old(self).batch_size ==> r is None && final(self).buf@
                == old(self).buf@.push(item),
    {
        self.buf.push(item);
        if self.buf.len() >= self.batch_size {
            let mut out: Vec<T> = Vec::new();
            core::mem::swap(&mut out, &mut self.buf);
            Some(out)
        } else {
            None
        }
    }

    /// Hand back whatever is buffered (used on timeout and on shutdown).
    pub fn flush(&mut self) -> (r: Vec<T>)
        ensures
            final(self).batch_size == old(self).batch_size,
            r@ == old(self).buf@,
            final(self).buf@.len() == 0,
    {
        let mut out: Vec<T> = Vec::new();
        core::mem::swap(&mut out, &mut self.buf);
        out
    }
}

/// Budget left for the next blocking receive: `timeout - elapsed`,
/// saturating at zero.
pub fn remaining_timeout(timeout_ms: u64, elapsed_ms: u64) -> (r: u64)
    ensures
        r == if elapsed_ms >= timeout_ms {
            0u64
        } else {
            (timeout_ms - elapsed_ms) as u64
        },
{
    if elapsed_ms >= timeout_ms {
        0
    } else {
        timeout_ms - elapsed_ms
    }
}

/// Everything one detect worker needs: the accelerator to bind, the
/// model, the thresholds in `SCALE` units, and the batching parameters.
/// `class_map` lists class names by class id.
pub struct DetectConfig {
    pub ep: Ep,
    pub device: String,
    pub model_path: String,
    pub target_size: usize,
    pub class_map: Vec<String>,
    pub conf_thres: i64,
    pub iou_thres: i64,
    pub batch_size: usize,
    pub timeout: usize,
    pub model_name: String,
}

/// Some box in `bboxes` has class `c`.
pub open spec fn has_class(bboxes: Seq<Bbox>, c: int) -> bool {
    exists|j: int| 0 <= j < bboxes.len() && (#[trigger] bboxes[j]).class == c
}

/// Some entry of `r` reads `name`.
pub open spec fn name_in(r: Seq<String>, name: Seq<char>) -> bool {
    exists|k: int| 0 <= k < r.len() && (#[trigger] r[k])@ == name
}

/// `name` is the name of a class that some box mentions.
pub open spec fn label_from(name: Seq<char>, bboxes: Seq<Bbox>, classes: Seq<String>) -> bool {
    exists|c: int|
        0 <= c < classes.len() && name == (#[trigger] classes[c])@ && has_class(bboxes, c)
}

/// The label set of a frame: the names of the classes its boxes mention,
/// each class once, in class-id order — or `{"Blank"}` when nothing was
/// detected.
pub fn get_label(bboxes: &Vec<Bbox>, classes: &Vec<String>) -> (r: Vec<String>)
    requires
        forall|i: int| 0 <= i < bboxes@.len() ==> (#[trigger] bboxes@[i]).class < classes@.len(),
    ensures
        bboxes@.len() == 0 ==> r@.len() == 1 && r@[0]@ == "Blank"@,
        bboxes@.len() > 0 ==> {
            &&& forall|j: int|
                0 <= j < bboxes@.len() ==> name_in(
                    r@,
                    classes@[(#[trigger] bboxes@[j]).class as int]@,
                )
            &&& forall|k: int| 0 <= k < r@.len() ==> label_from((#[trigger] r@[k])@, bboxes@, classes@)
        },
{
    if bboxes.len() == 0 {
        proof {
            reveal_strlit("Blank");
        }
        let mut r: Vec<String> = Vec::new();
        r.push(String::from_str("Blank"));
        return r;
    }
    let mut r: Vec<String> = Vec::new();
    let mut c: usize = 0;
    while c < classes.len()
        invariant
            c <= classes@.len(),
            forall|i: int| 0 <= i < bboxes@.len() ==> (#[trigger] bboxes@[i]).class
                < classes@.len(),
            forall|j: int|
                0 <= j < bboxes@.len() && (#[trigger] bboxes@[j]).class < c ==> name_in(
                    r@,
                    classes@[bboxes@[j].class as int]@,
                ),
            forall|k: int| 0 <= k < r@.len() ==> label_from((#[trigger] r@[k])@, bboxes@, classes@),
        decreases classes@.len() - c,
    {
        let mut found = false;
        let mut j: usize = 0;
        while j < bboxes.len()
            invariant
                j <= bboxes@.len(),
                found ==> has_class(bboxes@, c as int),
                !found ==> forall|j2: int| 0 <= j2 < j ==> (#[trigger] bboxes@[j2]).class != c,
            decreases bboxes@.len() - j,
        {
            if bboxes[j].class == c {
                proof {
                    assert((bboxes@[j as int]).class == c);
                }
                found = true;
                j = bboxes.len();
            } else {
                j = j + 1;
            }
        }
        if found {
            let ghost pre = r@;
            r.push(classes[c].clone());
            proof {
                assert(r@[r@.len() - 1]@ == classes@[c as int]@);
                assert forall|j2: int|
                    0 <= j2 < bboxes@.len() && (#[trigger] bboxes@[j2]).class < c + 1 implies name_in(
                    r@,
                    classes@[bboxes@[j2].class as int]@,
                ) by {
                    if bboxes@[j2].class < c {
                        let k = choose|k: int|
                            0 <= k < pre.len() && (#[trigger] pre[k])@ == classes@[bboxes@[j2].class as int]@;
                        assert(r@[k]@ == classes@[bboxes@[j2].class as int]@);
                    } else {
                        assert(r@[r@.len() - 1]@ == classes@[bboxes@[j2].class as int]@);
                    }
                }
                assert forall|k: int| 0 <= k < r@.len() implies label_from(
                    (#[trigger] r@[k])@,
                    bboxes@,
                    classes@,
                ) by {
                    if k < pre.len() {
                        assert(r@[k] == pre[k]);
                        assert(label_from(pre[k]@, bboxes@, classes@));
                    } else {
                        assert(r@[k]@ == classes@[c as int]@);
                        assert(has_class(bboxes@, c as int));
                    }
                }
            }
        } else {
            proof {
                assert forall|j2: int|
                    0 <= j2 < bboxes@.len() && (#[trigger] bboxes@[j2]).class < c + 1 implies name_in(
                    r@,
                    classes@[bboxes@[j2].class as int]@,
                ) by {
                    assert(bboxes@[j2].class != c);
                }
            }
        }
        c = c + 1;
    }
    r
}

/// A TensorRT input-shape profile: `images:Bx3xSxS`.
pub open spec fn spec_trt_profile(batch: int, s: int) -> Seq<char> {
    "images:"@ + (spec_u64_string(batch) + ("x3x"@ + (spec_u64_string(s) + ("x"@
        + spec_u64_string(s)))))
}

fn trt_profile(batch: u64, s: u64) -> (r: String)
    ensures
        r@ == spec_trt_profile(batch as int, s as int),
{
    proof {
        reveal_strlit("images:");
        reveal_strlit("x3x");
        reveal_strlit("x");
    }
    let mut out = String::new();
    out.append("images:");
    let b = fmt_u64(batch);
    out.append(b.as_str());
    out.append("x3x");
    let t = fmt_u64(s);
    out.append(t.as_str());
    out.append("x");
    let t2 = fmt_u64(s);
    out.append(t2.as_str());
    proof {
        assert(out@ =~= spec_trt_profile(batch as int, s as int));
    }
    out
}

/// The numeric device id a backend gets: the device string read as a
/// decimal number, zero when it is not one (or does not fit).
pub open spec fn spec_device_id(s: Seq<char>) -> u32 {
    match spec_scan_u64(s, 0) {
        Some((v, e)) => if e == s.len() && v <= u32::MAX as u64 {
            v as u32
        } else {
            0
        },
        None => 0,
    }
}

/// Parse the device string into a numeric id, zero as the fallback.
pub fn parse_device_id(device: &str) -> (r: u32)
    ensures
        r == spec_device_id(device@),
{
    match scan_u64(device, 0) {
        Some((v, e)) => {
            if e == device.unicode_len() && v <= 0xffff_ffffu64 {
                v as u32
            } else {
                0
            }
        },
        None => 0,
    }
}

/// How one detect worker's inference session is to be built: which
/// accelerator with which options.  Unused fields stay at their neutral
/// values for the backends that do not read them.
pub struct SessionPlan {
    pub ep: Ep,
    pub device_id: u32,
    pub device_type_upper: String,
    pub cache_dir: String,
    pub engine_cache: bool,
    pub timing_cache: bool,
    pub fp16: bool,
    pub ane_only: bool,
    pub subgraphs: bool,
    pub profile_min: String,
    pub profile_opt: String,
    pub profile_max: String,
}

/// Plan the inference session of one worker: TensorRT gets engine and
/// timing caches beside the model, half precision, and batch profiles
/// for one, two and five images of the model's square size; CUDA and
/// DirectML get the numeric device id; OpenVINO gets the upper-cased
/// device type and the cache directory; CoreML runs on the neural
/// engine only, with subgraph partitioning.
pub fn session_plan(config: &DetectConfig) -> (r: SessionPlan)
    requires
        config.target_size <= MAX_DIM,
    ensures
        r.ep == config.ep,
        r.cache_dir@ == spec_dirname(config.model_path@),
        config.ep == Ep::TensorRT ==> {
            &&& r.device_id == spec_device_id(config.device@)
            &&& r.engine_cache && r.timing_cache && r.fp16
            &&& r.profile_min@ == spec_trt_profile(1, config.target_size as int)
            &&& r.profile_opt@ == spec_trt_profile(2, config.target_size as int)
            &&& r.profile_max@ == spec_trt_profile(5, config.target_size as int)
        },
        config.ep == Ep::CUDA || config.ep == Ep::DirectML ==> r.device_id == spec_device_id(
            config.device@,
        ),
        config.ep == Ep::OpenVINO ==> r.device_type_upper@ == spec_upper(config.device@),
        config.ep == Ep::CoreML ==> r.ane_only && r.subgraphs,
{
    let cache_dir = dirname(config.model_path.as_str());
    let mut plan = SessionPlan {
        ep: config.ep,
        device_id: 0,
        device_type_upper: String::new(),
        cache_dir,
        engine_cache: false,
        timing_cache: false,
        fp16: false,
        ane_only: false,
        subgraphs: false,
        profile_min: String::new(),
        profile_opt: String::new(),
        profile_max: String::new(),
    };
    match config.ep {
        Ep::CoreML => {
            plan.ane_only = true;
            plan.subgraphs = true;
        },
        Ep::TensorRT => {
            plan.device_id = parse_device_id(config.device.as_str());
            plan.engine_cache = true;
            plan.timing_cache = true;
            plan.fp16 = true;
            plan.profile_min = trt_profile(1, config.target_size as u64);
            plan.profile_opt = trt_profile(2, config.target_size as u64);
            plan.profile_max = trt_profile(5, config.target_size as u64);
        },
        Ep::CUDA => {
            plan.device_id = parse_device_id(config.device.as_str());
        },
        Ep::OpenVINO => {
            plan.device_type_upper = to_upper_ascii(config.device.as_str());
        },
        Ep::DirectML => {
            plan.device_id = parse_device_id(config.device.as_str());
        },
        Ep::Cpu => {},
    }
    plan
}

} // verus!
