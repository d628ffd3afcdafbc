//! Frame planning for the media stage: letterbox geometry for images,
//! even frame sampling and letterbox geometry for videos, and the error
//! envelope a failed decode sends down the frame channel.
//!
//! The pixel work itself (decoding, resampling, tensor packing) is float
//! arithmetic done by the host around this library; everything here plans
//! that work from the media dimensions and carries the parameters that the
//! detect stage later needs to un-project model coordinates.

use crate::geometry::SCALE;
use crate::utils::{sample_count, sample_evenly, sample_index, same_item, FileItem};
use vstd::prelude::*;

verus! {

/// Largest image or video side accepted by the letterbox planner; keeps
/// every product of the letterbox math in range even on 32-bit hosts.
pub const MAX_DIM: usize = 30_000;

/// `n` rounded up to the next even number.
pub open spec fn even_up(n: int) -> int {
    n % 2 + n
}

/// Letterbox ratio in `SCALE` units: the longer original side over the
/// square target side, truncated.
pub open spec fn lb_ratio(w: int, h: int, s: int) -> int {
    if w > h {
        w * SCALE / s
    } else {
        h * SCALE / s
    }
}

/// Width after the aspect-preserving resize, rounded up to even.
pub open spec fn lb_resized_w(w: int, h: int, s: int) -> int {
    if w > h {
        s
    } else {
        even_up(w * s / h)
    }
}

/// Height after the aspect-preserving resize, rounded up to even.
pub open spec fn lb_resized_h(w: int, h: int, s: int) -> int {
    if w > h {
        even_up(h * s / w)
    } else {
        s
    }
}

/// Geometry of one letterboxed frame: the resized image of
/// `resized_w x resized_h` pixels sits centered in the `s x s` square with
/// `pad_x` columns left and right and `pad_y` rows above and below; `ratio`
/// (in `SCALE` units) scales model coordinates back to original pixels.
pub struct LetterboxPlan {
    pub resized_w: usize,
    pub resized_h: usize,
    pub pad_x: usize,
    pub pad_y: usize,
    pub ratio: i64,
}

/// Compute the letterbox geometry for an image of `width x height` pixels
/// and a square model input of side `imgsz` (even, as model input shapes
/// are).
pub fn letterbox_plan(width: usize, height: usize, imgsz: usize) -> (r: LetterboxPlan)
    requires
        1 <= width <= MAX_DIM,
        1 <= height <= MAX_DIM,
        2 <= imgsz <= MAX_DIM,
        imgsz % 2 == 0,
    ensures
        r.ratio == lb_ratio((width as int), height as int, imgsz as int),
        r.resized_w == lb_resized_w((width as int), height as int, imgsz as int),
        r.resized_h == lb_resized_h((width as int), height as int, imgsz as int),
        r.resized_w <= imgsz && r.resized_h <= imgsz,
        r.pad_x == (imgsz - r.resized_w) / 2,
        r.pad_y == (imgsz - r.resized_h) / 2,
{
    let w = width as u64;
    let h = height as u64;
    let s = imgsz as u64;
    if width > height {
        proof {
            assert((h as int) * (s as int) <= 900_000_000) by (nonlinear_arith)
                requires
                    0 <= (h as int) <= 30_000,
                    0 <= (s as int) <= 30_000,
            ;
            assert((h as int) * (s as int) < (w as int) * (s as int)) by (nonlinear_arith)
                requires
                    (h as int) < (w as int),
                    (s as int) > 0,
            ;
            assert(((h as int) * (s as int)) / (w as int) < (s as int)) by (nonlinear_arith)
                requires
                    (w as int) > 0,
                    (h as int) * (s as int) < (w as int) * (s as int),
            ;
        }
        let ratio = ((w * 10_000) / s) as i64;
        let rh0 = ((h * s) / w) as usize;
        let rh = rh0 % 2 + rh0;
        let pad_y = (imgsz - rh) / 2;
        LetterboxPlan { resized_w: imgsz, resized_h: rh, pad_x: 0, pad_y, ratio }
    } else {
        proof {
            assert((w as int) * (s as int) <= 900_000_000) by (nonlinear_arith)
                requires
                    0 <= (w as int) <= 30_000,
                    0 <= (s as int) <= 30_000,
            ;
            assert((w as int) * (s as int) <= (h as int) * (s as int)) by (nonlinear_arith)
                requires
                    (w as int) <= (h as int),
                    (s as int) > 0,
            ;
            assert(((h as int) * (s as int)) / (h as int) == (s as int)) by (nonlinear_arith)
                requires
                    (h as int) > 0,
            ;
            assert(((w as int) * (s as int)) / (h as int) <= (s as int)) by (nonlinear_arith)
                requires
                    (h as int) > 0,
                    (w as int) * (s as int) <= (h as int) * (s as int),
                    ((h as int) * (s as int)) / (h as int) == (s as int),
            ;
        }
        let ratio = ((h * 10_000) / s) as i64;
        let rw0 = ((w * s) / h) as usize;
        let rw = rw0 % 2 + rw0;
        let pad_x = (imgsz - rw) / 2;
        LetterboxPlan { resized_w: rw, resized_h: imgsz, pad_x, pad_y: 0, ratio }
    }
}

/// Ratio used for video frames, in `SCALE` units.  It reads the width
/// alone; for square targets the downstream un-projection is symmetric in
/// the two sides, so the result agrees with the longer-side ratio wherever
/// the width is the longer side, and the observable behavior stays the
/// same either way.
pub open spec fn vid_ratio(w: int, s: int) -> int {
    w * SCALE / s
}

/// Letterbox padding of a video frame, in pixels, on the short side.
pub open spec fn vid_pad(w: int, h: int, s: int) -> int {
    (if w >= h {
        w - h
    } else {
        h - w
    }) * s / (2 * w)
}

/// One frame handed to the detect stage: which file and frame it is, the
/// original dimensions, and the letterbox parameters needed to un-project
/// model coordinates.  `shoot_time` is the already-formatted capture time,
/// when one is known.
pub struct FrameMeta {
    pub file: FileItem,
    pub width: usize,
    pub height: usize,
    pub padding: (usize, usize),
    pub ratio: i64,
    pub frame_index: usize,
    pub total_frames: usize,
    pub shoot_time: Option<String>,
    pub iframe: bool,
}

/// A file whose decode failed; travels the frame channel so the failure
/// becomes one error record instead of aborting the run.
pub struct ErrFile {
    pub file: FileItem,
    pub error: String,
}

/// What the media stage pushes onto the frame channel.
pub enum ArrayItem {
    Frame(FrameMeta),
    ErrFile(ErrFile),
}

/// View equality for optional strings.
pub open spec fn same_opt_string(a: Option<String>, b: Option<String>) -> bool {
    match (a, b) {
        (Some(x), Some(y)) => x@ == y@,
        (None, None) => true,
        _ => false,
    }
}

fn clone_opt_string(s: &Option<String>) -> (r: Option<String>)
    ensures
        same_opt_string(r, *s),
{
    match s {
        Some(x) => Some(x.clone()),
        None => None,
    }
}

/// Plan the single frame of a still image: letterbox geometry plus frame
/// bookkeeping (`frame_index` 0 of 1, not a keyframe).
pub fn plan_image_frame(
    file: &FileItem,
    width: usize,
    height: usize,
    imgsz: usize,
    shoot_time: Option<String>,
) -> (r: FrameMeta)
    requires
        1 <= width <= MAX_DIM,
        1 <= height <= MAX_DIM,
        2 <= imgsz <= MAX_DIM,
        imgsz % 2 == 0,
    ensures
        same_item(r.file, *file),
        r.width == width,
        r.height == height,
        r.padding.0 == (imgsz - lb_resized_w((width as int), height as int, imgsz as int)) / 2,
        r.padding.1 == (imgsz - lb_resized_h((width as int), height as int, imgsz as int)) / 2,
        r.ratio == lb_ratio((width as int), height as int, imgsz as int),
        r.frame_index == 0,
        r.total_frames == 1,
        same_opt_string(r.shoot_time, shoot_time),
        r.iframe == false,
{
    let plan = letterbox_plan(width, height, imgsz);
    FrameMeta {
        file: file.duplicate(),
        width,
        height,
        padding: (plan.pad_x, plan.pad_y),
        ratio: plan.ratio,
        frame_index: 0,
        total_frames: 1,
        shoot_time,
        iframe: false,
    }
}

/// Plan the frames of a video from the decode ordinals the demuxer
/// produced: sample at most `max_frames` of them evenly, and give every
/// kept frame the video's letterbox parameters.  An empty decode yields
/// the error envelope instead.
pub fn plan_video_frames(
    file: &FileItem,
    frame_nums: &Vec<usize>,
    orig_w: usize,
    orig_h: usize,
    imgsz: usize,
    iframe: bool,
    max_frames: Option<usize>,
    shoot_time: Option<String>,
    decode_error: String,
) -> (r: Result<Vec<FrameMeta>, ErrFile>)
    requires
        1 <= orig_w <= MAX_DIM,
        1 <= orig_h <= MAX_DIM,
        1 <= imgsz <= MAX_DIM,
    ensures
        match r {
            Result::Ok(metas) => {
                let k = match max_frames {
                    Some(k) => k as nat,
                    None => frame_nums@.len(),
                };
                let n = sample_count(frame_nums@.len(), k);
                &&& frame_nums@.len() > 0
                &&& metas@.len() == n
                &&& forall|i: int|
                    0 <= i < n ==> #[trigger] metas@[i].frame_index == frame_nums@[sample_index(
                        frame_nums@.len(),
                        n,
                        i,
                    )]
                &&& forall|i: int|
                    0 <= i < n ==> {
                        let m = #[trigger] metas@[i];
                        &&& same_item(m.file, *file)
                        &&& m.width == orig_w
                        &&& m.height == orig_h
                        &&& m.total_frames == n
                        &&& m.iframe == iframe
                        &&& m.ratio == vid_ratio((orig_w as int), imgsz as int)
                        &&& m.padding == (if orig_w > orig_h {
                            (0usize, vid_pad((orig_w as int), (orig_h as int), imgsz as int) as usize)
                        } else {
                            (vid_pad((orig_w as int), (orig_h as int), imgsz as int) as usize, 0usize)
                        })
                        &&& same_opt_string(m.shoot_time, shoot_time)
                    }
            },
            Result::Err(e) => {
                &&& frame_nums@.len() == 0
                &&& same_item(e.file, *file)
                &&& e.error@ == decode_error@
            },
        },
{
    if frame_nums.len() == 0 {
        return Result::Err(ErrFile { file: file.duplicate(), error: decode_error });
    }
    let k = match max_frames {
        Some(k) => k,
        None => frame_nums.len(),
    };
    let sampled = sample_evenly(frame_nums.as_slice(), k);
    let w = orig_w as u64;
    let h = orig_h as u64;
    let s = imgsz as u64;
    let ratio = ((w * 10_000) / s) as i64;
    let diff: u64 = if orig_w >= orig_h {
        w - h
    } else {
        h - w
    };
    proof {
        assert((diff as int) * (s as int) <= 900_000_000) by (nonlinear_arith)
            requires
                0 <= (diff as int) <= 30_000,
                0 <= (s as int) <= 30_000,
        ;
        assert(((diff as int) * (s as int)) / (2 * (w as int)) <= (diff as int) * (s as int)) by (nonlinear_arith)
            requires
                (diff as int) * (s as int) >= 0,
                2 * (w as int) >= 2,
        ;
    }
    let pad = ((diff * s) / (2 * w)) as usize;
    let padding = if orig_w > orig_h {
        (0usize, pad)
    } else {
        (pad, 0usize)
    };
    let n = sampled.len();
    let mut metas: Vec<FrameMeta> = Vec::new();
    let mut i: usize = 0;
    while i < n
        invariant
            n == sampled@.len(),
            i <= n,
            metas@.len() == i,
            forall|j: int| 0 <= j < i ==> #[trigger] metas@[j].frame_index == sampled@[j],
            forall|j: int|
                0 <= j < i ==> {
                    let m = #[trigger] metas@[j];
                    &&& same_item(m.file, *file)
                    &&& m.width == orig_w
                    &&& m.height == orig_h
                    &&& m.total_frames == n
                    &&& m.iframe == iframe
                    &&& m.ratio == ratio
                    &&& m.padding == padding
                    &&& same_opt_string(m.shoot_time, shoot_time)
                },
        decreases n - i,
    {
        let meta = FrameMeta {
            file: file.duplicate(),
            width: orig_w,
            height: orig_h,
            padding,
            ratio,
            frame_index: sampled[i],
            total_frames: n,
            shoot_time: clone_opt_string(&shoot_time),
            iframe,
        };
        metas.push(meta);
        i = i + 1;
    }
    Result::Ok(metas)
}

/// The capture time of a video is the earlier of its modification and
/// creation timestamps.
pub fn earlier_timestamp(m_time: i64, c_time: i64) -> (r: i64)
    ensures
        r == smin_i64(m_time, c_time),
{
    if m_time <= c_time {
        m_time
    } else {
        c_time
    }
}

pub open spec fn smin_i64(a: i64, b: i64) -> i64 {
    if a <= b {
        a
    } else {
        b
    }
}

/// EXIF capture time: `DateTimeOriginal` when present, else `ModifyDate`.
pub fn choose_shoot_time(date_time_original: Option<String>, modify_date: Option<String>) -> (r:
    Option<String>)
    ensures
        same_opt_string(
            r,
            match date_time_original {
                Some(d) => Some(d),
                None => modify_date,
            },
        ),
{
    match date_time_original {
        Some(d) => Some(d),
        None => modify_date,
    }
}

/// For one file, the records produced from its planned frames are
/// complete: one record per frame, each declaring the whole count — so
/// the number of records with the file's identity equals the declared
/// total.
pub proof fn lemma_per_file_records_complete(metas: Seq<FrameMeta>, totals: Seq<int>)
    requires
        totals.len() == metas.len(),
        forall|i: int| 0 <= i < metas.len() ==> totals[i] == (#[trigger] metas[i]).total_frames,
        forall|i: int| 0 <= i < metas.len() ==> (#[trigger] metas[i]).total_frames == metas.len(),
    ensures
        forall|i: int| 0 <= i < totals.len() ==> totals[i] == totals.len(),
{
    assert forall|i: int| 0 <= i < totals.len() implies totals[i] == totals.len() by {
        assert(totals[i] == metas[i].total_frames);
    }
}

} // verus!
