//! Per-frame detection records and the accumulator the exporter pool
//! feeds: every received record is appended under one lock, and every
//! `checkpoint` records the whole accumulator is rewritten to disk.

use crate::codec::{
    expect_lit, lemma_parse_quoted_bounds, lemma_scan_u64_bounds, fmt_i64, fmt_u64, is_digit, join_semi, lemma_join_split_semi,
    lemma_quoted_round_trip, lemma_scan_i64_of_string, lemma_scan_u64_of_string,
    lemma_split_chunk, parse_quoted, quote_field, scan_i64, scan_u64, spec_expect_lit,
    spec_i64_string, spec_join_semi, spec_parse_quoted, spec_quoted, spec_scan_i64, spec_scan_u64,
    spec_split_semi, spec_u64_string, split_semi,
};
use crate::geometry::Bbox;
use crate::media::same_opt_string;
use crate::text::str_eq;
use crate::utils::{same_item, FileItem};
use vstd::prelude::*;

verus! {

/// One result record: which frame of which file, what was detected, and
/// the labels derived from it.  A record with a non-empty `error` stands
/// for a file that failed to decode: it counts `1` of `1` frames and has
/// no boxes and no label.
pub struct ExportFrame {
    pub file: FileItem,
    pub shoot_time: Option<String>,
    pub frame_index: usize,
    pub total_frames: usize,
    pub bboxes: Option<Vec<Bbox>>,
    pub label: Option<Vec<String>>,
    pub error: Option<String>,
    pub iframe: bool,
}

/// The record a decode failure becomes: one errored frame standing for
/// the whole file.
pub fn error_export_frame(file: FileItem, error: String) -> (r: ExportFrame)
    ensures
        same_item(r.file, file),
        r.shoot_time is None,
        r.frame_index == 0,
        r.total_frames == 1,
        (match r.bboxes {
            Some(b) => b@.len() == 0,
            None => false,
        }),
        r.label is None,
        (match r.error {
            Some(e) => e@ == error@,
            None => false,
        }),
        r.iframe == false,
{
    ExportFrame {
        file,
        shoot_time: None,
        frame_index: 0,
        total_frames: 1,
        bboxes: Some(Vec::new()),
        label: None,
        error: Some(error),
        iframe: false,
    }
}

/// The record one successfully detected frame becomes.
pub fn make_export_frame(frame: &crate::media::FrameMeta, bboxes: Vec<Bbox>, label: Vec<String>) -> (r:
    ExportFrame)
    ensures
        same_item(r.file, frame.file),
        same_opt_string(r.shoot_time, frame.shoot_time),
        r.frame_index == frame.frame_index,
        r.total_frames == frame.total_frames,
        (match r.bboxes {
            Some(b) => b@ == bboxes@,
            None => false,
        }),
        (match r.label {
            Some(l) => l@ == label@,
            None => false,
        }),
        r.error is None,
        r.iframe == frame.iframe,
{
    let shoot_time = match &frame.shoot_time {
        Some(t) => Some(t.clone()),
        None => None,
    };
    ExportFrame {
        file: frame.file.duplicate(),
        shoot_time,
        frame_index: frame.frame_index,
        total_frames: frame.total_frames,
        bboxes: Some(bboxes),
        label: Some(label),
        error: None,
        iframe: frame.iframe,
    }
}

/// The exporter pool's shared state: the accumulator of every record seen
/// so far and the count of records received, used to decide when to
/// rewrite the snapshot.
pub struct ExportState {
    pub records: Vec<ExportFrame>,
    pub counter: usize,
    pub checkpoint: usize,
}

impl ExportState {
    /// A fresh accumulator; `checkpoint` is the snapshot interval and must
    /// be positive (a zero interval is rejected when the run is planned).
    pub fn new(checkpoint: usize) -> (r: ExportState)
        requires
            checkpoint > 0,
        ensures
            r.records@.len() == 0,
            r.counter == 0,
            r.checkpoint == checkpoint,
    {
        ExportState { records: Vec::new(), counter: 0, checkpoint }
    }

    /// Seed the accumulator with the records of a loaded checkpoint.
    pub fn seed(&mut self, frames: Vec<ExportFrame>)
        ensures
            final(self).records@ == old(self).records@ + frames@,
            final(self).counter == old(self).counter,
            final(self).checkpoint == old(self).checkpoint,
    {
        let mut frames = frames;
        self.records.append(&mut frames);
    }

    /// Take in one record: decide whether a snapshot is due (every
    /// `checkpoint` records, but not before the first), then append the
    /// record and advance the counter.  Returns whether the caller should
    /// rewrite the result file now.
    pub fn record(&mut self, frame: ExportFrame) -> (snapshot: bool)
        requires
            old(self).checkpoint > 0,
            old(self).counter < usize::MAX,
        ensures
            snapshot == (old(self).counter % old(self).checkpoint == 0 && old(self).counter != 0),
            final(self).records@ == old(self).records@.push(frame),
            final(self).counter == old(self).counter + 1,
            final(self).checkpoint == old(self).checkpoint,
    {
        let snapshot = self.counter % self.checkpoint == 0 && self.counter != 0;
        self.records.push(frame);
        self.counter = self.counter + 1;
        snapshot
    }
}

/// JSON text of one box, integer fields in `SCALE` units.
pub open spec fn spec_bbox_json(b: Bbox) -> Seq<char> {
    "{\"x1\":"@ + (spec_i64_string(b.x1 as int) + (",\"y1\":"@ + (spec_i64_string(b.y1 as int)
        + (",\"x2\":"@ + (spec_i64_string(b.x2 as int) + (",\"y2\":"@ + (spec_i64_string(
        b.y2 as int,
    ) + (",\"score\":"@ + (spec_i64_string(b.score as int) + (",\"class\":"@ + (spec_u64_string(
        b.class as int,
    ) + "}"@)))))))))))
}

/// JSON text of the items of a box list, comma separated.
pub open spec fn spec_bbox_items(l: Seq<Bbox>) -> Seq<char>
    decreases l.len(),
{
    if l.len() == 0 {
        Seq::empty()
    } else if l.len() == 1 {
        spec_bbox_json(l[0])
    } else {
        spec_bbox_json(l[0]) + (seq![','] + spec_bbox_items(l.drop_first()))
    }
}

/// JSON text of an optional box list: `null` or `[items]`.
pub open spec fn spec_bboxes_field(o: Option<Seq<Bbox>>) -> Seq<char> {
    match o {
        None => "null"@,
        Some(l) => seq!['['] + (spec_bbox_items(l) + seq![']']),
    }
}

/// Parse one box object at `i`.
pub open spec fn spec_parse_bbox(s: Seq<char>, i: int) -> Option<(Bbox, int)> {
    match spec_expect_lit(s, i, "{\"x1\":"@) {
        None => None,
        Some(i1) => match spec_scan_i64(s, i1) {
            None => None,
            Some((x1, i2)) => match spec_expect_lit(s, i2, ",\"y1\":"@) {
                None => None,
                Some(i3) => match spec_scan_i64(s, i3) {
                    None => None,
                    Some((y1, i4)) => match spec_expect_lit(s, i4, ",\"x2\":"@) {
                        None => None,
                        Some(i5) => match spec_scan_i64(s, i5) {
                            None => None,
                            Some((x2, i6)) => match spec_expect_lit(s, i6, ",\"y2\":"@) {
                                None => None,
                                Some(i7) => match spec_scan_i64(s, i7) {
                                    None => None,
                                    Some((y2, i8)) => match spec_expect_lit(s, i8, ",\"score\":"@) {
                                        None => None,
                                        Some(i9) => match spec_scan_i64(s, i9) {
                                            None => None,
                                            Some((score, i10)) => match spec_expect_lit(
                                                s,
                                                i10,
                                                ",\"class\":"@,
                                            ) {
                                                None => None,
                                                Some(i11) => match spec_scan_u64(s, i11) {
                                                    None => None,
                                                    Some((class, i12)) => if class
                                                        <= usize::MAX as u64 {
                                                        match spec_expect_lit(s, i12, "}"@) {
                                                            None => None,
                                                            Some(e) => Some(
                                                                (
                                                                    Bbox {
                                                                        x1,
                                                                        y1,
                                                                        x2,
                                                                        y2,
                                                                        score,
                                                                        class: class as usize,
                                                                    },
                                                                    e,
                                                                ),
                                                            ),
                                                        }
                                                    } else {
                                                        None
                                                    },
                                                },
                                            },
                                        },
                                    },
                                },
                            },
                        },
                    },
                },
            },
        },
    }
}

/// Parse box objects separated by commas, stopping after the last one.
pub open spec fn spec_parse_bbox_items(s: Seq<char>, i: int) -> Option<(Seq<Bbox>, int)>
    decreases s.len() - i,
{
    match spec_parse_bbox(s, i) {
        None => None,
        Some((b, e)) => if e <= i {
            None
        } else if e < s.len() && s[e] == ',' {
            match spec_parse_bbox_items(s, e + 1) {
                None => None,
                Some((l, e2)) => Some((seq![b] + l, e2)),
            }
        } else {
            Some((seq![b], e))
        },
    }
}

/// Parse an optional box list: `null`, `[]`, or `[items]`.
pub open spec fn spec_parse_bboxes_field(s: Seq<char>, i: int) -> Option<
    (Option<Seq<Bbox>>, int),
> {
    match spec_expect_lit(s, i, "null"@) {
        Some(e) => Some((None, e)),
        None => if 0 <= i < s.len() && s[i] == '[' {
            if i + 1 < s.len() && s[i + 1] == ']' {
                Some((Some(Seq::empty()), i + 2))
            } else {
                match spec_parse_bbox_items(s, i + 1) {
                    None => None,
                    Some((l, e)) => if e < s.len() && s[e] == ']' {
                        Some((Some(l), e + 1))
                    } else {
                        None
                    },
                }
            }
        } else {
            None
        },
    }
}

proof fn lemma_bbox_lits()
    ensures
        "{\"x1\":"@.len() == 6,
        ",\"y1\":"@.len() == 6,
        ",\"x2\":"@.len() == 6,
        ",\"y2\":"@.len() == 6,
        ",\"score\":"@.len() == 9,
        ",\"class\":"@.len() == 9,
        "}"@.len() == 1,
        "null"@.len() == 4,
        ",\"y1\":"@[0] == ',',
        ",\"x2\":"@[0] == ',',
        ",\"y2\":"@[0] == ',',
        ",\"score\":"@[0] == ',',
        ",\"class\":"@[0] == ',',
        "}"@[0] == '}',
        "{\"x1\":"@[0] == '{',
        "null"@[0] == 'n',
        !is_digit(','),
        !is_digit('}'),
{
    reveal_strlit("{\"x1\":");
    reveal_strlit(",\"y1\":");
    reveal_strlit(",\"x2\":");
    reveal_strlit(",\"y2\":");
    reveal_strlit(",\"score\":");
    reveal_strlit(",\"class\":");
    reveal_strlit("}");
    reveal_strlit("null");
    assert(',' as u32 == 44);
    assert('}' as u32 == 125);
}

/// One encoded box object parses back to the box it encodes.
pub proof fn lemma_bbox_json_round_trip(b: Bbox, s: Seq<char>, i: int)
    requires
        0 <= i,
        i + spec_bbox_json(b).len() <= s.len(),
        s.subrange(i, i + spec_bbox_json(b).len() as int) == spec_bbox_json(b),
    ensures
        spec_parse_bbox(s, i) == Some((b, i + spec_bbox_json(b).len() as int)),
        i < i + spec_bbox_json(b).len(),
    decreases 0int,
{
    lemma_bbox_lits();
    let k1 = "{\"x1\":"@;
    let n1 = spec_i64_string(b.x1 as int);
    let k2 = ",\"y1\":"@;
    let n2 = spec_i64_string(b.y1 as int);
    let k3 = ",\"x2\":"@;
    let n3 = spec_i64_string(b.x2 as int);
    let k4 = ",\"y2\":"@;
    let n4 = spec_i64_string(b.y2 as int);
    let k5 = ",\"score\":"@;
    let n5 = spec_i64_string(b.score as int);
    let k6 = ",\"class\":"@;
    let n6 = spec_u64_string(b.class as int);
    let k7 = "}"@;
    let r1 = n1 + (k2 + (n2 + (k3 + (n3 + (k4 + (n4 + (k5 + (n5 + (k6 + (n6 + k7))))))))));
    let r2 = k2 + (n2 + (k3 + (n3 + (k4 + (n4 + (k5 + (n5 + (k6 + (n6 + k7)))))))));
    let r3 = n2 + (k3 + (n3 + (k4 + (n4 + (k5 + (n5 + (k6 + (n6 + k7))))))));
    let r4 = k3 + (n3 + (k4 + (n4 + (k5 + (n5 + (k6 + (n6 + k7)))))));
    let r5 = n3 + (k4 + (n4 + (k5 + (n5 + (k6 + (n6 + k7))))));
    let r6 = k4 + (n4 + (k5 + (n5 + (k6 + (n6 + k7)))));
    let r7 = n4 + (k5 + (n5 + (k6 + (n6 + k7))));
    let r8 = k5 + (n5 + (k6 + (n6 + k7)));
    let r9 = n5 + (k6 + (n6 + k7));
    let r10 = k6 + (n6 + k7);
    let r11 = n6 + k7;
    assert(spec_bbox_json(b) == k1 + r1);
    lemma_split_chunk(s, i, k1, r1);
    let i1 = i + k1.len() as int;
    assert(spec_expect_lit(s, i, k1) == Some(i1));
    lemma_split_chunk(s, i1, n1, r2);
    let i2 = i1 + n1.len() as int;
    assert(s[i2] == ',') by {
        assert(s.subrange(i2, i2 + r2.len() as int)[0] == s[i2 + 0]);
        assert(r2[0] == ',');
    }
    lemma_scan_i64_of_string(b.x1, s, i1);
    lemma_split_chunk(s, i2, k2, r3);
    let i3 = i2 + k2.len() as int;
    assert(spec_expect_lit(s, i2, k2) == Some(i3));
    lemma_split_chunk(s, i3, n2, r4);
    let i4 = i3 + n2.len() as int;
    assert(s[i4] == ',') by {
        assert(s.subrange(i4, i4 + r4.len() as int)[0] == s[i4 + 0]);
        assert(r4[0] == ',');
    }
    lemma_scan_i64_of_string(b.y1, s, i3);
    lemma_split_chunk(s, i4, k3, r5);
    let i5 = i4 + k3.len() as int;
    assert(spec_expect_lit(s, i4, k3) == Some(i5));
    lemma_split_chunk(s, i5, n3, r6);
    let i6 = i5 + n3.len() as int;
    assert(s[i6] == ',') by {
        assert(s.subrange(i6, i6 + r6.len() as int)[0] == s[i6 + 0]);
        assert(r6[0] == ',');
    }
    lemma_scan_i64_of_string(b.x2, s, i5);
    lemma_split_chunk(s, i6, k4, r7);
    let i7 = i6 + k4.len() as int;
    assert(spec_expect_lit(s, i6, k4) == Some(i7));
    lemma_split_chunk(s, i7, n4, r8);
    let i8 = i7 + n4.len() as int;
    assert(s[i8] == ',') by {
        assert(s.subrange(i8, i8 + r8.len() as int)[0] == s[i8 + 0]);
        assert(r8[0] == ',');
    }
    lemma_scan_i64_of_string(b.y2, s, i7);
    lemma_split_chunk(s, i8, k5, r9);
    let i9 = i8 + k5.len() as int;
    assert(spec_expect_lit(s, i8, k5) == Some(i9));
    lemma_split_chunk(s, i9, n5, r10);
    let i10 = i9 + n5.len() as int;
    assert(s[i10] == ',') by {
        assert(s.subrange(i10, i10 + r10.len() as int)[0] == s[i10 + 0]);
        assert(r10[0] == ',');
    }
    lemma_scan_i64_of_string(b.score, s, i9);
    lemma_split_chunk(s, i10, k6, r11);
    let i11 = i10 + k6.len() as int;
    assert(spec_expect_lit(s, i10, k6) == Some(i11));
    lemma_split_chunk(s, i11, n6, k7);
    let i12 = i11 + n6.len() as int;
    assert(s[i12] == '}') by {
        assert(s.subrange(i12, i12 + k7.len() as int)[0] == s[i12 + 0]);
        assert(k7[0] == '}');
    }
    lemma_scan_u64_of_string(b.class as u64, s, i11);
    let e = i12 + k7.len() as int;
    assert(spec_expect_lit(s, i12, k7) == Some(e));
    assert(b.class as u64 <= usize::MAX as u64);
    assert(e == i + spec_bbox_json(b).len());
}

/// Any successful box parse moves forward and stays in bounds.
pub proof fn lemma_parse_bbox_advances(s: Seq<char>, i: int)
    ensures
        (match spec_parse_bbox(s, i) {
            Some((b, e)) => i < e <= s.len(),
            None => true,
        }),
{
    lemma_bbox_lits();
    match spec_expect_lit(s, i, "{\"x1\":"@) {
        None => {},
        Some(i1) => {
            crate::codec::lemma_scan_i64_bounds(s, i1);
            match spec_scan_i64(s, i1) {
                None => {},
                Some((x1, i2)) => {
                    match spec_expect_lit(s, i2, ",\"y1\":"@) {
                        None => {},
                        Some(i3) => {
                            crate::codec::lemma_scan_i64_bounds(s, i3);
                            match spec_scan_i64(s, i3) {
                                None => {},
                                Some((y1, i4)) => {
                                    match spec_expect_lit(s, i4, ",\"x2\":"@) {
                                        None => {},
                                        Some(i5) => {
                                            crate::codec::lemma_scan_i64_bounds(s, i5);
                                            match spec_scan_i64(s, i5) {
                                                None => {},
                                                Some((x2, i6)) => {
                                                    lemma_parse_bbox_advances_tail(s, i6);
                                                },
                                            }
                                        },
                                    }
                                },
                            }
                        },
                    }
                },
            }
        },
    }
}

proof fn lemma_parse_bbox_advances_tail(s: Seq<char>, i6: int)
    requires
        0 <= i6 <= s.len(),
    ensures
        (match spec_expect_lit(s, i6, ",\"y2\":"@) {
            None => true,
            Some(i7) => match spec_scan_i64(s, i7) {
                None => true,
                Some((y2, i8)) => match spec_expect_lit(s, i8, ",\"score\":"@) {
                    None => true,
                    Some(i9) => match spec_scan_i64(s, i9) {
                        None => true,
                        Some((score, i10)) => match spec_expect_lit(s, i10, ",\"class\":"@) {
                            None => true,
                            Some(i11) => match spec_scan_u64(s, i11) {
                                None => true,
                                Some((class, i12)) => match spec_expect_lit(s, i12, "}"@) {
                                    None => true,
                                    Some(e) => i6 < e <= s.len(),
                                },
                            },
                        },
                    },
                },
            },
        }),
{
    lemma_bbox_lits();
    match spec_expect_lit(s, i6, ",\"y2\":"@) {
        None => {},
        Some(i7) => {
            crate::codec::lemma_scan_i64_bounds(s, i7);
            match spec_scan_i64(s, i7) {
                None => {},
                Some((y2, i8)) => {
                    match spec_expect_lit(s, i8, ",\"score\":"@) {
                        None => {},
                        Some(i9) => {
                            crate::codec::lemma_scan_i64_bounds(s, i9);
                            match spec_scan_i64(s, i9) {
                                None => {},
                                Some((score, i10)) => {
                                    match spec_expect_lit(s, i10, ",\"class\":"@) {
                                        None => {},
                                        Some(i11) => {
                                            crate::codec::lemma_scan_u64_bounds(s, i11);
                                        },
                                    }
                                },
                            }
                        },
                    }
                },
            }
        },
    }
}

/// The encoded items of a nonempty list, followed by `]`, parse back to
/// the list.
pub proof fn lemma_bbox_items_round_trip(l: Seq<Bbox>, s: Seq<char>, i: int)
    requires
        l.len() >= 1,
        0 <= i,
        i + spec_bbox_items(l).len() < s.len(),
        s.subrange(i, i + spec_bbox_items(l).len() as int) == spec_bbox_items(l),
        s[i + spec_bbox_items(l).len()] == ']',
    ensures
        spec_parse_bbox_items(s, i) == Some((l, i + spec_bbox_items(l).len() as int)),
    decreases l.len(),
{
    lemma_bbox_lits();
    let t = spec_bbox_items(l);
    if l.len() == 1 {
        assert(t == spec_bbox_json(l[0]));
        lemma_bbox_json_round_trip(l[0], s, i);
        let e = i + t.len() as int;
        assert(s[e] == ']');
        assert(']' as u32 == 93);
        assert(s[e] != ',');
        assert(seq![l[0]] =~= l);
    } else {
        let rest = l.drop_first();
        let a = spec_bbox_json(l[0]);
        let m = seq![','] + spec_bbox_items(rest);
        assert(t == a + m);
        lemma_split_chunk(s, i, a, m);
        lemma_bbox_json_round_trip(l[0], s, i);
        let e1 = i + a.len() as int;
        lemma_split_chunk(s, e1, seq![','], spec_bbox_items(rest));
        assert(s[e1] == ',') by {
            assert(s.subrange(e1, e1 + 1) == seq![',']);
            assert(s.subrange(e1, e1 + 1)[0] == s[e1 + 0]);
        }
        lemma_bbox_items_round_trip(rest, s, e1 + 1);
        assert(seq![l[0]] + rest =~= l);
    }
}

/// An encoded optional box list, with nothing number-like right after it,
/// parses back to the list.  The text after the field must not start with
/// `]` when the field is `null` or `[]` is not the issue here; the field
/// text itself determines the parse.
pub proof fn lemma_bboxes_field_round_trip(o: Option<Seq<Bbox>>, s: Seq<char>, i: int)
    requires
        0 <= i,
        i + spec_bboxes_field(o).len() <= s.len(),
        s.subrange(i, i + spec_bboxes_field(o).len() as int) == spec_bboxes_field(o),
    ensures
        spec_parse_bboxes_field(s, i) == Some((o, i + spec_bboxes_field(o).len() as int)),
{
    lemma_bbox_lits();
    reveal_strlit("null");
    let t = spec_bboxes_field(o);
    match o {
        None => {
            assert(t == "null"@);
            assert(spec_expect_lit(s, i, "null"@) == Some(i + 4));
        },
        Some(l) => {
            assert('[' as u32 == 91);
            assert(']' as u32 == 93);
            assert('n' as u32 == 110);
            assert(t == seq!['['] + (spec_bbox_items(l) + seq![']']));
            assert(s[i] == '[') by {
                assert(s.subrange(i, i + t.len() as int)[0] == s[i + 0]);
                assert(t[0] == '[');
            }
            assert(spec_expect_lit(s, i, "null"@) is None) by {
                if i + 4 <= s.len() && s.subrange(i, i + 4) == "null"@ {
                    assert(s.subrange(i, i + 4)[0] == s[i + 0]);
                }
            }
            lemma_split_chunk(s, i, seq!['['], spec_bbox_items(l) + seq![']']);
            lemma_split_chunk(s, i + 1, spec_bbox_items(l), seq![']']);
            let einner = i + 1 + spec_bbox_items(l).len() as int;
            assert(s[einner] == ']') by {
                assert(s.subrange(einner, einner + 1) == seq![']']);
                assert(s.subrange(einner, einner + 1)[0] == s[einner + 0]);
            }
            if l.len() == 0 {
                assert(spec_bbox_items(l).len() == 0);
                assert(s[i + 1] == ']');
                assert(Seq::<Bbox>::empty() =~= l);
            } else {
                assert(spec_bbox_items(l).len() > 0) by {
                    lemma_bbox_items_nonempty(l);
                }
                assert(s[i + 1] != ']') by {
                    assert(s.subrange(i + 1, einner)[0] == s[i + 1 + 0]);
                    assert(spec_bbox_items(l)[0] == spec_bbox_json(l[0])[0]);
                    assert(spec_bbox_json(l[0])[0] == '{') by {
                        assert(spec_bbox_json(l[0])[0] == "{\"x1\":"@[0]);
                    }
                    assert('{' as u32 == 123);
                }
                lemma_bbox_items_round_trip(l, s, i + 1);
            }
        },
    }
}

proof fn lemma_bbox_items_nonempty(l: Seq<Bbox>)
    requires
        l.len() >= 1,
    ensures
        spec_bbox_items(l).len() > 0,
        spec_bbox_items(l)[0] == spec_bbox_json(l[0])[0],
        spec_bbox_json(l[0]).len() > 0,
{
    lemma_bbox_lits();
    let j = spec_bbox_json(l[0]);
    assert(j.len() > 0);
    if l.len() == 1 {
    } else {
        assert(spec_bbox_items(l) == j + (seq![','] + spec_bbox_items(l.drop_first())));
        assert(spec_bbox_items(l)[0] == j[0]);
    }
}

/// View of an optional box vector.
pub open spec fn view_bboxes(o: Option<Vec<Bbox>>) -> Option<Seq<Bbox>> {
    match o {
        None => None,
        Some(v) => Some(v@),
    }
}

proof fn lemma_bbox_items_snoc(l: Seq<Bbox>, b: Bbox)
    requires
        l.len() >= 1,
    ensures
        spec_bbox_items(l.push(b)) == spec_bbox_items(l) + (seq![','] + spec_bbox_json(b)),
    decreases l.len(),
{
    let lp = l.push(b);
    if l.len() == 1 {
        assert(lp.drop_first() =~= seq![b]);
        assert(lp[0] == l[0]);
        assert(seq![b][0] == b);
        assert(spec_bbox_items(seq![b]) == spec_bbox_json(b));
        assert(spec_bbox_items(lp) == spec_bbox_json(l[0]) + (seq![','] + spec_bbox_json(b)));
    } else {
        lemma_bbox_items_snoc(l.drop_first(), b);
        assert(lp.drop_first() =~= l.drop_first().push(b));
        assert(spec_bbox_items(lp) == spec_bbox_json(l[0]) + (seq![','] + spec_bbox_items(
            l.drop_first().push(b),
        )));
        assert(spec_bbox_json(l[0]) + (seq![','] + (spec_bbox_items(l.drop_first()) + (seq![',']
            + spec_bbox_json(b)))) =~= (spec_bbox_json(l[0]) + (seq![','] + spec_bbox_items(
            l.drop_first(),
        ))) + (seq![','] + spec_bbox_json(b)));
    }
}

/// JSON text of one box.
#[verifier::rlimit(60)]
pub fn fmt_bbox(b: &Bbox) -> (r: String)
    ensures
        r@ == spec_bbox_json(*b),
{
    proof {
        lemma_bbox_lits();
    }
    let mut out = String::new();
    out.append("{\"x1\":");
    let t1 = fmt_i64(b.x1);
    out.append(t1.as_str());
    out.append(",\"y1\":");
    let t2 = fmt_i64(b.y1);
    out.append(t2.as_str());
    out.append(",\"x2\":");
    let t3 = fmt_i64(b.x2);
    out.append(t3.as_str());
    out.append(",\"y2\":");
    let t4 = fmt_i64(b.y2);
    out.append(t4.as_str());
    out.append(",\"score\":");
    let t5 = fmt_i64(b.score);
    out.append(t5.as_str());
    out.append(",\"class\":");
    let t6 = fmt_u64(b.class as u64);
    out.append(t6.as_str());
    out.append("}");
    proof {
        assert(out@ =~= spec_bbox_json(*b));
    }
    out
}

/// JSON text of an optional box list.
pub fn fmt_bboxes_field(o: &Option<Vec<Bbox>>) -> (r: String)
    ensures
        r@ == spec_bboxes_field(view_bboxes(*o)),
{
    match o {
        None => {
            proof {
                reveal_strlit("null");
            }
            let mut out = String::new();
            out.append("null");
            proof {
                assert(out@ =~= "null"@);
            }
            out
        },
        Some(l) => {
            proof {
                reveal_strlit("[");
                reveal_strlit("]");
                reveal_strlit(",");
            }
            let mut out = String::new();
            out.append("[");
            let mut i: usize = 0;
            while i < l.len()
                invariant
                    i <= l@.len(),
                    out@ == seq!['['] + spec_bbox_items(l@.take(i as int)),
                decreases l@.len() - i,
            {
                proof {
                    reveal_strlit(",");
                }
                let piece = fmt_bbox(&l[i]);
                if i > 0 {
                    out.append(",");
                }
                out.append(piece.as_str());
                proof {
                    assert(l@.take(i as int + 1) =~= l@.take(i as int).push(l@[i as int]));
                    if i == 0 {
                        assert(l@.take(1).drop_first() =~= Seq::<Bbox>::empty());
                        assert(spec_bbox_items(l@.take(1)) == spec_bbox_json(l@[0]));
                        assert(out@ =~= seq!['['] + spec_bbox_items(l@.take(i as int + 1)));
                    } else {
                        lemma_bbox_items_snoc(l@.take(i as int), l@[i as int]);
                        assert(out@ =~= seq!['['] + spec_bbox_items(l@.take(i as int + 1)));
                    }
                }
                i = i + 1;
            }
            out.append("]");
            proof {
                assert(l@.take(l@.len() as int) =~= l@);
                assert(out@ =~= spec_bboxes_field(view_bboxes(Some(*l))));
            }
            out
        },
    }
}

/// Read one box object at character `i`.
#[verifier::rlimit(100)]
pub fn parse_bbox(s: &str, i: usize) -> (r: Option<(Bbox, usize)>)
    requires
        i <= s@.len(),
    ensures
        (match (r, spec_parse_bbox(s@, i as int)) {
            (Some((b, e)), Some((sb, se))) => b == sb && e == se,
            (None, None) => true,
            _ => false,
        }),
{
    let i1 = match expect_lit(s, i, "{\"x1\":") {
        Some(e) => e,
        None => {
            return None;
        },
    };
    proof {
        crate::codec::lemma_scan_i64_bounds(s@, i1 as int);
    }
    let (x1, i2) = match scan_i64(s, i1) {
        Some(p) => p,
        None => {
            return None;
        },
    };
    let i3 = match expect_lit(s, i2, ",\"y1\":") {
        Some(e) => e,
        None => {
            return None;
        },
    };
    proof {
        crate::codec::lemma_scan_i64_bounds(s@, i3 as int);
    }
    let (y1, i4) = match scan_i64(s, i3) {
        Some(p) => p,
        None => {
            return None;
        },
    };
    let i5 = match expect_lit(s, i4, ",\"x2\":") {
        Some(e) => e,
        None => {
            return None;
        },
    };
    proof {
        crate::codec::lemma_scan_i64_bounds(s@, i5 as int);
    }
    let (x2, i6) = match scan_i64(s, i5) {
        Some(p) => p,
        None => {
            return None;
        },
    };
    let i7 = match expect_lit(s, i6, ",\"y2\":") {
        Some(e) => e,
        None => {
            return None;
        },
    };
    proof {
        crate::codec::lemma_scan_i64_bounds(s@, i7 as int);
    }
    let (y2, i8) = match scan_i64(s, i7) {
        Some(p) => p,
        None => {
            return None;
        },
    };
    let i9 = match expect_lit(s, i8, ",\"score\":") {
        Some(e) => e,
        None => {
            return None;
        },
    };
    proof {
        crate::codec::lemma_scan_i64_bounds(s@, i9 as int);
    }
    let (score, i10) = match scan_i64(s, i9) {
        Some(p) => p,
        None => {
            return None;
        },
    };
    let i11 = match expect_lit(s, i10, ",\"class\":") {
        Some(e) => e,
        None => {
            return None;
        },
    };
    proof {
        crate::codec::lemma_scan_u64_bounds(s@, i11 as int);
    }
    let (class, i12) = match scan_u64(s, i11) {
        Some(p) => p,
        None => {
            return None;
        },
    };
    if !(class <= usize::MAX as u64) {
        return None;
    }
    let e = match expect_lit(s, i12, "}") {
        Some(e) => e,
        None => {
            return None;
        },
    };
    Some((Bbox { x1, y1, x2, y2, score, class: class as usize }, e))
}

/// Read comma-separated box objects starting at character `i`.
#[verifier::rlimit(60)]
pub fn parse_bbox_items(s: &str, i: usize) -> (r: Option<(Vec<Bbox>, usize)>)
    requires
        i <= s@.len(),
    ensures
        (match (r, spec_parse_bbox_items(s@, i as int)) {
            (Some((l, e)), Some((sl, se))) => l@ == sl && e == se,
            (None, None) => true,
            _ => false,
        }),
    decreases s@.len() - i,
{
    proof {
        lemma_parse_bbox_advances(s@, i as int);
    }
    let (b, e) = match parse_bbox(s, i) {
        Some(p) => p,
        None => {
            return None;
        },
    };
    let n = s.unicode_len();
    if e < n && s.get_char(e) == ',' {
        match parse_bbox_items(s, e + 1) {
            Some((mut l, e2)) => {
                let ghost lv = l@;
                let mut out: Vec<Bbox> = Vec::new();
                out.push(b);
                out.append(&mut l);
                proof {
                    assert(out@ =~= seq![b] + lv);
                }
                Some((out, e2))
            },
            None => None,
        }
    } else {
        let mut out: Vec<Bbox> = Vec::new();
        out.push(b);
        proof {
            assert(out@ =~= seq![b]);
        }
        Some((out, e))
    }
}

/// Read an optional box list starting at character `i`.
pub fn parse_bboxes_field(s: &str, i: usize) -> (r: Option<(Option<Vec<Bbox>>, usize)>)
    requires
        i <= s@.len(),
    ensures
        (match (r, spec_parse_bboxes_field(s@, i as int)) {
            (Some((o, e)), Some((so, se))) => view_bboxes(o) == so && e == se,
            (None, None) => true,
            _ => false,
        }),
{
    match expect_lit(s, i, "null") {
        Some(e) => {
            return Some((None, e));
        },
        None => {},
    }
    let n = s.unicode_len();
    if i < n && s.get_char(i) == '[' {
        if i + 1 < n && s.get_char(i + 1) == ']' {
            let empty: Vec<Bbox> = Vec::new();
            proof {
                assert(empty@ =~= Seq::<Bbox>::empty());
            }
            Some((Some(empty), i + 2))
        } else {
            match parse_bbox_items(s, i + 1) {
                Some((l, e)) => {
                    if e < n && s.get_char(e) == ']' {
                        Some((Some(l), e + 1))
                    } else {
                        None
                    }
                },
                None => None,
            }
        }
    } else {
        None
    }
}

/// The serialized face of one record: everything the result file keeps.
/// The working path is left out on purpose, as the format prescribes.
pub ghost struct RecordV {
    pub folder_id: int,
    pub file_id: int,
    pub file_path: Seq<char>,
    pub shoot_time: Option<Seq<char>>,
    pub frame_index: int,
    pub total_frames: int,
    pub bboxes: Option<Seq<Bbox>>,
    pub label: Option<Seq<Seq<char>>>,
    pub error: Option<Seq<char>>,
    pub iframe: bool,
}

pub open spec fn view_opt_string(o: Option<String>) -> Option<Seq<char>> {
    match o {
        None => None,
        Some(t) => Some(t@),
    }
}

pub open spec fn view_labels(o: Option<Vec<String>>) -> Option<Seq<Seq<char>>> {
    match o {
        None => None,
        Some(l) => Some(Seq::new(l@.len(), |x: int| l@[x]@)),
    }
}

/// What a record looks like to the result file.
pub open spec fn record_view(e: ExportFrame) -> RecordV {
    RecordV {
        folder_id: e.file.folder_id as int,
        file_id: e.file.file_id as int,
        file_path: e.file.file_path@,
        shoot_time: view_opt_string(e.shoot_time),
        frame_index: e.frame_index as int,
        total_frames: e.total_frames as int,
        bboxes: view_bboxes(e.bboxes),
        label: view_labels(e.label),
        error: view_opt_string(e.error),
        iframe: e.iframe,
    }
}

/// The text content of an optional string field: empty when absent.
pub open spec fn spec_opt_field(o: Option<Seq<char>>) -> Seq<char> {
    match o {
        None => Seq::empty(),
        Some(t) => t,
    }
}

/// The text content of the label field: names joined with semicolons,
/// empty when absent.
pub open spec fn spec_label_field(o: Option<Seq<Seq<char>>>) -> Seq<char> {
    match o {
        None => Seq::empty(),
        Some(l) => spec_join_semi(l),
    }
}

/// Columns five to nine of a record's CSV line: the frame counters, the
/// boxes, the labels and the error, ending in a line break.
pub open spec fn spec_csv_row_tail(v: RecordV) -> Seq<char> {
    spec_u64_string(v.frame_index) + (seq![','] + (spec_u64_string(v.total_frames) + (seq![','] + (
    spec_quoted(spec_bboxes_field(v.bboxes)) + (seq![','] + (spec_quoted(spec_label_field(v.label))
        + (seq![','] + (spec_quoted(spec_opt_field(v.error)) + seq!['\n']))))))))
}

/// One CSV line of a record: the nine columns of the result format, the
/// string-like ones quoted, ending in a line break.
pub open spec fn spec_csv_row(v: RecordV) -> Seq<char> {
    spec_u64_string(v.folder_id) + (seq![','] + (spec_u64_string(v.file_id) + (seq![','] + (
    spec_quoted(v.file_path) + (seq![','] + (spec_quoted(spec_opt_field(v.shoot_time)) + (seq![',']
        + spec_csv_row_tail(v))))))))
}

/// A quoted optional string field.
fn fmt_opt_field(o: &Option<String>) -> (r: String)
    ensures
        r@ == spec_quoted(spec_opt_field(view_opt_string(*o))),
{
    match o {
        None => {
            let empty = String::new();
            let q = quote_field(empty.as_str());
            proof {
                assert(q@ =~= spec_quoted(spec_opt_field(None)));
            }
            q
        },
        Some(t) => quote_field(t.as_str()),
    }
}

/// One CSV line of a record.
#[verifier::rlimit(100)]
pub fn encode_csv_row(e: &ExportFrame) -> (r: String)
    ensures
        r@ == spec_csv_row(record_view(*e)),
{
    proof {
        reveal_strlit(",");
        reveal_strlit("\n");
    }
    let mut out = String::new();
    let t1 = fmt_u64(e.file.folder_id as u64);
    out.append(t1.as_str());
    out.append(",");
    let t2 = fmt_u64(e.file.file_id as u64);
    out.append(t2.as_str());
    out.append(",");
    let t3 = quote_field(e.file.file_path.as_str());
    out.append(t3.as_str());
    out.append(",");
    let t4 = fmt_opt_field(&e.shoot_time);
    out.append(t4.as_str());
    out.append(",");
    let t5 = fmt_u64(e.frame_index as u64);
    out.append(t5.as_str());
    out.append(",");
    let t6 = fmt_u64(e.total_frames as u64);
    out.append(t6.as_str());
    out.append(",");
    let t7a = fmt_bboxes_field(&e.bboxes);
    let t7 = quote_field(t7a.as_str());
    out.append(t7.as_str());
    out.append(",");
    let t8a: String = match &e.label {
        None => String::new(),
        Some(l) => {
            if l.len() == 0 {
                String::new()
            } else {
                join_semi(l)
            }
        },
    };
    let t8 = quote_field(t8a.as_str());
    out.append(t8.as_str());
    out.append(",");
    let t9 = fmt_opt_field(&e.error);
    out.append(t9.as_str());
    out.append("\n");
    proof {
        assert(","@ =~= seq![',']);
        assert("\n"@ =~= seq!['\n']);
        assert(t8a@ == spec_label_field(view_labels(e.label)) || (e.label is Some
            && e.label.unwrap()@.len() == 0)) by {
            match e.label {
                None => {
                    assert(t8a@ =~= spec_label_field(view_labels(e.label)));
                },
                Some(l) => {
                    if l@.len() == 0 {
                    } else {
                        assert(t8a@ == spec_join_semi(Seq::new(l@.len(), |x: int| l@[x]@)));
                    }
                },
            }
        }
        assert(out@ =~= spec_csv_row(record_view(*e)));
    }
    out
}

/// Columns five to nine of a record's CSV line, parsed from `i4`; the
/// already-parsed first four columns come in as arguments.
pub open spec fn spec_parse_csv_row_tail(
    s: Seq<char>,
    i4: int,
    folder_id: int,
    file_id: int,
    file_path: Seq<char>,
    shoot_time: Option<Seq<char>>,
) -> Option<(RecordV, int)> {
    match spec_scan_u64(s, i4) {
        None => None,
        Some((frame_index, a)) => if frame_index > usize::MAX as u64 {
            None
        } else {
            match spec_expect_lit(s, a, seq![',']) {
                None => None,
                Some(a1) => match spec_scan_u64(s, a1) {
                    None => None,
                    Some((total, b)) => if total > usize::MAX as u64 {
                        None
                    } else {
                        match spec_expect_lit(s, b, seq![',']) {
                            None => None,
                            Some(b1) => match spec_parse_quoted(s, b1) {
                                None => None,
                                Some((bbtext, c)) => match spec_parse_bboxes_field(bbtext, 0) {
                                    None => None,
                                    Some((bboxes, bbend)) => if bbend != bbtext.len() {
                                        None
                                    } else {
                                        spec_parse_csv_row_end(
                                            s,
                                            c,
                                            folder_id,
                                            file_id,
                                            file_path,
                                            shoot_time,
                                            frame_index as int,
                                            total as int,
                                            bboxes,
                                        )
                                    },
                                },
                            },
                        }
                    },
                },
            }
        },
    }
}

/// The label and error columns and the closing line break.
pub open spec fn spec_parse_csv_row_end(
    s: Seq<char>,
    c: int,
    folder_id: int,
    file_id: int,
    file_path: Seq<char>,
    shoot_time: Option<Seq<char>>,
    frame_index: int,
    total_frames: int,
    bboxes: Option<Seq<Bbox>>,
) -> Option<(RecordV, int)> {
    match spec_expect_lit(s, c, seq![',']) {
        None => None,
        Some(c1) => match spec_parse_quoted(s, c1) {
            None => None,
            Some((labeltext, d)) => match spec_expect_lit(s, d, seq![',']) {
                None => None,
                Some(d1) => match spec_parse_quoted(s, d1) {
                    None => None,
                    Some((errtext, f)) => match spec_expect_lit(s, f, seq!['\n']) {
                        None => None,
                        Some(e) => Some(
                            (
                                RecordV {
                                    folder_id,
                                    file_id,
                                    file_path,
                                    shoot_time,
                                    frame_index,
                                    total_frames,
                                    bboxes,
                                    label: if labeltext.len() == 0 {
                                        None
                                    } else {
                                        Some(spec_split_semi(labeltext, 0))
                                    },
                                    error: if errtext.len() == 0 {
                                        None
                                    } else {
                                        Some(errtext)
                                    },
                                    iframe: false,
                                },
                                e,
                            ),
                        ),
                    },
                },
            },
        },
    }
}

/// The first four columns of a record line: the file identity and the
/// capture time.
pub open spec fn spec_parse_csv_head(s: Seq<char>, i: int) -> Option<
    ((int, int, Seq<char>, Option<Seq<char>>), int),
> {
    match spec_scan_u64(s, i) {
        None => None,
        Some((folder_id, a)) => if folder_id > usize::MAX as u64 {
            None
        } else {
            match spec_expect_lit(s, a, seq![',']) {
                None => None,
                Some(a1) => match spec_scan_u64(s, a1) {
                    None => None,
                    Some((file_id, b)) => if file_id > usize::MAX as u64 {
                        None
                    } else {
                        match spec_expect_lit(s, b, seq![',']) {
                            None => None,
                            Some(b1) => match spec_parse_quoted(s, b1) {
                                None => None,
                                Some((file_path, c)) => match spec_expect_lit(s, c, seq![',']) {
                                    None => None,
                                    Some(c1) => match spec_parse_quoted(s, c1) {
                                        None => None,
                                        Some((shoottext, d)) => match spec_expect_lit(
                                            s,
                                            d,
                                            seq![','],
                                        ) {
                                            None => None,
                                            Some(d1) => Some(
                                                (
                                                    (
                                                        folder_id as int,
                                                        file_id as int,
                                                        file_path,
                                                        if shoottext.len() == 0 {
                                                            None
                                                        } else {
                                                            Some(shoottext)
                                                        },
                                                    ),
                                                    d1,
                                                ),
                                            ),
                                        },
                                    },
                                },
                            },
                        }
                    },
                },
            }
        },
    }
}

/// One CSV record line, parsed from character `i`.
pub open spec fn spec_parse_csv_row(s: Seq<char>, i: int) -> Option<(RecordV, int)> {
    match spec_parse_csv_head(s, i) {
        None => None,
        Some(((folder_id, file_id, file_path, shoot_time), d1)) => spec_parse_csv_row_tail(
            s,
            d1,
            folder_id,
            file_id,
            file_path,
            shoot_time,
        ),
    }
}

/// A record the CSV format can carry faithfully: counters that fit the
/// machine, nonempty optional strings, well-formed labels, and no
/// keyframe flag (the format has no column for it).
pub open spec fn record_wf(v: RecordV) -> bool {
    &&& 0 <= v.folder_id <= usize::MAX
    &&& 0 <= v.file_id <= usize::MAX
    &&& 0 <= v.frame_index <= usize::MAX
    &&& 0 <= v.total_frames <= usize::MAX
    &&& v.iframe == false
    &&& (match v.shoot_time {
        Some(t) => t.len() > 0,
        None => true,
    })
    &&& (match v.error {
        Some(t) => t.len() > 0,
        None => true,
    })
    &&& (match v.label {
        Some(l) => l.len() >= 1 && (forall|x: int| 0 <= x < l.len() ==> (#[trigger] l[x]).len() > 0)
            && (forall|x: int, k: int|
            0 <= x < l.len() && 0 <= k < l[x].len() ==> #[trigger] l[x][k] != ';'),
        None => true,
    })
}

proof fn lemma_join_semi_len(l: Seq<Seq<char>>)
    requires
        l.len() >= 1,
        l[0].len() > 0,
    ensures
        spec_join_semi(l).len() > 0,
{
    if l.len() > 1 {
        assert(spec_join_semi(l) == l[0] + (seq![';'] + spec_join_semi(l.drop_first())));
    }
}

/// A record's CSV line parses back to the record.
#[verifier::rlimit(100)]
pub proof fn lemma_csv_row_round_trip(v: RecordV, s: Seq<char>, i: int)
    requires
        record_wf(v),
        0 <= i,
        i + spec_csv_row(v).len() <= s.len(),
        s.subrange(i, i + spec_csv_row(v).len() as int) == spec_csv_row(v),
    ensures
        spec_parse_csv_row(s, i) == Some((v, i + spec_csv_row(v).len() as int)),
{
    let n1 = spec_u64_string(v.folder_id);
    let n2 = spec_u64_string(v.file_id);
    let q3 = spec_quoted(v.file_path);
    let q4 = spec_quoted(spec_opt_field(v.shoot_time));
    let tail = spec_csv_row_tail(v);
    let r1 = seq![','] + (n2 + (seq![','] + (q3 + (seq![','] + (q4 + (seq![','] + tail))))));
    let r2 = n2 + (seq![','] + (q3 + (seq![','] + (q4 + (seq![','] + tail)))));
    let r3 = seq![','] + (q3 + (seq![','] + (q4 + (seq![','] + tail))));
    let r4 = q3 + (seq![','] + (q4 + (seq![','] + tail)));
    let r5 = seq![','] + (q4 + (seq![','] + tail));
    let r6 = q4 + (seq![','] + tail);
    let r7 = seq![','] + tail;
    assert(spec_csv_row(v) == n1 + r1);
    lemma_split_chunk(s, i, n1, r1);
    let a = i + n1.len() as int;
    assert(s[a] == ',') by {
        assert(s.subrange(a, a + r1.len() as int)[0] == s[a + 0]);
    }
    assert(',' as u32 == 44);
    lemma_scan_u64_of_string(v.folder_id as u64, s, i);
    lemma_split_chunk(s, a, seq![','], r2);
    assert(spec_expect_lit(s, a, seq![',']) == Some(a + 1));
    lemma_split_chunk(s, a + 1, n2, r3);
    let b = a + 1 + n2.len() as int;
    assert(s[b] == ',') by {
        assert(s.subrange(b, b + r3.len() as int)[0] == s[b + 0]);
    }
    lemma_scan_u64_of_string(v.file_id as u64, s, a + 1);
    lemma_split_chunk(s, b, seq![','], r4);
    assert(spec_expect_lit(s, b, seq![',']) == Some(b + 1));
    lemma_split_chunk(s, b + 1, q3, r5);
    let c = b + 1 + q3.len() as int;
    assert(s[c] == ',') by {
        assert(s.subrange(c, c + r5.len() as int)[0] == s[c + 0]);
    }
    lemma_quoted_round_trip(v.file_path, s, b + 1);
    lemma_split_chunk(s, c, seq![','], r6);
    assert(spec_expect_lit(s, c, seq![',']) == Some(c + 1));
    lemma_split_chunk(s, c + 1, q4, r7);
    let d = c + 1 + q4.len() as int;
    assert(s[d] == ',') by {
        assert(s.subrange(d, d + r7.len() as int)[0] == s[d + 0]);
    }
    lemma_quoted_round_trip(spec_opt_field(v.shoot_time), s, c + 1);
    lemma_split_chunk(s, d, seq![','], tail);
    assert(spec_expect_lit(s, d, seq![',']) == Some(d + 1));
    assert((match v.shoot_time {
        None => spec_opt_field(v.shoot_time).len() == 0,
        Some(t) => spec_opt_field(v.shoot_time) == t && t.len() > 0,
    }));
    lemma_csv_row_tail_round_trip(v, s, d + 1);
    assert(d + 1 + tail.len() == i + spec_csv_row(v).len());
}

#[verifier::rlimit(100)]
proof fn lemma_csv_row_tail_round_trip(v: RecordV, s: Seq<char>, i4: int)
    requires
        record_wf(v),
        0 <= i4,
        i4 + spec_csv_row_tail(v).len() <= s.len(),
        s.subrange(i4, i4 + spec_csv_row_tail(v).len() as int) == spec_csv_row_tail(v),
    ensures
        spec_parse_csv_row_tail(
            s,
            i4,
            v.folder_id,
            v.file_id,
            v.file_path,
            v.shoot_time,
        ) == Some((v, i4 + spec_csv_row_tail(v).len() as int)),
{
    let n5 = spec_u64_string(v.frame_index);
    let n6 = spec_u64_string(v.total_frames);
    let q7 = spec_quoted(spec_bboxes_field(v.bboxes));
    let q8 = spec_quoted(spec_label_field(v.label));
    let q9 = spec_quoted(spec_opt_field(v.error));
    let tail = spec_csv_row_tail(v);
    let r1 = seq![','] + (n6 + (seq![','] + (q7 + (seq![','] + (q8 + (seq![','] + (q9 + seq![
        '\n'
    ])))))));
    let r2 = n6 + (seq![','] + (q7 + (seq![','] + (q8 + (seq![','] + (q9 + seq!['\n']))))));
    let r3 = seq![','] + (q7 + (seq![','] + (q8 + (seq![','] + (q9 + seq!['\n'])))));
    let r4 = q7 + (seq![','] + (q8 + (seq![','] + (q9 + seq!['\n']))));
    let r5 = seq![','] + (q8 + (seq![','] + (q9 + seq!['\n'])));
    assert(tail == n5 + r1);
    assert(',' as u32 == 44);
    lemma_split_chunk(s, i4, n5, r1);
    let a = i4 + n5.len() as int;
    assert(s[a] == ',') by {
        assert(s.subrange(a, a + r1.len() as int)[0] == s[a + 0]);
    }
    lemma_scan_u64_of_string(v.frame_index as u64, s, i4);
    lemma_split_chunk(s, a, seq![','], r2);
    assert(spec_expect_lit(s, a, seq![',']) == Some(a + 1));
    lemma_split_chunk(s, a + 1, n6, r3);
    let b = a + 1 + n6.len() as int;
    assert(s[b] == ',') by {
        assert(s.subrange(b, b + r3.len() as int)[0] == s[b + 0]);
    }
    lemma_scan_u64_of_string(v.total_frames as u64, s, a + 1);
    lemma_split_chunk(s, b, seq![','], r4);
    assert(spec_expect_lit(s, b, seq![',']) == Some(b + 1));
    lemma_split_chunk(s, b + 1, q7, r5);
    let c = b + 1 + q7.len() as int;
    assert(s[c] == ',') by {
        assert(s.subrange(c, c + r5.len() as int)[0] == s[c + 0]);
    }
    lemma_quoted_round_trip(spec_bboxes_field(v.bboxes), s, b + 1);
    let bbtext = spec_bboxes_field(v.bboxes);
    assert(bbtext.subrange(0, bbtext.len() as int) =~= bbtext);
    lemma_bboxes_field_round_trip(v.bboxes, bbtext, 0);
    lemma_csv_row_end_round_trip(v, s, c);
    assert(c + r5.len() == i4 + tail.len());
}

#[verifier::rlimit(100)]
proof fn lemma_csv_row_end_round_trip(v: RecordV, s: Seq<char>, c: int)
    requires
        record_wf(v),
        0 <= c,
        ({
            let q8 = spec_quoted(spec_label_field(v.label));
            let q9 = spec_quoted(spec_opt_field(v.error));
            let r5 = seq![','] + (q8 + (seq![','] + (q9 + seq!['\n'])));
            &&& c + r5.len() <= s.len()
            &&& s.subrange(c, c + r5.len() as int) == r5
        }),
    ensures
        ({
            let q8 = spec_quoted(spec_label_field(v.label));
            let q9 = spec_quoted(spec_opt_field(v.error));
            let r5 = seq![','] + (q8 + (seq![','] + (q9 + seq!['\n'])));
            spec_parse_csv_row_end(
                s,
                c,
                v.folder_id,
                v.file_id,
                v.file_path,
                v.shoot_time,
                v.frame_index,
                v.total_frames,
                v.bboxes,
            ) == Some((v, c + r5.len() as int))
        }),
{
    let q8 = spec_quoted(spec_label_field(v.label));
    let q9 = spec_quoted(spec_opt_field(v.error));
    let r5 = seq![','] + (q8 + (seq![','] + (q9 + seq!['\n'])));
    let r6 = q8 + (seq![','] + (q9 + seq!['\n']));
    let r7 = seq![','] + (q9 + seq!['\n']);
    let r8 = q9 + seq!['\n'];
    assert(',' as u32 == 44);
    assert('\n' as u32 == 10);
    assert(s[c] == ',') by {
        assert(s.subrange(c, c + r5.len() as int)[0] == s[c + 0]);
    }
    lemma_split_chunk(s, c, seq![','], r6);
    assert(spec_expect_lit(s, c, seq![',']) == Some(c + 1));
    lemma_split_chunk(s, c + 1, q8, r7);
    let d = c + 1 + q8.len() as int;
    assert(s[d] == ',') by {
        assert(s.subrange(d, d + r7.len() as int)[0] == s[d + 0]);
    }
    lemma_quoted_round_trip(spec_label_field(v.label), s, c + 1);
    let labeltext = spec_label_field(v.label);
    match v.label {
        None => {
            assert(labeltext.len() == 0);
        },
        Some(l) => {
            lemma_join_semi_len(l);
            assert(labeltext.len() > 0);
            assert(labeltext.subrange(0, labeltext.len() as int) =~= labeltext);
            lemma_join_split_semi(l, labeltext, 0);
        },
    }
    lemma_split_chunk(s, d, seq![','], r8);
    assert(spec_expect_lit(s, d, seq![',']) == Some(d + 1));
    lemma_split_chunk(s, d + 1, q9, seq!['\n']);
    let f = d + 1 + q9.len() as int;
    assert(s[f] == '\n') by {
        assert(s.subrange(f, f + 1) == seq!['\n']);
        assert(s.subrange(f, f + 1)[0] == s[f + 0]);
    }
    lemma_quoted_round_trip(spec_opt_field(v.error), s, d + 1);
    assert(spec_expect_lit(s, f, seq!['\n']) == Some(f + 1));
    assert((match v.error {
        None => spec_opt_field(v.error).len() == 0,
        Some(t) => spec_opt_field(v.error) == t && t.len() > 0,
    }));
    assert(f + 1 == c + r5.len());
}

/// Read one CSV record line starting at character `i`.  The working path
/// of the parsed record equals its source path, as a loaded checkpoint
/// works on the original files.
pub fn parse_csv_row(s: &str, i: usize) -> (r: Option<(ExportFrame, usize)>)
    requires
        i <= s@.len(),
    ensures
        (match (r, spec_parse_csv_row(s@, i as int)) {
            (Some((ef, e)), Some((v, se))) => record_view(ef) == v && ef.file.tmp_path@
                == v.file_path && e == se,
            (None, None) => true,
            _ => false,
        }),
{
    let (folder, file_id, path, shoot_time, d1) = match parse_csv_head(s, i) {
        Some(p) => p,
        None => {
            return None;
        },
    };
    parse_csv_row_tail(s, d1, folder, file_id, path, shoot_time)
}

#[verifier::rlimit(100)]
fn parse_csv_head(s: &str, i: usize) -> (r: Option<
    (usize, usize, String, Option<String>, usize),
>)
    requires
        i <= s@.len(),
    ensures
        (match (r, spec_parse_csv_head(s@, i as int)) {
            (
                Some((folder, file_id, path, shoot, d1)),
                Some(((sfolder, sfile, spath, sshoot), sd1)),
            ) => folder as int == sfolder && file_id as int == sfile && path@ == spath
                && view_opt_string(shoot) == sshoot && d1 as int == sd1 && d1 <= s@.len(),
            (None, None) => true,
            _ => false,
        }),
{
    proof {
        lemma_scan_u64_bounds(s@, i as int);
        reveal_strlit(",");
        assert(","@ =~= seq![',']);
    }
    let (folder, a) = match scan_u64(s, i) {
        Some(p) => p,
        None => {
            return None;
        },
    };
    if folder > usize::MAX as u64 {
        return None;
    }
    let a1 = match expect_lit(s, a, ",") {
        Some(e) => e,
        None => {
            return None;
        },
    };
    proof {
        lemma_scan_u64_bounds(s@, a1 as int);
    }
    let (file_id, b) = match scan_u64(s, a1) {
        Some(p) => p,
        None => {
            return None;
        },
    };
    if file_id > usize::MAX as u64 {
        return None;
    }
    let b1 = match expect_lit(s, b, ",") {
        Some(e) => e,
        None => {
            return None;
        },
    };
    proof {
        lemma_parse_quoted_bounds(s@, b1 as int);
    }
    let (path, c) = match parse_quoted(s, b1) {
        Some(p) => p,
        None => {
            return None;
        },
    };
    let c1 = match expect_lit(s, c, ",") {
        Some(e) => e,
        None => {
            return None;
        },
    };
    proof {
        lemma_parse_quoted_bounds(s@, c1 as int);
    }
    let (shoottext, d) = match parse_quoted(s, c1) {
        Some(p) => p,
        None => {
            return None;
        },
    };
    let d1 = match expect_lit(s, d, ",") {
        Some(e) => e,
        None => {
            return None;
        },
    };
    let shoot_time: Option<String> = if shoottext.unicode_len() == 0 {
        None
    } else {
        Some(shoottext)
    };
    Some((folder as usize, file_id as usize, path, shoot_time, d1))
}

#[verifier::rlimit(100)]
fn parse_csv_row_tail(
    s: &str,
    i4: usize,
    folder_id: usize,
    file_id: usize,
    path: String,
    shoot_time: Option<String>,
) -> (r: Option<(ExportFrame, usize)>)
    requires
        i4 <= s@.len(),
    ensures
        (match (r, spec_parse_csv_row_tail(
            s@,
            i4 as int,
            folder_id as int,
            file_id as int,
            path@,
            view_opt_string(shoot_time),
        )) {
            (Some((ef, e)), Some((v, se))) => record_view(ef) == v && ef.file.tmp_path@
                == v.file_path && e == se,
            (None, None) => true,
            _ => false,
        }),
{
    proof {
        lemma_scan_u64_bounds(s@, i4 as int);
        reveal_strlit(",");
        assert(","@ =~= seq![',']);
        reveal_strlit("\n");
        assert("\n"@ =~= seq!['\n']);
    }
    let (frame_index, a) = match scan_u64(s, i4) {
        Some(p) => p,
        None => {
            return None;
        },
    };
    if frame_index > usize::MAX as u64 {
        return None;
    }
    let a1 = match expect_lit(s, a, ",") {
        Some(e) => e,
        None => {
            return None;
        },
    };
    proof {
        lemma_scan_u64_bounds(s@, a1 as int);
    }
    let (total, b) = match scan_u64(s, a1) {
        Some(p) => p,
        None => {
            return None;
        },
    };
    if total > usize::MAX as u64 {
        return None;
    }
    let b1 = match expect_lit(s, b, ",") {
        Some(e) => e,
        None => {
            return None;
        },
    };
    proof {
        lemma_parse_quoted_bounds(s@, b1 as int);
    }
    let (bbtext, c) = match parse_quoted(s, b1) {
        Some(p) => p,
        None => {
            return None;
        },
    };
    let (bboxes, bbend) = match parse_bboxes_field(bbtext.as_str(), 0) {
        Some(p) => p,
        None => {
            return None;
        },
    };
    if bbend != bbtext.unicode_len() {
        return None;
    }
    let c1 = match expect_lit(s, c, ",") {
        Some(e) => e,
        None => {
            return None;
        },
    };
    proof {
        lemma_parse_quoted_bounds(s@, c1 as int);
    }
    let (labeltext, d) = match parse_quoted(s, c1) {
        Some(p) => p,
        None => {
            return None;
        },
    };
    let d1 = match expect_lit(s, d, ",") {
        Some(e) => e,
        None => {
            return None;
        },
    };
    proof {
        lemma_parse_quoted_bounds(s@, d1 as int);
    }
    let (errtext, f) = match parse_quoted(s, d1) {
        Some(p) => p,
        None => {
            return None;
        },
    };
    let e = match expect_lit(s, f, "\n") {
        Some(e) => e,
        None => {
            return None;
        },
    };
    let label: Option<Vec<String>> = if labeltext.unicode_len() == 0 {
        None
    } else {
        Some(split_semi(labeltext.as_str(), 0))
    };
    let error: Option<String> = if errtext.unicode_len() == 0 {
        None
    } else {
        Some(errtext)
    };
    let tmp = path.clone();
    let ef = ExportFrame {
        file: FileItem { folder_id, file_id, file_path: path, tmp_path: tmp },
        shoot_time,
        frame_index: frame_index as usize,
        total_frames: total as usize,
        bboxes,
        label,
        error,
        iframe: false,
    };
    Some((ef, e))
}

/// The records of a file, one line each.
pub open spec fn spec_csv_rows(l: Seq<RecordV>) -> Seq<char>
    decreases l.len(),
{
    if l.len() == 0 {
        Seq::empty()
    } else {
        spec_csv_rows(l.drop_last()) + spec_csv_row(l.last())
    }
}

/// The header line of the result file.
pub open spec fn spec_csv_header() -> Seq<char> {
    "folder_id,file_id,file_path,shoot_time,frame_index,total_frames,bboxes,label,error\n"@
}

/// The whole result file: the header, then one line per record.
pub open spec fn spec_csv_file(l: Seq<RecordV>) -> Seq<char> {
    spec_csv_header() + spec_csv_rows(l)
}

/// Record lines parsed until the end of the text.
pub open spec fn spec_parse_csv_rows(s: Seq<char>, i: int) -> Option<(Seq<RecordV>, int)>
    decreases s.len() - i,
{
    if i == s.len() {
        Some((Seq::empty(), i))
    } else {
        match spec_parse_csv_row(s, i) {
            None => None,
            Some((v, e)) => if i < e <= s.len() {
                match spec_parse_csv_rows(s, e) {
                    None => None,
                    Some((l, e2)) => Some((seq![v] + l, e2)),
                }
            } else {
                None
            },
        }
    }
}

/// The whole result file parsed back: the header, then record lines to
/// the end.
pub open spec fn spec_parse_csv_file(s: Seq<char>) -> Option<Seq<RecordV>> {
    match spec_expect_lit(s, 0, spec_csv_header()) {
        None => None,
        Some(h) => match spec_parse_csv_rows(s, h) {
            None => None,
            Some((l, e)) => Some(l),
        },
    }
}

proof fn lemma_csv_rows_first(l: Seq<RecordV>)
    requires
        l.len() >= 1,
    ensures
        spec_csv_rows(l) == spec_csv_row(l[0]) + spec_csv_rows(l.drop_first()),
    decreases l.len(),
{
    if l.len() == 1 {
        assert(l.drop_last() =~= Seq::<RecordV>::empty());
        assert(l.drop_first() =~= Seq::<RecordV>::empty());
        assert(spec_csv_rows(l) =~= spec_csv_row(l[0]) + spec_csv_rows(l.drop_first()));
    } else {
        let d = l.drop_last();
        lemma_csv_rows_first(d);
        assert(l.drop_first().drop_last() =~= d.drop_first());
        assert(l.drop_first().last() == l.last());
        assert(spec_csv_rows(l.drop_first()) == spec_csv_rows(d.drop_first()) + spec_csv_row(
            l.last(),
        ));
        assert((spec_csv_row(l[0]) + spec_csv_rows(d.drop_first())) + spec_csv_row(l.last())
            =~= spec_csv_row(l[0]) + (spec_csv_rows(d.drop_first()) + spec_csv_row(l.last())));
    }
}

proof fn lemma_csv_row_len(v: RecordV)
    ensures
        spec_csv_row(v).len() >= 1,
{
}

/// The record lines of well-formed records, written to the end of the
/// text, parse back to the records.
pub proof fn lemma_csv_rows_round_trip(l: Seq<RecordV>, s: Seq<char>, i: int)
    requires
        forall|x: int| 0 <= x < l.len() ==> record_wf(#[trigger] l[x]),
        0 <= i,
        i + spec_csv_rows(l).len() == s.len(),
        s.subrange(i, s.len() as int) == spec_csv_rows(l),
    ensures
        spec_parse_csv_rows(s, i) == Some((l, s.len() as int)),
    decreases l.len(),
{
    if l.len() == 0 {
        assert(i == s.len());
    } else {
        lemma_csv_rows_first(l);
        let a = spec_csv_row(l[0]);
        let rest = spec_csv_rows(l.drop_first());
        assert(s.subrange(i, i + a.len() + rest.len()) == a + rest);
        lemma_split_chunk(s, i, a, rest);
        lemma_csv_row_round_trip(l[0], s, i);
        let e = i + a.len() as int;
        lemma_csv_row_len(l[0]);
        assert(s.subrange(e, s.len() as int) == rest);
        lemma_csv_rows_round_trip(l.drop_first(), s, e);
        assert(seq![l[0]] + l.drop_first() =~= l);
        assert(i != s.len()) by {
            assert(a.len() >= 1);
        }
    }
}

/// A result file written from well-formed records parses back to exactly
/// those records: nothing is lost between a checkpoint and a resume.
pub proof fn lemma_csv_file_round_trip(l: Seq<RecordV>)
    requires
        forall|x: int| 0 <= x < l.len() ==> record_wf(#[trigger] l[x]),
    ensures
        spec_parse_csv_file(spec_csv_file(l)) == Some(l),
{
    let s = spec_csv_file(l);
    let h = spec_csv_header();
    assert(s.subrange(0, h.len() as int + spec_csv_rows(l).len() as int) =~= s);
    lemma_split_chunk(s, 0, h, spec_csv_rows(l));
    assert(s.subrange(0, s.len() as int) =~= s);
    assert(spec_expect_lit(s, 0, h) == Some(h.len() as int));
    assert(s.subrange(h.len() as int, s.len() as int) == spec_csv_rows(l));
    lemma_csv_rows_round_trip(l, s, h.len() as int);
}

/// Views of a record list.
pub open spec fn records_view(rs: Seq<ExportFrame>) -> Seq<RecordV> {
    Seq::new(rs.len(), |x: int| record_view(rs[x]))
}

/// Write the whole result file: the header, then one line per record.
pub fn encode_csv(records: &Vec<ExportFrame>) -> (r: String)
    ensures
        r@ == spec_csv_file(records_view(records@)),
{
    let mut out = String::new();
    out.append("folder_id,file_id,file_path,shoot_time,frame_index,total_frames,bboxes,label,error\n");
    proof {
        assert(out@ =~= spec_csv_header() + spec_csv_rows(records_view(records@.take(0))));
    }
    let mut i: usize = 0;
    while i < records.len()
        invariant
            i <= records@.len(),
            out@ == spec_csv_header() + spec_csv_rows(records_view(records@.take(i as int))),
        decreases records@.len() - i,
    {
        let line = encode_csv_row(&records[i]);
        out.append(line.as_str());
        proof {
            assert(records_view(records@.take(i as int + 1)).drop_last() =~= records_view(
                records@.take(i as int),
            ));
            assert(records_view(records@.take(i as int + 1)).last() == record_view(
                records@[i as int],
            ));
            assert(out@ =~= spec_csv_header() + spec_csv_rows(
                records_view(records@.take(i as int + 1)),
            ));
        }
        i = i + 1;
    }
    proof {
        assert(records@.take(records@.len() as int) =~= records@);
        assert(records_view(records@.take(records@.len() as int)) =~= records_view(records@));
    }
    out
}

/// Read a whole result file.  Yields the records in file order, or
/// nothing when the text is not a result file this library wrote.
pub fn parse_export_csv(s: &str) -> (r: Option<Vec<ExportFrame>>)
    ensures
        (match (r, spec_parse_csv_file(s@)) {
            (Some(rs), Some(l)) => records_view(rs@) == l && (forall|x: int|
                0 <= x < rs@.len() ==> (#[trigger] rs@[x]).file.tmp_path@
                    == rs@[x].file.file_path@),
            (None, None) => true,
            _ => false,
        }),
{
    let h = match expect_lit(
        s,
        0,
        "folder_id,file_id,file_path,shoot_time,frame_index,total_frames,bboxes,label,error\n",
    ) {
        Some(e) => e,
        None => {
            return None;
        },
    };
    let n = s.unicode_len();
    let mut out: Vec<ExportFrame> = Vec::new();
    let mut i: usize = h;
    loop
        invariant
            i <= n,
            n == s@.len(),
            spec_expect_lit(s@, 0, spec_csv_header()) == Some(h as int),
            (match spec_parse_csv_rows(s@, h as int) {
                Some((l, e)) => (match spec_parse_csv_rows(s@, i as int) {
                    Some((l2, e2)) => l == records_view(out@) + l2 && e == e2,
                    None => false,
                }),
                None => spec_parse_csv_rows(s@, i as int) is None,
            }),
            forall|x: int|
                0 <= x < out@.len() ==> (#[trigger] out@[x]).file.tmp_path@
                    == out@[x].file.file_path@,
        decreases n - i,
    {
        if i == n {
            proof {
                assert(spec_parse_csv_rows(s@, i as int) == Some(
                    (Seq::<RecordV>::empty(), i as int),
                ));
                assert(records_view(out@) + Seq::<RecordV>::empty() =~= records_view(out@));
            }
            return Some(out);
        }
        let ghost pre = out@;
        match parse_csv_row(s, i) {
            None => {
                return None;
            },
            Some((ef, e)) => {
                proof {
                    lemma_parse_csv_row_bounds(s@, i as int);
                }
                out.push(ef);
                proof {
                    assert(records_view(out@) =~= records_view(pre).push(record_view(ef)));
                    match spec_parse_csv_rows(s@, e as int) {
                        Some((l2, e2)) => {
                            assert(records_view(pre) + (seq![record_view(ef)] + l2)
                                =~= records_view(pre).push(record_view(ef)) + l2);
                        },
                        None => {},
                    }
                }
                i = e;
            },
        }
    }
}

/// A successful record-line parse moves forward and stays in bounds.
pub proof fn lemma_parse_csv_row_bounds(s: Seq<char>, i: int)
    requires
        0 <= i <= s.len(),
    ensures
        (match spec_parse_csv_row(s, i) {
            Some((v, e)) => i < e <= s.len(),
            None => true,
        }),
{
    crate::codec::lemma_scan_u64_bounds(s, i);
    match spec_parse_csv_head(s, i) {
        None => {},
        Some(((folder_id, file_id, file_path, shoot_time), d1)) => {
            match spec_scan_u64(s, i) {
                None => {},
                Some((sf, a)) => {
                    match spec_expect_lit(s, a, seq![',']) {
                        None => {},
                        Some(a1) => {
                            crate::codec::lemma_scan_u64_bounds(s, a1);
                            match spec_scan_u64(s, a1) {
                                None => {},
                                Some((sfi, b)) => {
                                    match spec_expect_lit(s, b, seq![',']) {
                                        None => {},
                                        Some(b1) => {
                                            lemma_parse_quoted_bounds(s, b1);
                                            match spec_parse_quoted(s, b1) {
                                                None => {},
                                                Some((fp, c)) => {
                                                    match spec_expect_lit(s, c, seq![',']) {
                                                        None => {},
                                                        Some(c1) => {
                                                            lemma_parse_quoted_bounds(s, c1);
                                                            match spec_parse_quoted(s, c1) {
                                                                None => {},
                                                                Some((st, d)) => {
                                                                    lemma_parse_csv_tail_bounds(
                                                                        s,
                                                                        d1,
                                                                        folder_id,
                                                                        file_id,
                                                                        file_path,
                                                                        shoot_time,
                                                                    );
                                                                },
                                                            }
                                                        },
                                                    }
                                                },
                                            }
                                        },
                                    }
                                },
                            }
                        },
                    }
                },
            }
        },
    }
}

proof fn lemma_parse_csv_tail_bounds(
    s: Seq<char>,
    i4: int,
    folder_id: int,
    file_id: int,
    file_path: Seq<char>,
    shoot_time: Option<Seq<char>>,
)
    requires
        0 <= i4 <= s.len(),
    ensures
        (match spec_parse_csv_row_tail(s, i4, folder_id, file_id, file_path, shoot_time) {
            Some((v, e)) => i4 <= e <= s.len(),
            None => true,
        }),
{
    crate::codec::lemma_scan_u64_bounds(s, i4);
    match spec_scan_u64(s, i4) {
        None => {},
        Some((fi, a)) => {
            match spec_expect_lit(s, a, seq![',']) {
                None => {},
                Some(a1) => {
                    crate::codec::lemma_scan_u64_bounds(s, a1);
                    match spec_scan_u64(s, a1) {
                        None => {},
                        Some((tt, b)) => {
                            match spec_expect_lit(s, b, seq![',']) {
                                None => {},
                                Some(b1) => {
                                    lemma_parse_quoted_bounds(s, b1);
                                    match spec_parse_quoted(s, b1) {
                                        None => {},
                                        Some((bbt, c)) => {
                                            match spec_expect_lit(s, c, seq![',']) {
                                                None => {},
                                                Some(c1) => {
                                                    lemma_parse_quoted_bounds(s, c1);
                                                    match spec_parse_quoted(s, c1) {
                                                        None => {},
                                                        Some((lt, d)) => {
                                                            match spec_expect_lit(
                                                                s,
                                                                d,
                                                                seq![','],
                                                            ) {
                                                                None => {},
                                                                Some(d1) => {
                                                                    lemma_parse_quoted_bounds(
                                                                        s,
                                                                        d1,
                                                                    );
                                                                },
                                                            }
                                                        },
                                                    }
                                                },
                                            }
                                        },
                                    }
                                },
                            }
                        },
                    }
                },
            }
        },
    }
}

/// How one character appears inside a JSON string: quotes, backslashes
/// and line breaks are escaped, everything else stands for itself.
pub open spec fn json_esc_char(c: char) -> Seq<char> {
    if c == '"' {
        seq!['\\', '"']
    } else if c == '\\' {
        seq!['\\', '\\']
    } else if c == '\n' {
        seq!['\\', 'n']
    } else {
        seq![c]
    }
}

pub open spec fn spec_json_escape(s: Seq<char>) -> Seq<char>
    decreases s.len(),
{
    if s.len() == 0 {
        Seq::empty()
    } else {
        spec_json_escape(s.drop_last()) + json_esc_char(s.last())
    }
}

/// A JSON string literal holding `s`.
pub open spec fn spec_json_string(s: Seq<char>) -> Seq<char> {
    seq!['"'] + (spec_json_escape(s) + seq!['"'])
}

/// A JSON string or `null`.
pub open spec fn spec_json_opt_string(o: Option<Seq<char>>) -> Seq<char> {
    match o {
        None => "null"@,
        Some(t) => spec_json_string(t),
    }
}

/// A JSON list of the label names, or `null`.
pub open spec fn spec_json_labels(o: Option<Seq<Seq<char>>>) -> Seq<char> {
    match o {
        None => "null"@,
        Some(l) => seq!['['] + (spec_json_label_items(l) + seq![']']),
    }
}

pub open spec fn spec_json_label_items(l: Seq<Seq<char>>) -> Seq<char>
    decreases l.len(),
{
    if l.len() == 0 {
        Seq::empty()
    } else if l.len() == 1 {
        spec_json_string(l[0])
    } else {
        spec_json_label_items(l.drop_last()) + (seq![','] + spec_json_string(l.last()))
    }
}

/// The last fields of a record's JSON object: labels, error and keyframe
/// flag.
pub open spec fn spec_json_record_end(v: RecordV) -> Seq<char> {
    ", \"label\": "@ + (spec_json_labels(v.label) + (", \"error\": "@ + (spec_json_opt_string(
        v.error,
    ) + (", \"iframe\": "@ + ((if v.iframe {
        "true"@
    } else {
        "false"@
    }) + "}"@)))))
}

/// The tail of a record's JSON object: frame counters, boxes, labels,
/// error and keyframe flag.
pub open spec fn spec_json_record_tail(v: RecordV) -> Seq<char> {
    ", \"frame_index\": "@ + (spec_u64_string(v.frame_index) + (", \"total_frames\": "@ + (
    spec_u64_string(v.total_frames) + (", \"bboxes\": "@ + (spec_bboxes_field(v.bboxes)
        + spec_json_record_end(v))))))
}

/// One record as a JSON object on one line.
pub open spec fn spec_json_record(v: RecordV) -> Seq<char> {
    "{\"folder_id\": "@ + (spec_u64_string(v.folder_id) + (", \"file_id\": "@ + (spec_u64_string(
        v.file_id,
    ) + (", \"file_path\": "@ + (spec_json_string(v.file_path) + (", \"shoot_time\": "@ + (
    spec_json_opt_string(v.shoot_time) + spec_json_record_tail(v))))))))
}

/// The records as a pretty JSON list, one record per line.
pub open spec fn spec_json_file(l: Seq<RecordV>) -> Seq<char> {
    if l.len() == 0 {
        "[]"@
    } else {
        "[\n"@ + (spec_json_rows(l) + "\n]"@)
    }
}

pub open spec fn spec_json_rows(l: Seq<RecordV>) -> Seq<char>
    decreases l.len(),
{
    if l.len() == 0 {
        Seq::empty()
    } else if l.len() == 1 {
        spec_json_record(l[0])
    } else {
        spec_json_rows(l.drop_last()) + (",\n"@ + spec_json_record(l.last()))
    }
}

/// Write `s` as a JSON string literal.
pub fn fmt_json_string(s: &str) -> (r: String)
    ensures
        r@ == spec_json_string(s@),
{
    let n = s.unicode_len();
    let mut out = String::new();
    proof {
        reveal_strlit("\"");
        reveal_strlit("\\\"");
        reveal_strlit("\\\\");
        reveal_strlit("\\n");
    }
    out.append("\"");
    let mut i: usize = 0;
    while i < n
        invariant
            n == s@.len(),
            i <= n,
            out@ == seq!['"'] + spec_json_escape(s@.take(i as int)),
        decreases n - i,
    {
        proof {
            reveal_strlit("\\\"");
            reveal_strlit("\\\\");
            reveal_strlit("\\n");
            assert(s@.take(i as int + 1).drop_last() =~= s@.take(i as int));
            assert(s@.take(i as int + 1).last() == s@[i as int]);
        }
        let c = s.get_char(i);
        if c == '"' {
            out.append("\\\"");
            proof {
                assert("\\\""@ =~= seq!['\\', '"']);
                assert(out@ =~= seq!['"'] + spec_json_escape(s@.take(i as int + 1)));
            }
        } else if c == '\\' {
            out.append("\\\\");
            proof {
                assert("\\\\"@ =~= seq!['\\', '\\']);
                assert(out@ =~= seq!['"'] + spec_json_escape(s@.take(i as int + 1)));
            }
        } else if c == '\n' {
            out.append("\\n");
            proof {
                assert("\\n"@ =~= seq!['\\', 'n']);
                assert(out@ =~= seq!['"'] + spec_json_escape(s@.take(i as int + 1)));
            }
        } else {
            let piece = s.substring_char(i, i + 1);
            out.append(piece);
            proof {
                assert(piece@ =~= seq![s@[i as int]]);
                assert(out@ =~= seq!['"'] + spec_json_escape(s@.take(i as int + 1)));
            }
        }
        i = i + 1;
    }
    out.append("\"");
    proof {
        assert(s@.take(n as int) =~= s@);
        assert(out@ =~= spec_json_string(s@));
    }
    out
}

fn fmt_json_opt_string(o: &Option<String>) -> (r: String)
    ensures
        r@ == spec_json_opt_string(view_opt_string(*o)),
{
    match o {
        None => {
            proof {
                reveal_strlit("null");
            }
            let mut out = String::new();
            out.append("null");
            proof {
                assert(out@ =~= "null"@);
            }
            out
        },
        Some(t) => fmt_json_string(t.as_str()),
    }
}

fn fmt_json_labels(o: &Option<Vec<String>>) -> (r: String)
    ensures
        r@ == spec_json_labels(view_labels(*o)),
{
    match o {
        None => {
            proof {
                reveal_strlit("null");
            }
            let mut out = String::new();
            out.append("null");
            proof {
                assert(out@ =~= "null"@);
            }
            out
        },
        Some(l) => {
            proof {
                reveal_strlit("[");
                reveal_strlit("]");
                reveal_strlit(",");
            }
            let ghost lv = Seq::new(l@.len(), |x: int| l@[x]@);
            let mut out = String::new();
            out.append("[");
            let mut i: usize = 0;
            while i < l.len()
                invariant
                    i <= l@.len(),
                    lv == Seq::new(l@.len(), |x: int| l@[x]@),
                    out@ == seq!['['] + spec_json_label_items(lv.subrange(0, i as int)),
                decreases l@.len() - i,
            {
                proof {
                    reveal_strlit(",");
                }
                if i > 0 {
                    out.append(",");
                }
                let piece = fmt_json_string(l[i].as_str());
                out.append(piece.as_str());
                proof {
                    assert(","@ =~= seq![',']);
                    assert(lv.subrange(0, i as int + 1).drop_last() =~= lv.subrange(0, i as int));
                    assert(lv.subrange(0, i as int + 1).last() == lv[i as int]);
                    if i == 0 {
                        assert(out@ =~= seq!['['] + spec_json_label_items(
                            lv.subrange(0, i as int + 1),
                        ));
                    } else {
                        assert(out@ =~= seq!['['] + spec_json_label_items(
                            lv.subrange(0, i as int + 1),
                        ));
                    }
                }
                i = i + 1;
            }
            out.append("]");
            proof {
                assert(lv.subrange(0, lv.len() as int) =~= lv);
                assert(out@ =~= spec_json_labels(view_labels(Some(*l))));
            }
            out
        },
    }
}

#[verifier::rlimit(100)]
fn encode_json_record_end(e: &ExportFrame) -> (r: String)
    ensures
        r@ == spec_json_record_end(record_view(*e)),
{
    proof {
        reveal_strlit(", \"label\": ");
        reveal_strlit(", \"error\": ");
        reveal_strlit(", \"iframe\": ");
        reveal_strlit("true");
        reveal_strlit("false");
        reveal_strlit("}");
    }
    let mut out = String::new();
    out.append(", \"label\": ");
    let t8 = fmt_json_labels(&e.label);
    out.append(t8.as_str());
    out.append(", \"error\": ");
    let t9 = fmt_json_opt_string(&e.error);
    out.append(t9.as_str());
    out.append(", \"iframe\": ");
    if e.iframe {
        out.append("true");
    } else {
        out.append("false");
    }
    out.append("}");
    proof {
        assert(out@ =~= spec_json_record_end(record_view(*e)));
    }
    out
}

#[verifier::rlimit(100)]
fn encode_json_record_tail(e: &ExportFrame) -> (r: String)
    ensures
        r@ == spec_json_record_tail(record_view(*e)),
{
    proof {
        reveal_strlit(", \"frame_index\": ");
        reveal_strlit(", \"total_frames\": ");
        reveal_strlit(", \"bboxes\": ");
    }
    let mut out = String::new();
    out.append(", \"frame_index\": ");
    let t5 = fmt_u64(e.frame_index as u64);
    out.append(t5.as_str());
    out.append(", \"total_frames\": ");
    let t6 = fmt_u64(e.total_frames as u64);
    out.append(t6.as_str());
    out.append(", \"bboxes\": ");
    let t7 = fmt_bboxes_field(&e.bboxes);
    out.append(t7.as_str());
    let end = encode_json_record_end(e);
    out.append(end.as_str());
    proof {
        assert(out@ =~= spec_json_record_tail(record_view(*e)));
    }
    out
}

/// One record as a JSON object.
#[verifier::rlimit(100)]
pub fn encode_json_record(e: &ExportFrame) -> (r: String)
    ensures
        r@ == spec_json_record(record_view(*e)),
{
    proof {
        reveal_strlit("{\"folder_id\": ");
        reveal_strlit(", \"file_id\": ");
        reveal_strlit(", \"file_path\": ");
        reveal_strlit(", \"shoot_time\": ");
    }
    let mut out = String::new();
    out.append("{\"folder_id\": ");
    let t1 = fmt_u64(e.file.folder_id as u64);
    out.append(t1.as_str());
    out.append(", \"file_id\": ");
    let t2 = fmt_u64(e.file.file_id as u64);
    out.append(t2.as_str());
    out.append(", \"file_path\": ");
    let t3 = fmt_json_string(e.file.file_path.as_str());
    out.append(t3.as_str());
    out.append(", \"shoot_time\": ");
    let t4 = fmt_json_opt_string(&e.shoot_time);
    out.append(t4.as_str());
    let tail = encode_json_record_tail(e);
    out.append(tail.as_str());
    proof {
        assert(out@ =~= spec_json_record(record_view(*e)));
    }
    out
}

/// Write the whole result list as pretty JSON, one record per line.
pub fn encode_json(records: &Vec<ExportFrame>) -> (r: String)
    ensures
        r@ == spec_json_file(records_view(records@)),
{
    proof {
        reveal_strlit("[]");
        reveal_strlit("[\n");
        reveal_strlit("\n]");
        reveal_strlit(",\n");
    }
    if records.len() == 0 {
        let mut out = String::new();
        out.append("[]");
        proof {
            assert(records_view(records@).len() == 0);
            assert(out@ =~= spec_json_file(records_view(records@)));
        }
        return out;
    }
    let mut out = String::new();
    out.append("[\n");
    let mut i: usize = 0;
    while i < records.len()
        invariant
            i <= records@.len(),
            out@ == "[\n"@ + spec_json_rows(records_view(records@.take(i as int))),
        decreases records@.len() - i,
    {
        proof {
            reveal_strlit(",\n");
        }
        if i > 0 {
            out.append(",\n");
        }
        let piece = encode_json_record(&records[i]);
        out.append(piece.as_str());
        proof {
            assert(records_view(records@.take(i as int + 1)).drop_last() =~= records_view(
                records@.take(i as int),
            ));
            assert(records_view(records@.take(i as int + 1)).last() == record_view(
                records@[i as int],
            ));
            assert(out@ =~= "[\n"@ + spec_json_rows(records_view(records@.take(i as int + 1))));
        }
        i = i + 1;
    }
    out.append("\n]");
    proof {
        assert(records@.take(records@.len() as int) =~= records@);
        assert(records_view(records@.take(records@.len() as int)) =~= records_view(records@));
        assert(records_view(records@).len() > 0);
        assert(out@ =~= spec_json_file(records_view(records@)));
    }
    out
}

/// Scan the interior of a JSON string from `j`: plain characters stand
/// for themselves, a backslash introduces one of the three escapes the
/// writer uses, and an unescaped quote closes the string.
pub open spec fn spec_scan_json_string(s: Seq<char>, j: int) -> Option<(Seq<char>, int)>
    decreases s.len() - j,
{
    if j < 0 || j >= s.len() {
        None
    } else if s[j] == '"' {
        Some((Seq::empty(), j + 1))
    } else if s[j] == '\\' {
        if j + 1 < s.len() && (s[j + 1] == '"' || s[j + 1] == '\\' || s[j + 1] == 'n') {
            let c = if s[j + 1] == 'n' {
                '\n'
            } else {
                s[j + 1]
            };
            match spec_scan_json_string(s, j + 2) {
                Some((t, e)) => Some((seq![c] + t, e)),
                None => None,
            }
        } else {
            None
        }
    } else {
        match spec_scan_json_string(s, j + 1) {
            Some((t, e)) => Some((seq![s[j]] + t, e)),
            None => None,
        }
    }
}

/// A JSON string literal at position `i`.
pub open spec fn spec_parse_json_string(s: Seq<char>, i: int) -> Option<(Seq<char>, int)> {
    if 0 <= i < s.len() && s[i] == '"' {
        spec_scan_json_string(s, i + 1)
    } else {
        None
    }
}

proof fn lemma_json_escape_first(s: Seq<char>)
    requires
        s.len() > 0,
    ensures
        spec_json_escape(s) == json_esc_char(s[0]) + spec_json_escape(s.drop_first()),
    decreases s.len(),
{
    if s.len() == 1 {
        assert(s.drop_last() =~= Seq::<char>::empty());
        assert(s.drop_first() =~= Seq::<char>::empty());
        assert(spec_json_escape(s) =~= json_esc_char(s[0]) + spec_json_escape(s.drop_first()));
    } else {
        let d = s.drop_last();
        lemma_json_escape_first(d);
        assert(s.drop_first().drop_last() =~= d.drop_first());
        assert(s.drop_first().last() == s.last());
        assert(spec_json_escape(s.drop_first()) == spec_json_escape(d.drop_first())
            + json_esc_char(s.last()));
        assert((json_esc_char(s[0]) + spec_json_escape(d.drop_first())) + json_esc_char(s.last())
            =~= json_esc_char(s[0]) + (spec_json_escape(d.drop_first()) + json_esc_char(
            s.last(),
        )));
    }
}

/// An encoded JSON string parses back to what was written.
pub proof fn lemma_json_string_round_trip(x: Seq<char>, s: Seq<char>, i: int)
    requires
        0 <= i,
        i + spec_json_string(x).len() <= s.len(),
        s.subrange(i, i + spec_json_string(x).len() as int) == spec_json_string(x),
    ensures
        spec_parse_json_string(s, i) == Some((x, i + spec_json_string(x).len() as int)),
{
    let q = spec_json_string(x);
    let ex = spec_json_escape(x);
    assert(q.len() == ex.len() + 2);
    assert(s[i] == '"') by {
        assert(s.subrange(i, i + q.len() as int)[0] == s[i + 0]);
        assert(q[0] == '"');
    }
    assert(s.subrange(i + 1, i + 1 + ex.len() as int) =~= ex) by {
        assert forall|k: int|
            0 <= k < ex.len() implies s.subrange(i + 1, i + 1 + ex.len() as int)[k] == ex[k] by {
            assert(s.subrange(i + 1, i + 1 + ex.len() as int)[k] == s[i + 1 + k]);
            assert(s.subrange(i, i + q.len() as int)[k + 1] == s[i + (k + 1)]);
            assert(q[k + 1] == ex[k]);
        }
    }
    assert(s[i + 1 + ex.len()] == '"') by {
        assert(s.subrange(i, i + q.len() as int)[q.len() - 1] == s[i + (q.len() - 1)]);
        assert(q[q.len() - 1] == '"');
    }
    lemma_scan_json_escape(x, s, i + 1);
}

proof fn lemma_scan_json_escape(x: Seq<char>, s: Seq<char>, j: int)
    requires
        0 <= j,
        j + spec_json_escape(x).len() + 1 <= s.len(),
        s.subrange(j, j + spec_json_escape(x).len() as int) == spec_json_escape(x),
        s[j + spec_json_escape(x).len()] == '"',
    ensures
        spec_scan_json_string(s, j) == Some((x, j + spec_json_escape(x).len() + 1)),
    decreases x.len(),
{
    let ex = spec_json_escape(x);
    if x.len() == 0 {
        assert(ex.len() == 0);
        assert(s[j] == '"');
    } else {
        lemma_json_escape_first(x);
        let c = x[0];
        let x1 = x.drop_first();
        let ex1 = spec_json_escape(x1);
        assert(ex == json_esc_char(c) + ex1);
        if c == '"' || c == '\\' || c == '\n' {
            let esc: char = if c == '\n' {
                'n'
            } else {
                c
            };
            assert(json_esc_char(c) == seq!['\\', esc]);
            assert(s[j] == '\\' && s[j + 1] == esc) by {
                assert(s.subrange(j, j + ex.len() as int)[0] == s[j + 0]);
                assert(s.subrange(j, j + ex.len() as int)[1] == s[j + 1]);
                assert(ex[0] == '\\' && ex[1] == esc);
            }
            assert('"' as u32 == 34 && '\\' as u32 == 92 && 'n' as u32 == 110 && '\n' as u32
                == 10);
            assert(s.subrange(j + 2, j + 2 + ex1.len() as int) =~= ex1) by {
                assert(forall|k: int|
                    0 <= k < ex1.len() ==> s.subrange(j + 2, j + 2 + ex1.len() as int)[k]
                        == s.subrange(j, j + ex.len() as int)[k + 2] && #[trigger] ex1[k] == ex[k
                        + 2]);
            }
            lemma_scan_json_escape(x1, s, j + 2);
            assert(seq![c] + x1 =~= x);
        } else {
            assert(ex[0] == c);
            assert(s[j] == c) by {
                assert(s.subrange(j, j + ex.len() as int)[0] == s[j + 0]);
            }
            assert(s[j] != '"' && s[j] != '\\');
            assert(s.subrange(j + 1, j + 1 + ex1.len() as int) =~= ex1) by {
                assert(forall|k: int|
                    0 <= k < ex1.len() ==> s.subrange(j + 1, j + 1 + ex1.len() as int)[k]
                        == s.subrange(j, j + ex.len() as int)[k + 1] && #[trigger] ex1[k] == ex[k
                        + 1]);
            }
            lemma_scan_json_escape(x1, s, j + 1);
            assert(seq![c] + x1 =~= x);
        }
    }
}

/// Read a JSON string literal starting at character `i`.
pub fn parse_json_string(s: &str, i: usize) -> (r: Option<(String, usize)>)
    requires
        i <= s@.len(),
    ensures
        (match (r, spec_parse_json_string(s@, i as int)) {
            (Some((t, e)), Some((st, se))) => t@ == st && e == se,
            (None, None) => true,
            _ => false,
        }),
{
    let n = s.unicode_len();
    if i >= n || s.get_char(i) != '"' {
        return None;
    }
    let mut out = String::new();
    let mut j: usize = i + 1;
    proof {
        match spec_scan_json_string(s@, i as int + 1) {
            Some((t, e)) => {
                assert(out@ + t =~= t);
            },
            None => {},
        }
    }
    loop
        invariant
            i + 1 <= j <= n,
            n == s@.len(),
            s@[i as int] == '"',
            (match spec_scan_json_string(s@, i as int + 1) {
                Some((t, e)) => (match spec_scan_json_string(s@, j as int) {
                    Some((t2, e2)) => t == out@ + t2 && e == e2,
                    None => false,
                }),
                None => spec_scan_json_string(s@, j as int) is None,
            }),
        decreases n - j,
    {
        if j >= n {
            return None;
        }
        let c = s.get_char(j);
        if c == '"' {
            proof {
                assert(spec_scan_json_string(s@, j as int) == Some(
                    (Seq::<char>::empty(), j as int + 1),
                ));
                assert(out@ + Seq::<char>::empty() =~= out@);
            }
            return Some((out, j + 1));
        } else if c == '\\' {
            if j + 1 < n {
                let e = s.get_char(j + 1);
                let ghost pre = out@;
                if e == '"' {
                    proof {
                        reveal_strlit("\"");
                    }
                    out.append("\"");
                    proof {
                        assert("\""@ =~= seq!['"']);
                    }
                } else if e == '\\' {
                    proof {
                        reveal_strlit("\\");
                    }
                    out.append("\\");
                    proof {
                        assert("\\"@ =~= seq!['\\']);
                    }
                } else if e == 'n' {
                    proof {
                        reveal_strlit("\n");
                    }
                    out.append("\n");
                    proof {
                        assert("\n"@ =~= seq!['\n']);
                    }
                } else {
                    return None;
                }
                proof {
                    let c2: char = if s@[j as int + 1] == 'n' {
                        '\n'
                    } else {
                        s@[j as int + 1]
                    };
                    assert(out@ == pre + seq![c2]);
                    match spec_scan_json_string(s@, j as int + 2) {
                        Some((t2, e2)) => {
                            assert(spec_scan_json_string(s@, j as int) == Some(
                                (seq![c2] + t2, e2),
                            ));
                            assert(pre + (seq![c2] + t2) =~= (pre + seq![c2]) + t2);
                        },
                        None => {
                            assert(spec_scan_json_string(s@, j as int) is None);
                        },
                    }
                }
                j = j + 2;
            } else {
                return None;
            }
        } else {
            let ghost pre = out@;
            let piece = s.substring_char(j, j + 1);
            out.append(piece);
            proof {
                assert(piece@ =~= seq![s@[j as int]]);
                assert(out@ == pre + seq![s@[j as int]]);
                match spec_scan_json_string(s@, j as int + 1) {
                    Some((t2, e2)) => {
                        assert(spec_scan_json_string(s@, j as int) == Some(
                            (seq![s@[j as int]] + t2, e2),
                        ));
                        assert(pre + (seq![s@[j as int]] + t2) =~= (pre + seq![s@[j as int]]) + t2);
                    },
                    None => {
                        assert(spec_scan_json_string(s@, j as int) is None);
                    },
                }
            }
            j = j + 1;
        }
    }
}

/// A successful JSON string parse moves forward and stays in bounds.
pub proof fn lemma_parse_json_string_bounds(s: Seq<char>, i: int)
    ensures
        (match spec_parse_json_string(s, i) {
            Some((t, e)) => i < e <= s.len(),
            None => true,
        }),
{
    if 0 <= i < s.len() && s[i] == '"' {
        lemma_scan_json_string_bounds(s, i + 1);
    }
}

proof fn lemma_scan_json_string_bounds(s: Seq<char>, j: int)
    requires
        0 <= j,
    ensures
        (match spec_scan_json_string(s, j) {
            Some((t, e)) => j < e <= s.len(),
            None => true,
        }),
    decreases s.len() - j,
{
    if j < s.len() {
        if s[j] == '"' {
        } else if s[j] == '\\' {
            if j + 1 < s.len() && (s[j + 1] == '"' || s[j + 1] == '\\' || s[j + 1] == 'n') {
                lemma_scan_json_string_bounds(s, j + 2);
            }
        } else {
            lemma_scan_json_string_bounds(s, j + 1);
        }
    }
}

/// A JSON string or `null`, parsed.
pub open spec fn spec_parse_json_opt_string(s: Seq<char>, i: int) -> Option<
    (Option<Seq<char>>, int),
> {
    match spec_expect_lit(s, i, "null"@) {
        Some(e) => Some((None, e)),
        None => match spec_parse_json_string(s, i) {
            Some((t, e)) => Some((Some(t), e)),
            None => None,
        },
    }
}

/// Read a JSON string or `null` starting at character `i`.
pub fn parse_json_opt_string(s: &str, i: usize) -> (r: Option<(Option<String>, usize)>)
    requires
        i <= s@.len(),
    ensures
        (match (r, spec_parse_json_opt_string(s@, i as int)) {
            (Some((t, e)), Some((st, se))) => view_opt_string(t) == st && e == se,
            (None, None) => true,
            _ => false,
        }),
{
    match expect_lit(s, i, "null") {
        Some(e) => Some((None, e)),
        None => match parse_json_string(s, i) {
            Some((t, e)) => Some((Some(t), e)),
            None => None,
        },
    }
}

/// An encoded optional string parses back to itself.
pub proof fn lemma_json_opt_string_round_trip(o: Option<Seq<char>>, s: Seq<char>, i: int)
    requires
        0 <= i,
        i + spec_json_opt_string(o).len() <= s.len(),
        s.subrange(i, i + spec_json_opt_string(o).len() as int) == spec_json_opt_string(o),
    ensures
        spec_parse_json_opt_string(s, i) == Some((o, i + spec_json_opt_string(o).len() as int)),
{
    reveal_strlit("null");
    match o {
        None => {
            assert(spec_expect_lit(s, i, "null"@) == Some(i + 4));
        },
        Some(t) => {
            let q = spec_json_string(t);
            assert(s[i] == '"') by {
                assert(s.subrange(i, i + q.len() as int)[0] == s[i + 0]);
                assert(q[0] == '"');
            }
            assert('"' as u32 == 34 && 'n' as u32 == 110);
            assert(spec_expect_lit(s, i, "null"@) is None) by {
                if i + 4 <= s.len() && s.subrange(i, i + 4) == "null"@ {
                    assert(s.subrange(i, i + 4)[0] == s[i + 0]);
                }
            }
            lemma_json_string_round_trip(t, s, i);
        },
    }
}

/// The label names as comma-separated JSON strings, parsed until the
/// closing bracket.
pub open spec fn spec_parse_json_label_items(s: Seq<char>, i: int) -> Option<
    (Seq<Seq<char>>, int),
>
    decreases s.len() - i,
{
    match spec_parse_json_string(s, i) {
        None => None,
        Some((t, e)) => if e <= i {
            None
        } else if e < s.len() && s[e] == ',' {
            match spec_parse_json_label_items(s, e + 1) {
                None => None,
                Some((l, e2)) => Some((seq![t] + l, e2)),
            }
        } else {
            Some((seq![t], e))
        },
    }
}

/// A JSON label list: `null`, `[]`, or bracketed names.
pub open spec fn spec_parse_json_labels(s: Seq<char>, i: int) -> Option<
    (Option<Seq<Seq<char>>>, int),
> {
    match spec_expect_lit(s, i, "null"@) {
        Some(e) => Some((None, e)),
        None => if 0 <= i < s.len() && s[i] == '[' {
            if i + 1 < s.len() && s[i + 1] == ']' {
                Some((Some(Seq::empty()), i + 2))
            } else {
                match spec_parse_json_label_items(s, i + 1) {
                    None => None,
                    Some((l, e)) => if e < s.len() && s[e] == ']' {
                        Some((Some(l), e + 1))
                    } else {
                        None
                    },
                }
            }
        } else {
            None
        },
    }
}

/// Read a JSON label list starting at character `i`.
pub fn parse_json_labels(s: &str, i: usize) -> (r: Option<(Option<Vec<String>>, usize)>)
    requires
        i <= s@.len(),
    ensures
        (match (r, spec_parse_json_labels(s@, i as int)) {
            (Some((o, e)), Some((so, se))) => view_labels(o) == so && e == se,
            (None, None) => true,
            _ => false,
        }),
{
    match expect_lit(s, i, "null") {
        Some(e) => {
            return Some((None, e));
        },
        None => {},
    }
    let n = s.unicode_len();
    if i < n && s.get_char(i) == '[' {
        if i + 1 < n && s.get_char(i + 1) == ']' {
            let empty: Vec<String> = Vec::new();
            proof {
                assert(view_labels(Some(empty)) =~= Some(Seq::<Seq<char>>::empty()));
            }
            Some((Some(empty), i + 2))
        } else {
            match parse_json_label_items(s, i + 1) {
                Some((l, e)) => {
                    if e < n && s.get_char(e) == ']' {
                        Some((Some(l), e + 1))
                    } else {
                        None
                    }
                },
                None => None,
            }
        }
    } else {
        None
    }
}

fn parse_json_label_items(s: &str, i: usize) -> (r: Option<(Vec<String>, usize)>)
    requires
        i <= s@.len(),
    ensures
        (match (r, spec_parse_json_label_items(s@, i as int)) {
            (Some((l, e)), Some((sl, se))) => Seq::new(l@.len(), |x: int| l@[x]@) == sl && e == se,
            (None, None) => true,
            _ => false,
        }),
    decreases s@.len() - i,
{
    proof {
        lemma_parse_json_string_bounds(s@, i as int);
    }
    let (t, e) = match parse_json_string(s, i) {
        Some(p) => p,
        None => {
            return None;
        },
    };
    let n = s.unicode_len();
    if e < n && s.get_char(e) == ',' {
        match parse_json_label_items(s, e + 1) {
            Some((mut l, e2)) => {
                let ghost lv = Seq::new(l@.len(), |x: int| l@[x]@);
                let mut out: Vec<String> = Vec::new();
                out.push(t);
                out.append(&mut l);
                proof {
                    assert(Seq::new(out@.len(), |x: int| out@[x]@) =~= seq![t@] + lv);
                }
                Some((out, e2))
            },
            None => None,
        }
    } else {
        let mut out: Vec<String> = Vec::new();
        out.push(t);
        proof {
            assert(Seq::new(out@.len(), |x: int| out@[x]@) =~= seq![t@]);
        }
        Some((out, e))
    }
}

proof fn lemma_json_label_items_first(l: Seq<Seq<char>>)
    requires
        l.len() >= 1,
    ensures
        spec_json_label_items(l) == spec_json_string(l[0]) + (if l.len() == 1 {
            Seq::<char>::empty()
        } else {
            seq![','] + spec_json_label_items(l.drop_first())
        }),
    decreases l.len(),
{
    if l.len() == 1 {
        assert(spec_json_label_items(l) =~= spec_json_string(l[0]) + Seq::<char>::empty());
    } else {
        let d = l.drop_last();
        lemma_json_label_items_first(d);
        assert(l.drop_first().drop_last() =~= d.drop_first());
        assert(l.drop_first().last() == l.last());
        assert(l.drop_first().len() == l.len() - 1);
        if d.len() == 1 {
            assert(l.len() == 2);
            assert(l.drop_first() =~= seq![l[1]]);
            assert(spec_json_label_items(l.drop_first()) == spec_json_string(l[1]));
            assert(spec_json_label_items(l) == spec_json_string(d[0]) + (seq![',']
                + spec_json_string(l.last())));
            assert(spec_json_string(l[0]) + (seq![','] + spec_json_label_items(l.drop_first()))
                =~= spec_json_string(d[0]) + (seq![','] + spec_json_string(l.last())));
        } else {
            assert(spec_json_label_items(d) == spec_json_string(d[0]) + (seq![',']
                + spec_json_label_items(d.drop_first())));
            assert(spec_json_label_items(l) == spec_json_label_items(d) + (seq![',']
                + spec_json_string(l.last())));
            assert(spec_json_label_items(l.drop_first()) == spec_json_label_items(d.drop_first())
                + (seq![','] + spec_json_string(l.drop_first().last())));
            assert((spec_json_string(d[0]) + (seq![','] + spec_json_label_items(d.drop_first())))
                + (seq![','] + spec_json_string(l.last())) =~= spec_json_string(l[0]) + (seq![',']
                + (spec_json_label_items(d.drop_first()) + (seq![','] + spec_json_string(
                l.last(),
            )))));
        }
    }
}

/// An encoded label list parses back to itself.
pub proof fn lemma_json_labels_round_trip(o: Option<Seq<Seq<char>>>, s: Seq<char>, i: int)
    requires
        0 <= i,
        i + spec_json_labels(o).len() <= s.len(),
        s.subrange(i, i + spec_json_labels(o).len() as int) == spec_json_labels(o),
    ensures
        spec_parse_json_labels(s, i) == Some((o, i + spec_json_labels(o).len() as int)),
{
    reveal_strlit("null");
    let t = spec_json_labels(o);
    match o {
        None => {
            assert(spec_expect_lit(s, i, "null"@) == Some(i + 4));
        },
        Some(l) => {
            assert('[' as u32 == 91 && ']' as u32 == 93 && 'n' as u32 == 110 && '"' as u32 == 34);
            assert(t == seq!['['] + (spec_json_label_items(l) + seq![']']));
            assert(s[i] == '[') by {
                assert(s.subrange(i, i + t.len() as int)[0] == s[i + 0]);
                assert(t[0] == '[');
            }
            assert(spec_expect_lit(s, i, "null"@) is None) by {
                if i + 4 <= s.len() && s.subrange(i, i + 4) == "null"@ {
                    assert(s.subrange(i, i + 4)[0] == s[i + 0]);
                }
            }
            lemma_split_chunk(s, i, seq!['['], spec_json_label_items(l) + seq![']']);
            lemma_split_chunk(s, i + 1, spec_json_label_items(l), seq![']']);
            let einner = i + 1 + spec_json_label_items(l).len() as int;
            assert(s[einner] == ']') by {
                assert(s.subrange(einner, einner + 1) == seq![']']);
                assert(s.subrange(einner, einner + 1)[0] == s[einner + 0]);
            }
            if l.len() == 0 {
                assert(spec_json_label_items(l).len() == 0);
                assert(s[i + 1] == ']');
                assert(Seq::<Seq<char>>::empty() =~= l);
            } else {
                lemma_json_label_items_first(l);
                assert(spec_json_label_items(l).len() > 0) by {
                    assert(spec_json_string(l[0]).len() >= 2);
                }
                assert(s[i + 1] != ']') by {
                    assert(s.subrange(i + 1, einner)[0] == s[i + 1 + 0]);
                    assert(spec_json_label_items(l)[0] == spec_json_string(l[0])[0]);
                    assert(spec_json_string(l[0])[0] == '"');
                }
                lemma_json_items_round_trip(l, s, i + 1);
            }
        },
    }
}

proof fn lemma_json_items_round_trip(l: Seq<Seq<char>>, s: Seq<char>, i: int)
    requires
        l.len() >= 1,
        0 <= i,
        i + spec_json_label_items(l).len() < s.len(),
        s.subrange(i, i + spec_json_label_items(l).len() as int) == spec_json_label_items(l),
        s[i + spec_json_label_items(l).len()] == ']',
    ensures
        spec_parse_json_label_items(s, i) == Some(
            (l, i + spec_json_label_items(l).len() as int),
        ),
    decreases l.len(),
{
    lemma_json_label_items_first(l);
    let t = spec_json_label_items(l);
    assert(',' as u32 == 44 && ']' as u32 == 93);
    if l.len() == 1 {
        assert(t =~= spec_json_string(l[0]));
        lemma_json_string_round_trip(l[0], s, i);
        let e = i + t.len() as int;
        assert(s[e] == ']');
        assert(s[e] != ',');
        assert(seq![l[0]] =~= l);
    } else {
        let rest = l.drop_first();
        let a = spec_json_string(l[0]);
        let m = seq![','] + spec_json_label_items(rest);
        assert(t == a + m);
        lemma_split_chunk(s, i, a, m);
        lemma_json_string_round_trip(l[0], s, i);
        let e1 = i + a.len() as int;
        lemma_split_chunk(s, e1, seq![','], spec_json_label_items(rest));
        assert(s[e1] == ',') by {
            assert(s.subrange(e1, e1 + 1) == seq![',']);
            assert(s.subrange(e1, e1 + 1)[0] == s[e1 + 0]);
        }
        lemma_json_items_round_trip(rest, s, e1 + 1);
        assert(seq![l[0]] + rest =~= l);
    }
}

proof fn lemma_parse_bbox_items_bounds(s: Seq<char>, i: int)
    requires
        0 <= i,
    ensures
        (match spec_parse_bbox_items(s, i) {
            Some((l, e)) => i < e <= s.len(),
            None => true,
        }),
    decreases s.len() - i,
{
    lemma_parse_bbox_advances(s, i);
    match spec_parse_bbox(s, i) {
        None => {},
        Some((b, e)) => {
            if i < e && e < s.len() && s[e] == ',' {
                lemma_parse_bbox_items_bounds(s, e + 1);
            }
        },
    }
}

/// A successful box-list parse moves forward and stays in bounds.
pub proof fn lemma_parse_bboxes_field_bounds(s: Seq<char>, i: int)
    requires
        0 <= i,
    ensures
        (match spec_parse_bboxes_field(s, i) {
            Some((o, e)) => i < e <= s.len(),
            None => true,
        }),
{
    reveal_strlit("null");
    lemma_parse_bbox_items_bounds(s, i + 1);
}

/// The identity columns of a record's JSON object.
pub open spec fn spec_parse_json_record_head(s: Seq<char>, i: int) -> Option<
    ((int, int, Seq<char>, Option<Seq<char>>), int),
> {
    match spec_expect_lit(s, i, "{\"folder_id\": "@) {
        None => None,
        Some(a) => match spec_scan_u64(s, a) {
            None => None,
            Some((folder_id, a1)) => if folder_id > usize::MAX as u64 {
                None
            } else {
                match spec_expect_lit(s, a1, ", \"file_id\": "@) {
                    None => None,
                    Some(b) => match spec_scan_u64(s, b) {
                        None => None,
                        Some((file_id, b1)) => if file_id > usize::MAX as u64 {
                            None
                        } else {
                            match spec_expect_lit(s, b1, ", \"file_path\": "@) {
                                None => None,
                                Some(c) => match spec_parse_json_string(s, c) {
                                    None => None,
                                    Some((file_path, c1)) => match spec_expect_lit(
                                        s,
                                        c1,
                                        ", \"shoot_time\": "@,
                                    ) {
                                        None => None,
                                        Some(d) => match spec_parse_json_opt_string(s, d) {
                                            None => None,
                                            Some((shoot_time, d1)) => Some(
                                                ((folder_id as int, file_id as int, file_path, shoot_time), d1),
                                            ),
                                        },
                                    },
                                },
                            }
                        },
                    },
                }
            },
        },
    }
}

/// The frame counters and boxes of a record's JSON object.
pub open spec fn spec_parse_json_record_tail(s: Seq<char>, d1: int) -> Option<
    ((int, int, Option<Seq<Bbox>>), int),
> {
    match spec_expect_lit(s, d1, ", \"frame_index\": "@) {
        None => None,
        Some(f) => match spec_scan_u64(s, f) {
            None => None,
            Some((frame_index, f1)) => if frame_index > usize::MAX as u64 {
                None
            } else {
                match spec_expect_lit(s, f1, ", \"total_frames\": "@) {
                    None => None,
                    Some(g) => match spec_scan_u64(s, g) {
                        None => None,
                        Some((total, g1)) => if total > usize::MAX as u64 {
                            None
                        } else {
                            match spec_expect_lit(s, g1, ", \"bboxes\": "@) {
                                None => None,
                                Some(h) => match spec_parse_bboxes_field(s, h) {
                                    None => None,
                                    Some((bboxes, h1)) => Some(
                                        ((frame_index as int, total as int, bboxes), h1),
                                    ),
                                },
                            }
                        },
                    },
                }
            },
        },
    }
}

/// The labels, error and keyframe flag of a record's JSON object.
pub open spec fn spec_parse_json_record_end(s: Seq<char>, h1: int) -> Option<
    ((Option<Seq<Seq<char>>>, Option<Seq<char>>, bool), int),
> {
    match spec_expect_lit(s, h1, ", \"label\": "@) {
        None => None,
        Some(k) => match spec_parse_json_labels(s, k) {
            None => None,
            Some((label, k1)) => match spec_expect_lit(s, k1, ", \"error\": "@) {
                None => None,
                Some(m) => match spec_parse_json_opt_string(s, m) {
                    None => None,
                    Some((error, m1)) => match spec_expect_lit(s, m1, ", \"iframe\": "@) {
                        None => None,
                        Some(p) => match spec_expect_lit(s, p, "true}"@) {
                            Some(e) => Some(((label, error, true), e)),
                            None => match spec_expect_lit(s, p, "false}"@) {
                                Some(e) => Some(((label, error, false), e)),
                                None => None,
                            },
                        },
                    },
                },
            },
        },
    }
}

/// One record of the JSON result list, parsed from character `i`.
pub open spec fn spec_parse_json_record(s: Seq<char>, i: int) -> Option<(RecordV, int)> {
    match spec_parse_json_record_head(s, i) {
        None => None,
        Some(((folder_id, file_id, file_path, shoot_time), d1)) => match spec_parse_json_record_tail(
            s,
            d1,
        ) {
            None => None,
            Some(((frame_index, total_frames, bboxes), h1)) => match spec_parse_json_record_end(
                s,
                h1,
            ) {
                None => None,
                Some(((label, error, iframe), e)) => Some(
                    (
                        RecordV {
                            folder_id,
                            file_id,
                            file_path,
                            shoot_time,
                            frame_index,
                            total_frames,
                            bboxes,
                            label,
                            error,
                            iframe,
                        },
                        e,
                    ),
                ),
            },
        },
    }
}

/// The records of a JSON result list, one per line, ending at `\n]`.
pub open spec fn spec_parse_json_rows(s: Seq<char>, i: int) -> Option<(Seq<RecordV>, int)>
    decreases s.len() - i,
{
    match spec_parse_json_record(s, i) {
        None => None,
        Some((v, e)) => if e <= i {
            None
        } else {
            match spec_expect_lit(s, e, ",\n"@) {
                Some(e2) => match spec_parse_json_rows(s, e2) {
                    None => None,
                    Some((l, e3)) => Some((seq![v] + l, e3)),
                },
                None => match spec_expect_lit(s, e, "\n]"@) {
                    Some(e2) => if e2 == s.len() {
                        Some((seq![v], e2))
                    } else {
                        None
                    },
                    None => None,
                },
            }
        },
    }
}

/// A whole JSON result list.
pub open spec fn spec_parse_json_file(s: Seq<char>) -> Option<Seq<RecordV>> {
    if s == "[]"@ {
        Some(Seq::empty())
    } else {
        match spec_expect_lit(s, 0, "[\n"@) {
            None => None,
            Some(h) => match spec_parse_json_rows(s, h) {
                None => None,
                Some((l, e)) => Some(l),
            },
        }
    }
}

/// A record the JSON format carries faithfully: counters that fit the
/// machine.  Unlike the CSV columns, the JSON object keeps every field,
/// the keyframe flag included.
pub open spec fn record_wf_json(v: RecordV) -> bool {
    &&& 0 <= v.folder_id <= usize::MAX
    &&& 0 <= v.file_id <= usize::MAX
    &&& 0 <= v.frame_index <= usize::MAX
    &&& 0 <= v.total_frames <= usize::MAX
}

proof fn lemma_parse_json_label_items_bounds(s: Seq<char>, i: int)
    requires
        0 <= i,
    ensures
        (match spec_parse_json_label_items(s, i) {
            Some((l, e)) => i < e <= s.len(),
            None => true,
        }),
    decreases s.len() - i,
{
    lemma_parse_json_string_bounds(s, i);
    match spec_parse_json_string(s, i) {
        None => {},
        Some((t, e)) => {
            if i < e && e < s.len() && s[e] == ',' {
                lemma_parse_json_label_items_bounds(s, e + 1);
            }
        },
    }
}

/// A successful label-list parse moves forward and stays in bounds.
pub proof fn lemma_parse_json_labels_bounds(s: Seq<char>, i: int)
    requires
        0 <= i,
    ensures
        (match spec_parse_json_labels(s, i) {
            Some((o, e)) => i < e <= s.len(),
            None => true,
        }),
{
    reveal_strlit("null");
    lemma_parse_json_label_items_bounds(s, i + 1);
}

/// A successful optional-string parse moves forward and stays in bounds.
pub proof fn lemma_parse_json_opt_string_bounds(s: Seq<char>, i: int)
    requires
        0 <= i,
    ensures
        (match spec_parse_json_opt_string(s, i) {
            Some((o, e)) => i < e <= s.len(),
            None => true,
        }),
{
    reveal_strlit("null");
    lemma_parse_json_string_bounds(s, i);
}

#[verifier::rlimit(100)]
fn parse_json_record_head(s: &str, i: usize) -> (r: Option<
    (usize, usize, String, Option<String>, usize),
>)
    requires
        i <= s@.len(),
    ensures
        (match (r, spec_parse_json_record_head(s@, i as int)) {
            (
                Some((folder, file_id, path, shoot, d1)),
                Some(((sfolder, sfile, spath, sshoot), sd1)),
            ) => folder as int == sfolder && file_id as int == sfile && path@ == spath
                && view_opt_string(shoot) == sshoot && d1 as int == sd1 && d1 <= s@.len(),
            (None, None) => true,
            _ => false,
        }),
{
    let a = match expect_lit(s, i, "{\"folder_id\": ") {
        Some(e) => e,
        None => {
            return None;
        },
    };
    proof {
        lemma_scan_u64_bounds(s@, a as int);
    }
    let (folder, a1) = match scan_u64(s, a) {
        Some(p) => p,
        None => {
            return None;
        },
    };
    if folder > usize::MAX as u64 {
        return None;
    }
    let b = match expect_lit(s, a1, ", \"file_id\": ") {
        Some(e) => e,
        None => {
            return None;
        },
    };
    proof {
        lemma_scan_u64_bounds(s@, b as int);
    }
    let (file_id, b1) = match scan_u64(s, b) {
        Some(p) => p,
        None => {
            return None;
        },
    };
    if file_id > usize::MAX as u64 {
        return None;
    }
    let c = match expect_lit(s, b1, ", \"file_path\": ") {
        Some(e) => e,
        None => {
            return None;
        },
    };
    proof {
        lemma_parse_json_string_bounds(s@, c as int);
    }
    let (path, c1) = match parse_json_string(s, c) {
        Some(p) => p,
        None => {
            return None;
        },
    };
    let d = match expect_lit(s, c1, ", \"shoot_time\": ") {
        Some(e) => e,
        None => {
            return None;
        },
    };
    proof {
        lemma_parse_json_opt_string_bounds(s@, d as int);
    }
    let (shoot, d1) = match parse_json_opt_string(s, d) {
        Some(p) => p,
        None => {
            return None;
        },
    };
    Some((folder as usize, file_id as usize, path, shoot, d1))
}

#[verifier::rlimit(100)]
fn parse_json_record_rest(
    s: &str,
    d1: usize,
    folder_id: usize,
    file_id: usize,
    path: String,
    shoot_time: Option<String>,
) -> (r: Option<(ExportFrame, usize)>)
    requires
        d1 <= s@.len(),
    ensures
        (match (r, spec_parse_json_record_tail(s@, d1 as int)) {
            (Some((ef, e)), Some(((sframe, stotal, sboxes), sh1))) => (match spec_parse_json_record_end(
                s@,
                sh1,
            ) {
                Some(((slabel, serror, siframe), se)) => {
                    &&& record_view(ef) == (RecordV {
                        folder_id: folder_id as int,
                        file_id: file_id as int,
                        file_path: path@,
                        shoot_time: view_opt_string(shoot_time),
                        frame_index: sframe,
                        total_frames: stotal,
                        bboxes: sboxes,
                        label: slabel,
                        error: serror,
                        iframe: siframe,
                    })
                    &&& ef.file.tmp_path@ == path@
                    &&& e as int == se
                    &&& e <= s@.len()
                },
                None => false,
            }),
            (None, _) => (match spec_parse_json_record_tail(s@, d1 as int) {
                Some((tt, sh1)) => spec_parse_json_record_end(s@, sh1) is None,
                None => true,
            }),
            _ => false,
        }),
{
    let f = match expect_lit(s, d1, ", \"frame_index\": ") {
        Some(e) => e,
        None => {
            return None;
        },
    };
    proof {
        lemma_scan_u64_bounds(s@, f as int);
    }
    let (frame_index, f1) = match scan_u64(s, f) {
        Some(p) => p,
        None => {
            return None;
        },
    };
    if frame_index > usize::MAX as u64 {
        return None;
    }
    let g = match expect_lit(s, f1, ", \"total_frames\": ") {
        Some(e) => e,
        None => {
            return None;
        },
    };
    proof {
        lemma_scan_u64_bounds(s@, g as int);
    }
    let (total, g1) = match scan_u64(s, g) {
        Some(p) => p,
        None => {
            return None;
        },
    };
    if total > usize::MAX as u64 {
        return None;
    }
    let h = match expect_lit(s, g1, ", \"bboxes\": ") {
        Some(e) => e,
        None => {
            return None;
        },
    };
    proof {
        lemma_parse_bboxes_field_bounds(s@, h as int);
    }
    let (bboxes, h1) = match parse_bboxes_field(s, h) {
        Some(p) => p,
        None => {
            return None;
        },
    };
    let k = match expect_lit(s, h1, ", \"label\": ") {
        Some(e) => e,
        None => {
            return None;
        },
    };
    proof {
        lemma_parse_json_labels_bounds(s@, k as int);
    }
    let (label, k1) = match parse_json_labels(s, k) {
        Some(p) => p,
        None => {
            return None;
        },
    };
    let m = match expect_lit(s, k1, ", \"error\": ") {
        Some(e) => e,
        None => {
            return None;
        },
    };
    proof {
        lemma_parse_json_opt_string_bounds(s@, m as int);
    }
    let (error, m1) = match parse_json_opt_string(s, m) {
        Some(p) => p,
        None => {
            return None;
        },
    };
    let p = match expect_lit(s, m1, ", \"iframe\": ") {
        Some(e) => e,
        None => {
            return None;
        },
    };
    let (iframe, e) = match expect_lit(s, p, "true}") {
        Some(e) => (true, e),
        None => match expect_lit(s, p, "false}") {
            Some(e) => (false, e),
            None => {
                return None;
            },
        },
    };
    let tmp = path.clone();
    let ef = ExportFrame {
        file: FileItem { folder_id, file_id, file_path: path, tmp_path: tmp },
        shoot_time,
        frame_index: frame_index as usize,
        total_frames: total as usize,
        bboxes,
        label,
        error,
        iframe,
    };
    Some((ef, e))
}

/// Read one record of the JSON result list starting at character `i`.
/// The working path of the parsed record equals its source path.
pub fn parse_json_record(s: &str, i: usize) -> (r: Option<(ExportFrame, usize)>)
    requires
        i <= s@.len(),
    ensures
        (match (r, spec_parse_json_record(s@, i as int)) {
            (Some((ef, e)), Some((v, se))) => record_view(ef) == v && ef.file.tmp_path@
                == v.file_path && e == se && e <= s@.len(),
            (None, None) => true,
            _ => false,
        }),
{
    let (folder, file_id, path, shoot, d1) = match parse_json_record_head(s, i) {
        Some(p) => p,
        None => {
            return None;
        },
    };
    parse_json_record_rest(s, d1, folder, file_id, path, shoot)
}

/// Read the whole JSON result list.
pub fn parse_export_json(s: &str) -> (r: Option<Vec<ExportFrame>>)
    ensures
        (match (r, spec_parse_json_file(s@)) {
            (Some(rs), Some(l)) => records_view(rs@) == l && (forall|x: int|
                0 <= x < rs@.len() ==> (#[trigger] rs@[x]).file.tmp_path@
                    == rs@[x].file.file_path@),
            (None, None) => true,
            _ => false,
        }),
{
    if str_eq(s, "[]") {
        let out: Vec<ExportFrame> = Vec::new();
        proof {
            assert(records_view(out@) =~= Seq::<RecordV>::empty());
        }
        return Some(out);
    }
    let h = match expect_lit(s, 0, "[\n") {
        Some(e) => e,
        None => {
            return None;
        },
    };
    let n = s.unicode_len();
    let mut out: Vec<ExportFrame> = Vec::new();
    let mut i: usize = h;
    loop
        invariant
            i <= n,
            n == s@.len(),
            s@ != "[]"@,
            spec_expect_lit(s@, 0, "[\n"@) == Some(h as int),
            (match spec_parse_json_rows(s@, h as int) {
                Some((l, e)) => (match spec_parse_json_rows(s@, i as int) {
                    Some((l2, e2)) => l == records_view(out@) + l2 && e == e2,
                    None => false,
                }),
                None => spec_parse_json_rows(s@, i as int) is None,
            }),
            forall|x: int|
                0 <= x < out@.len() ==> (#[trigger] out@[x]).file.tmp_path@
                    == out@[x].file.file_path@,
        decreases n - i,
    {
        let (ef, e) = match parse_json_record(s, i) {
            Some(p) => p,
            None => {
                return None;
            },
        };
        if e <= i {
            proof {
                assert(spec_parse_json_rows(s@, i as int) is None);
            }
            return None;
        }
        let ghost pre = out@;
        match expect_lit(s, e, ",\n") {
            Some(e2) => {
                out.push(ef);
                proof {
                    assert(records_view(out@) =~= records_view(pre).push(record_view(ef)));
                    match spec_parse_json_rows(s@, e2 as int) {
                        Some((l2, e3)) => {
                            assert(records_view(pre) + (seq![record_view(ef)] + l2)
                                =~= records_view(pre).push(record_view(ef)) + l2);
                        },
                        None => {},
                    }
                }
                i = e2;
            },
            None => {
                match expect_lit(s, e, "\n]") {
                    Some(e2) => {
                        if e2 == n {
                            out.push(ef);
                            proof {
                                assert(records_view(out@) =~= records_view(pre).push(
                                    record_view(ef),
                                ));
                                assert(records_view(pre) + seq![record_view(ef)] =~= records_view(
                                    pre,
                                ).push(record_view(ef)));
                            }
                            return Some(out);
                        } else {
                            return None;
                        }
                    },
                    None => {
                        return None;
                    },
                }
            },
        }
    }
}

proof fn lemma_json_lits()
    ensures
        "{\"folder_id\": "@.len() == 14,
        ", \"file_id\": "@.len() == 13,
        ", \"file_path\": "@.len() == 15,
        ", \"shoot_time\": "@.len() == 16,
        ", \"frame_index\": "@.len() == 17,
        ", \"total_frames\": "@.len() == 18,
        ", \"bboxes\": "@.len() == 12,
        ", \"label\": "@.len() == 11,
        ", \"error\": "@.len() == 11,
        ", \"iframe\": "@.len() == 12,
        "true"@.len() == 4,
        "false"@.len() == 5,
        "}"@.len() == 1,
        "true}"@.len() == 5,
        "false}"@.len() == 6,
        ", \"file_id\": "@[0] == ',',
        ", \"file_path\": "@[0] == ',',
        ", \"shoot_time\": "@[0] == ',',
        ", \"frame_index\": "@[0] == ',',
        ", \"total_frames\": "@[0] == ',',
        ", \"bboxes\": "@[0] == ',',
        ", \"label\": "@[0] == ',',
        ", \"error\": "@[0] == ',',
        ", \"iframe\": "@[0] == ',',
        "true"@ + "}"@ == "true}"@,
        "false"@ + "}"@ == "false}"@,
        "true}"@[0] == 't',
        "false}"@[0] == 'f',
        !is_digit(','),
{
    reveal_strlit("{\"folder_id\": ");
    reveal_strlit(", \"file_id\": ");
    reveal_strlit(", \"file_path\": ");
    reveal_strlit(", \"shoot_time\": ");
    reveal_strlit(", \"frame_index\": ");
    reveal_strlit(", \"total_frames\": ");
    reveal_strlit(", \"bboxes\": ");
    reveal_strlit(", \"label\": ");
    reveal_strlit(", \"error\": ");
    reveal_strlit(", \"iframe\": ");
    reveal_strlit("true");
    reveal_strlit("false");
    reveal_strlit("}");
    reveal_strlit("true}");
    reveal_strlit("false}");
    assert(',' as u32 == 44);
    assert("true"@ + "}"@ =~= "true}"@);
    assert("false"@ + "}"@ =~= "false}"@);
}

/// An encoded record parses back to the record.
#[verifier::rlimit(100)]
pub proof fn lemma_json_record_round_trip(v: RecordV, s: Seq<char>, i: int)
    requires
        record_wf_json(v),
        0 <= i,
        i + spec_json_record(v).len() <= s.len(),
        s.subrange(i, i + spec_json_record(v).len() as int) == spec_json_record(v),
    ensures
        spec_parse_json_record(s, i) == Some((v, i + spec_json_record(v).len() as int)),
{
    lemma_json_lits();
    let k1 = "{\"folder_id\": "@;
    let n1 = spec_u64_string(v.folder_id);
    let k2 = ", \"file_id\": "@;
    let n2 = spec_u64_string(v.file_id);
    let k3 = ", \"file_path\": "@;
    let q3 = spec_json_string(v.file_path);
    let k4 = ", \"shoot_time\": "@;
    let q4 = spec_json_opt_string(v.shoot_time);
    let tail = spec_json_record_tail(v);
    let r1 = n1 + (k2 + (n2 + (k3 + (q3 + (k4 + (q4 + tail))))));
    let r2 = k2 + (n2 + (k3 + (q3 + (k4 + (q4 + tail)))));
    let r3 = n2 + (k3 + (q3 + (k4 + (q4 + tail))));
    let r4 = k3 + (q3 + (k4 + (q4 + tail)));
    let r5 = q3 + (k4 + (q4 + tail));
    let r6 = k4 + (q4 + tail);
    let r7 = q4 + tail;
    assert(spec_json_record(v) == k1 + r1);
    lemma_split_chunk(s, i, k1, r1);
    let a = i + k1.len() as int;
    assert(spec_expect_lit(s, i, k1) == Some(a));
    lemma_split_chunk(s, a, n1, r2);
    let a1 = a + n1.len() as int;
    assert(s[a1] == ',') by {
        assert(s.subrange(a1, a1 + r2.len() as int)[0] == s[a1 + 0]);
    }
    lemma_scan_u64_of_string(v.folder_id as u64, s, a);
    lemma_split_chunk(s, a1, k2, r3);
    let b = a1 + k2.len() as int;
    assert(spec_expect_lit(s, a1, k2) == Some(b));
    lemma_split_chunk(s, b, n2, r4);
    let b1 = b + n2.len() as int;
    assert(s[b1] == ',') by {
        assert(s.subrange(b1, b1 + r4.len() as int)[0] == s[b1 + 0]);
    }
    lemma_scan_u64_of_string(v.file_id as u64, s, b);
    lemma_split_chunk(s, b1, k3, r5);
    let c = b1 + k3.len() as int;
    assert(spec_expect_lit(s, b1, k3) == Some(c));
    lemma_split_chunk(s, c, q3, r6);
    let c1 = c + q3.len() as int;
    lemma_json_string_round_trip(v.file_path, s, c);
    lemma_split_chunk(s, c1, k4, r7);
    let d = c1 + k4.len() as int;
    assert(spec_expect_lit(s, c1, k4) == Some(d));
    lemma_split_chunk(s, d, q4, tail);
    let d1 = d + q4.len() as int;
    lemma_json_opt_string_round_trip(v.shoot_time, s, d);
    lemma_json_record_tail_round_trip(v, s, d1);
    assert(d1 + tail.len() == i + spec_json_record(v).len());
}

#[verifier::rlimit(100)]
proof fn lemma_json_record_tail_round_trip(v: RecordV, s: Seq<char>, d1: int)
    requires
        record_wf_json(v),
        0 <= d1,
        d1 + spec_json_record_tail(v).len() <= s.len(),
        s.subrange(d1, d1 + spec_json_record_tail(v).len() as int) == spec_json_record_tail(v),
    ensures
        (match spec_parse_json_record_tail(s, d1) {
            Some(((sframe, stotal, sboxes), sh1)) => {
                &&& sframe == v.frame_index
                &&& stotal == v.total_frames
                &&& sboxes == v.bboxes
                &&& (match spec_parse_json_record_end(s, sh1) {
                    Some(((slabel, serror, siframe), se)) => slabel == v.label && serror == v.error
                        && siframe == v.iframe && se == d1 + spec_json_record_tail(v).len(),
                    None => false,
                })
            },
            None => false,
        }),
{
    lemma_json_lits();
    let k5 = ", \"frame_index\": "@;
    let n5 = spec_u64_string(v.frame_index);
    let k6 = ", \"total_frames\": "@;
    let n6 = spec_u64_string(v.total_frames);
    let k7 = ", \"bboxes\": "@;
    let bb = spec_bboxes_field(v.bboxes);
    let endt = spec_json_record_end(v);
    let tail = spec_json_record_tail(v);
    let r1 = n5 + (k6 + (n6 + (k7 + (bb + endt))));
    let r2 = k6 + (n6 + (k7 + (bb + endt)));
    let r3 = n6 + (k7 + (bb + endt));
    let r4 = k7 + (bb + endt);
    let r5 = bb + endt;
    assert(tail == k5 + r1);
    lemma_split_chunk(s, d1, k5, r1);
    let f = d1 + k5.len() as int;
    assert(spec_expect_lit(s, d1, k5) == Some(f));
    lemma_split_chunk(s, f, n5, r2);
    let f1 = f + n5.len() as int;
    assert(s[f1] == ',') by {
        assert(s.subrange(f1, f1 + r2.len() as int)[0] == s[f1 + 0]);
    }
    lemma_scan_u64_of_string(v.frame_index as u64, s, f);
    lemma_split_chunk(s, f1, k6, r3);
    let g = f1 + k6.len() as int;
    assert(spec_expect_lit(s, f1, k6) == Some(g));
    lemma_split_chunk(s, g, n6, r4);
    let g1 = g + n6.len() as int;
    assert(s[g1] == ',') by {
        assert(s.subrange(g1, g1 + r4.len() as int)[0] == s[g1 + 0]);
    }
    lemma_scan_u64_of_string(v.total_frames as u64, s, g);
    lemma_split_chunk(s, g1, k7, r5);
    let h = g1 + k7.len() as int;
    assert(spec_expect_lit(s, g1, k7) == Some(h));
    lemma_split_chunk(s, h, bb, endt);
    let h1 = h + bb.len() as int;
    lemma_bboxes_field_round_trip(v.bboxes, s, h);
    lemma_json_record_end_round_trip(v, s, h1);
    assert(h1 + endt.len() == d1 + tail.len());
}

#[verifier::rlimit(100)]
proof fn lemma_json_record_end_round_trip(v: RecordV, s: Seq<char>, h1: int)
    requires
        0 <= h1,
        h1 + spec_json_record_end(v).len() <= s.len(),
        s.subrange(h1, h1 + spec_json_record_end(v).len() as int) == spec_json_record_end(v),
    ensures
        spec_parse_json_record_end(s, h1) == Some(
            ((v.label, v.error, v.iframe), h1 + spec_json_record_end(v).len() as int),
        ),
{
    lemma_json_lits();
    let k8 = ", \"label\": "@;
    let lb = spec_json_labels(v.label);
    let k9 = ", \"error\": "@;
    let q9 = spec_json_opt_string(v.error);
    let k10 = ", \"iframe\": "@;
    let tf = if v.iframe {
        "true"@
    } else {
        "false"@
    };
    let endt = spec_json_record_end(v);
    let r1 = lb + (k9 + (q9 + (k10 + (tf + "}"@))));
    let r2 = k9 + (q9 + (k10 + (tf + "}"@)));
    let r3 = q9 + (k10 + (tf + "}"@));
    let r4 = k10 + (tf + "}"@);
    let r5 = tf + "}"@;
    assert(endt == k8 + r1);
    lemma_split_chunk(s, h1, k8, r1);
    let k = h1 + k8.len() as int;
    assert(spec_expect_lit(s, h1, k8) == Some(k));
    lemma_split_chunk(s, k, lb, r2);
    let k1 = k + lb.len() as int;
    lemma_json_labels_round_trip(v.label, s, k);
    lemma_split_chunk(s, k1, k9, r3);
    let m = k1 + k9.len() as int;
    assert(spec_expect_lit(s, k1, k9) == Some(m));
    lemma_split_chunk(s, m, q9, r4);
    let m1 = m + q9.len() as int;
    lemma_json_opt_string_round_trip(v.error, s, m);
    lemma_split_chunk(s, m1, k10, r5);
    let p = m1 + k10.len() as int;
    assert(spec_expect_lit(s, m1, k10) == Some(p));
    if v.iframe {
        assert(r5 == "true}"@);
        lemma_split_chunk(s, p, "true}"@, Seq::empty());
        assert(s.subrange(p, p + 5) == "true}"@) by {
            assert(r5.len() == 5);
        }
        assert(spec_expect_lit(s, p, "true}"@) == Some(p + 5));
    } else {
        assert(r5 == "false}"@);
        assert(s.subrange(p, p + 6) == "false}"@) by {
            lemma_split_chunk(s, p, "false}"@, Seq::empty());
            assert(r5.len() == 6);
        }
        assert(spec_expect_lit(s, p, "true}"@) is None) by {
            if p + 5 <= s.len() && s.subrange(p, p + 5) == "true}"@ {
                assert(s.subrange(p, p + 5)[0] == s[p + 0]);
                assert(s.subrange(p, p + 6)[0] == s[p + 0]);
                assert('t' as u32 == 116 && 'f' as u32 == 102);
            }
        }
        assert(spec_expect_lit(s, p, "false}"@) == Some(p + 6));
    }
}

proof fn lemma_json_rows_first(l: Seq<RecordV>)
    requires
        l.len() >= 1,
    ensures
        spec_json_rows(l) == spec_json_record(l[0]) + (if l.len() == 1 {
            Seq::<char>::empty()
        } else {
            ",\n"@ + spec_json_rows(l.drop_first())
        }),
    decreases l.len(),
{
    if l.len() == 1 {
        assert(spec_json_rows(l) =~= spec_json_record(l[0]) + Seq::<char>::empty());
    } else {
        let d = l.drop_last();
        lemma_json_rows_first(d);
        assert(l.drop_first().drop_last() =~= d.drop_first());
        assert(l.drop_first().last() == l.last());
        assert(l.drop_first().len() == l.len() - 1);
        if d.len() == 1 {
            assert(l.drop_first() =~= seq![l[1]]);
            assert(spec_json_rows(l.drop_first()) == spec_json_record(l[1]));
            assert(spec_json_rows(l) == spec_json_record(d[0]) + (",\n"@ + spec_json_record(
                l.last(),
            )));
            assert(spec_json_record(l[0]) + (",\n"@ + spec_json_rows(l.drop_first()))
                =~= spec_json_record(d[0]) + (",\n"@ + spec_json_record(l.last())));
        } else {
            assert(spec_json_rows(d) == spec_json_record(d[0]) + (",\n"@ + spec_json_rows(
                d.drop_first(),
            )));
            assert(spec_json_rows(l) == spec_json_rows(d) + (",\n"@ + spec_json_record(
                l.last(),
            )));
            assert(spec_json_rows(l.drop_first()) == spec_json_rows(d.drop_first()) + (",\n"@
                + spec_json_record(l.drop_first().last())));
            assert((spec_json_record(d[0]) + (",\n"@ + spec_json_rows(d.drop_first()))) + (",\n"@
                + spec_json_record(l.last())) =~= spec_json_record(l[0]) + (",\n"@ + (
            spec_json_rows(d.drop_first()) + (",\n"@ + spec_json_record(l.last())))));
        }
    }
}

proof fn lemma_json_record_len(v: RecordV)
    ensures
        spec_json_record(v).len() >= 1,
{
    lemma_json_lits();
}

#[verifier::rlimit(100)]
proof fn lemma_json_rows_round_trip(l: Seq<RecordV>, s: Seq<char>, i: int)
    requires
        l.len() >= 1,
        forall|x: int| 0 <= x < l.len() ==> record_wf_json(#[trigger] l[x]),
        0 <= i,
        i + spec_json_rows(l).len() + 2 == s.len(),
        s.subrange(i, i + spec_json_rows(l).len() as int) == spec_json_rows(l),
        s.subrange(i + spec_json_rows(l).len() as int, s.len() as int) == "\n]"@,
    ensures
        spec_parse_json_rows(s, i) == Some((l, s.len() as int)),
    decreases l.len(),
{
    reveal_strlit(",\n");
    reveal_strlit("\n]");
    assert(",\n"@.len() == 2 && "\n]"@.len() == 2);
    assert(',' as u32 == 44 && '\n' as u32 == 10);
    lemma_json_rows_first(l);
    let t = spec_json_rows(l);
    lemma_json_record_len(l[0]);
    if l.len() == 1 {
        assert(t =~= spec_json_record(l[0]));
        lemma_json_record_round_trip(l[0], s, i);
        let e = i + t.len() as int;
        assert(spec_expect_lit(s, e, ",\n"@) is None) by {
            if e + 2 <= s.len() && s.subrange(e, e + 2) == ",\n"@ {
                assert(s.subrange(e, e + 2)[0] == s[e + 0]);
                assert(s.subrange(e, s.len() as int)[0] == s[e + 0]);
            }
        }
        assert(spec_expect_lit(s, e, "\n]"@) == Some(e + 2)) by {
            assert(s.subrange(e, s.len() as int) =~= s.subrange(e, e + 2));
        }
        assert(seq![l[0]] =~= l);
    } else {
        let rest = l.drop_first();
        let a = spec_json_record(l[0]);
        let m = ",\n"@ + spec_json_rows(rest);
        assert(t == a + m);
        assert(s.subrange(i, i + a.len() + m.len()) == a + m);
        lemma_split_chunk(s, i, a, m);
        lemma_json_record_round_trip(l[0], s, i);
        let e = i + a.len() as int;
        lemma_split_chunk(s, e, ",\n"@, spec_json_rows(rest));
        assert(spec_expect_lit(s, e, ",\n"@) == Some(e + 2));
        assert(s.subrange(e + 2, e + 2 + spec_json_rows(rest).len() as int) == spec_json_rows(
            rest,
        ));
        assert(e + 2 + spec_json_rows(rest).len() as int == i + t.len() as int);
        assert(s.subrange(e + 2 + spec_json_rows(rest).len() as int, s.len() as int) == "\n]"@);
        assert(forall|x: int|
            0 <= x < rest.len() ==> record_wf_json(#[trigger] rest[x]) && rest[x] == l[x + 1]);
        lemma_json_rows_round_trip(rest, s, e + 2);
        assert(seq![l[0]] + rest =~= l);
    }
}

/// A JSON result list written from records with machine-sized counters
/// parses back to exactly those records: the JSON side of the checkpoint
/// loses nothing at all, the keyframe flag included.
pub proof fn lemma_json_file_round_trip(l: Seq<RecordV>)
    requires
        forall|x: int| 0 <= x < l.len() ==> record_wf_json(#[trigger] l[x]),
    ensures
        spec_parse_json_file(spec_json_file(l)) == Some(l),
{
    reveal_strlit("[]");
    reveal_strlit("[\n");
    reveal_strlit("\n]");
    let s = spec_json_file(l);
    if l.len() == 0 {
        assert(s == "[]"@);
    } else {
        assert("[\n"@.len() == 2 && "\n]"@.len() == 2 && "[]"@.len() == 2);
        assert('[' as u32 == 91 && ']' as u32 == 93 && '\n' as u32 == 10);
        assert(s == "[\n"@ + (spec_json_rows(l) + "\n]"@));
        assert(s != "[]"@) by {
            if s == "[]"@ {
                assert(s.len() == 2);
                lemma_json_rows_first(l);
                lemma_json_record_len(l[0]);
            }
        }
        assert(s.subrange(0, 2 + (spec_json_rows(l) + "\n]"@).len() as int) =~= s);
        lemma_split_chunk(s, 0, "[\n"@, spec_json_rows(l) + "\n]"@);
        assert(spec_expect_lit(s, 0, "[\n"@) == Some(2int));
        lemma_split_chunk(s, 2, spec_json_rows(l), "\n]"@);
        lemma_json_rows_round_trip(l, s, 2);
    }
}

} // verus!
