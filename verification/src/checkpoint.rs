//! Resuming from a prior result file: records seed the accumulator, and
//! files whose frames are all present leave the pending work set.

use crate::export::{lemma_csv_file_round_trip, lemma_json_file_round_trip, record_view,
    record_wf, record_wf_json, records_view, spec_csv_file, spec_json_file, spec_parse_csv_file,
    spec_parse_json_file, ExportFrame};
use crate::text::{spec_extension, str_eq, extension_of};
use crate::utils::{same_item, FileItem};
use vstd::prelude::*;

verus! {

/// The result formats a checkpoint can be read from.
#[derive(Clone, Copy, Debug, PartialEq, Eq, Structural)]
pub enum ExportFormat {
    Json,
    Csv,
}

/// The format a checkpoint path names: `.json` or `.csv`, anything else
/// being an invalid checkpoint.
pub open spec fn spec_checkpoint_kind(path: Seq<char>) -> Option<ExportFormat> {
    match spec_extension(path) {
        Some(e) => if e == "json"@ {
            Some(ExportFormat::Json)
        } else if e == "csv"@ {
            Some(ExportFormat::Csv)
        } else {
            None
        },
        None => None,
    }
}

/// Which format a checkpoint path names, if a readable one.
pub fn checkpoint_kind(path: &str) -> (r: Option<ExportFormat>)
    ensures
        r == spec_checkpoint_kind(path@),
{
    match extension_of(path) {
        Some(e) => {
            if str_eq(e.as_str(), "json") {
                Some(ExportFormat::Json)
            } else if str_eq(e.as_str(), "csv") {
                Some(ExportFormat::Csv)
            } else {
                None
            }
        },
        None => None,
    }
}

/// How many checkpoint records belong to file `f`.
pub open spec fn spec_count_records(frames: Seq<ExportFrame>, f: FileItem) -> nat
    decreases frames.len(),
{
    if frames.len() == 0 {
        0
    } else {
        spec_count_records(frames.drop_last(), f) + (if same_item(frames.last().file, f) {
            1nat
        } else {
            0nat
        })
    }
}

/// The frame total declared by the first record of file `f`.
pub open spec fn spec_first_total(frames: Seq<ExportFrame>, f: FileItem) -> Option<int>
    decreases frames.len(),
{
    if frames.len() == 0 {
        None
    } else if same_item(frames[0].file, f) {
        Some(frames[0].total_frames as int)
    } else {
        spec_first_total(frames.drop_first(), f)
    }
}

/// A file is complete in a checkpoint when the total its first record
/// declares is positive and at least that many of its records exist.
pub open spec fn spec_completed(frames: Seq<ExportFrame>, f: FileItem) -> bool {
    match spec_first_total(frames, f) {
        Some(t) => t >= 1 && spec_count_records(frames, f) >= t,
        None => false,
    }
}

/// The pending files that remain once complete files are dropped.
pub open spec fn spec_remaining(frames: Seq<ExportFrame>, pending: Seq<FileItem>) -> Seq<FileItem>
    decreases pending.len(),
{
    if pending.len() == 0 {
        Seq::empty()
    } else {
        spec_remaining(frames, pending.drop_last()) + (if spec_completed(
            frames,
            pending.last(),
        ) {
            Seq::empty()
        } else {
            seq![pending.last()]
        })
    }
}

/// When every pending file is complete in the checkpoint, nothing
/// remains: resuming against the run's own final output leaves no work.
pub proof fn lemma_remaining_empty(frames: Seq<ExportFrame>, pending: Seq<FileItem>)
    requires
        forall|j: int| 0 <= j < pending.len() ==> spec_completed(frames, #[trigger] pending[j]),
    ensures
        spec_remaining(frames, pending).len() == 0,
    decreases pending.len(),
{
    if pending.len() > 0 {
        assert(forall|j: int|
            0 <= j < pending.len() - 1 ==> pending.drop_last()[j] == #[trigger] pending[j]);
        lemma_remaining_empty(frames, pending.drop_last());
        assert(spec_completed(frames, pending.last()));
    }
}

fn count_records(frames: &Vec<ExportFrame>, f: &FileItem) -> (r: usize)
    ensures
        r as nat == spec_count_records(frames@, *f),
{
    let mut n: usize = 0;
    let mut i: usize = 0;
    while i < frames.len()
        invariant
            i <= frames@.len(),
            n as nat == spec_count_records(frames@.take(i as int), *f),
            n <= i,
        decreases frames@.len() - i,
    {
        proof {
            assert(frames@.take(i as int + 1).drop_last() =~= frames@.take(i as int));
            assert(frames@.take(i as int + 1).last() == frames@[i as int]);
        }
        if frames[i].file == *f {
            n = n + 1;
        }
        i = i + 1;
    }
    proof {
        assert(frames@.take(frames@.len() as int) =~= frames@);
    }
    n
}

fn first_total(frames: &Vec<ExportFrame>, f: &FileItem) -> (r: Option<usize>)
    ensures
        (match (r, spec_first_total(frames@, *f)) {
            (Some(t), Some(st)) => t as int == st,
            (None, None) => true,
            _ => false,
        }),
{
    let mut i: usize = 0;
    proof {
        assert(frames@.skip(0) =~= frames@);
    }
    while i < frames.len()
        invariant
            i <= frames@.len(),
            spec_first_total(frames@, *f) == spec_first_total(frames@.skip(i as int), *f),
            forall|j: int| 0 <= j < i ==> !same_item((#[trigger] frames@[j]).file, *f),
        decreases frames@.len() - i,
    {
        proof {
            assert(frames@.skip(i as int)[0] == frames@[i as int]);
            assert(frames@.skip(i as int).drop_first() =~= frames@.skip(i as int + 1));
        }
        if frames[i].file == *f {
            return Some(frames[i].total_frames);
        }
        i = i + 1;
    }
    proof {
        assert(frames@.skip(frames@.len() as int) =~= Seq::<ExportFrame>::empty());
    }
    None
}

/// Whether the checkpoint holds all declared frames of file `f`.
pub fn is_completed(frames: &Vec<ExportFrame>, f: &FileItem) -> (r: bool)
    ensures
        r == spec_completed(frames@, *f),
{
    match first_total(frames, f) {
        Some(t) => t >= 1 && count_records(frames, f) >= t,
        None => false,
    }
}

/// Drop from the pending work set every file whose frames are already all
/// in the checkpoint; keep the rest, in order.
pub fn filter_completed(frames: &Vec<ExportFrame>, pending: Vec<FileItem>) -> (r: Vec<FileItem>)
    ensures
        r@ == spec_remaining(frames@, pending@),
{
    let ghost orig = pending@;
    let mut pending = pending;
    let mut out: Vec<FileItem> = Vec::new();
    let mut i: usize = 0;
    let n = pending.len();
    proof {
        assert(orig.skip(0) =~= orig);
        assert(orig.len() == n);
    }
    while pending.len() > 0
        invariant
            i + pending@.len() == orig.len(),
            orig.len() <= usize::MAX,
            pending@ == orig.skip(i as int),
            out@ == spec_remaining(frames@, orig.take(i as int)),
        decreases pending@.len(),
    {
        proof {
            assert(orig.take(i as int + 1).drop_last() =~= orig.take(i as int));
            assert(orig.take(i as int + 1).last() == orig[i as int]);
            assert(pending@[0] == orig[i as int]);
        }
        let f = pending.remove(0);
        if !is_completed(frames, &f) {
            out.push(f);
            proof {
                assert(out@ =~= spec_remaining(frames@, orig.take(i as int + 1)));
            }
        } else {
            proof {
                assert(out@ =~= spec_remaining(frames@, orig.take(i as int + 1)));
            }
        }
        proof {
            assert(orig.skip(i as int).drop_first() =~= orig.skip(i as int + 1));
        }
        i = i + 1;
    }
    proof {
        assert(orig.take(orig.len() as int) =~= orig);
    }
    out
}

/// Whether a file is complete depends only on the records' serialized
/// faces: two record lists with the same views (and working paths equal
/// to source paths, as parsed checkpoints have) complete the same files.
pub proof fn lemma_completed_same_views(a: Seq<ExportFrame>, b: Seq<ExportFrame>, f: FileItem)
    requires
        records_view(a) == records_view(b),
        forall|i: int|
            0 <= i < a.len() ==> (#[trigger] a[i]).file.tmp_path@ == a[i].file.file_path@,
        forall|i: int|
            0 <= i < b.len() ==> (#[trigger] b[i]).file.tmp_path@ == b[i].file.file_path@,
    ensures
        spec_completed(a, f) == spec_completed(b, f),
{
    lemma_count_same_views(a, b, f);
    lemma_first_total_same_views(a, b, f);
}

proof fn lemma_match_same_views(a: Seq<ExportFrame>, b: Seq<ExportFrame>, f: FileItem, i: int)
    requires
        records_view(a) == records_view(b),
        0 <= i < a.len(),
        a[i].file.tmp_path@ == a[i].file.file_path@,
        b[i].file.tmp_path@ == b[i].file.file_path@,
    ensures
        a.len() == b.len(),
        same_item(a[i].file, f) == same_item(b[i].file, f),
        a[i].total_frames == b[i].total_frames,
{
    assert(records_view(a).len() == a.len());
    assert(records_view(b).len() == b.len());
    assert(records_view(a).len() == records_view(b).len());
    assert(records_view(a)[i] == record_view(a[i]));
    assert(records_view(b)[i] == record_view(b[i]));
    assert(record_view(a[i]) == record_view(b[i]));
    assert(a[i].file.folder_id == b[i].file.folder_id) by {
        assert(record_view(a[i]).folder_id == record_view(b[i]).folder_id);
    }
    assert(a[i].file.file_id == b[i].file.file_id) by {
        assert(record_view(a[i]).file_id == record_view(b[i]).file_id);
    }
    assert(a[i].file.file_path@ == b[i].file.file_path@) by {
        assert(record_view(a[i]).file_path == record_view(b[i]).file_path);
    }
    assert(a[i].total_frames == b[i].total_frames) by {
        assert(record_view(a[i]).total_frames == record_view(b[i]).total_frames);
    }
}

proof fn lemma_count_same_views(a: Seq<ExportFrame>, b: Seq<ExportFrame>, f: FileItem)
    requires
        records_view(a) == records_view(b),
        forall|i: int|
            0 <= i < a.len() ==> (#[trigger] a[i]).file.tmp_path@ == a[i].file.file_path@,
        forall|i: int|
            0 <= i < b.len() ==> (#[trigger] b[i]).file.tmp_path@ == b[i].file.file_path@,
    ensures
        spec_count_records(a, f) == spec_count_records(b, f),
    decreases a.len(),
{
    assert(records_view(a).len() == a.len());
    assert(records_view(b).len() == b.len());
    if a.len() > 0 {
        let i = a.len() - 1;
        lemma_match_same_views(a, b, f, i);
        let da = a.drop_last();
        let db = b.drop_last();
        assert(records_view(da).len() == da.len());
        assert(records_view(db).len() == db.len());
        assert(records_view(da) =~= records_view(db)) by {
            assert forall|k: int|
                0 <= k < a.len() - 1 implies records_view(da)[k] == records_view(db)[k] by {
                assert(da[k] == a[k] && db[k] == b[k]);
                assert(records_view(da)[k] == record_view(da[k]));
                assert(records_view(db)[k] == record_view(db[k]));
                assert(records_view(a)[k] == record_view(a[k]));
                assert(records_view(b)[k] == record_view(b[k]));
                assert(records_view(a)[k] == records_view(b)[k]);
            }
        }
        assert(forall|k: int| 0 <= k < a.len() - 1 ==> (#[trigger] da[k]) == a[k]);
        assert(forall|k: int| 0 <= k < b.len() - 1 ==> (#[trigger] db[k]) == b[k]);
        lemma_count_same_views(da, db, f);
        assert(same_item(a.last().file, f) == same_item(b.last().file, f)) by {
            assert(a.last() == a[i] && b.last() == b[i]);
        }
    }
}

proof fn lemma_first_total_same_views(a: Seq<ExportFrame>, b: Seq<ExportFrame>, f: FileItem)
    requires
        records_view(a) == records_view(b),
        forall|i: int|
            0 <= i < a.len() ==> (#[trigger] a[i]).file.tmp_path@ == a[i].file.file_path@,
        forall|i: int|
            0 <= i < b.len() ==> (#[trigger] b[i]).file.tmp_path@ == b[i].file.file_path@,
    ensures
        spec_first_total(a, f) == spec_first_total(b, f),
    decreases a.len(),
{
    assert(records_view(a).len() == a.len());
    assert(records_view(b).len() == b.len());
    if a.len() > 0 {
        lemma_match_same_views(a, b, f, 0);
        if !same_item(a[0].file, f) {
            let da = a.drop_first();
            let db = b.drop_first();
            assert(records_view(da).len() == da.len());
            assert(records_view(db).len() == db.len());
            assert(records_view(da) =~= records_view(db)) by {
                assert forall|k: int|
                    0 <= k < a.len() - 1 implies records_view(da)[k] == records_view(db)[k] by {
                    assert(da[k] == a[k + 1] && db[k] == b[k + 1]);
                    assert(records_view(da)[k] == record_view(da[k]));
                    assert(records_view(db)[k] == record_view(db[k]));
                    assert(records_view(a)[k + 1] == record_view(a[k + 1]));
                    assert(records_view(b)[k + 1] == record_view(b[k + 1]));
                    assert(records_view(a)[k + 1] == records_view(b)[k + 1]);
                }
            }
            assert(forall|k: int| 0 <= k < a.len() - 1 ==> (#[trigger] da[k]) == a[k + 1]);
            assert(forall|k: int| 0 <= k < b.len() - 1 ==> (#[trigger] db[k]) == b[k + 1]);
            lemma_first_total_same_views(da, db, f);
        }
    }
}

/// Checkpoint round trip: a result file written from well-formed records
/// parses back to records with the same serialized face — in either
/// format — and resuming a work set whose every file those records
/// complete leaves no pending work.
pub proof fn lemma_checkpoint_round_trip(records: Seq<ExportFrame>, pending: Seq<FileItem>)
    requires
        forall|x: int| 0 <= x < records.len() ==> record_wf(records_view(records)[x]),
        forall|j: int| 0 <= j < pending.len() ==> spec_completed(records, #[trigger] pending[j]),
    ensures
        spec_parse_csv_file(spec_csv_file(records_view(records))) == Some(records_view(records)),
        spec_parse_json_file(spec_json_file(records_view(records))) == Some(
            records_view(records),
        ),
        spec_remaining(records, pending).len() == 0,
{
    lemma_csv_file_round_trip(records_view(records));
    assert(forall|x: int|
        0 <= x < records_view(records).len() ==> record_wf_json(
            #[trigger] records_view(records)[x],
        ));
    lemma_json_file_round_trip(records_view(records));
    lemma_remaining_empty(records, pending);
}

} // verus!
