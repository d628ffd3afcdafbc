//! Staging: every input file gets a unique scratch name before its copy,
//! and downstream work runs on the copy.

use crate::text::join_path;
use crate::utils::FileItem;
use vstd::prelude::*;

verus! {

/// Relies on `uuid::Uuid::new_v4` and its hyphenated display: a fresh
/// random identifier, 36 characters long.  Nothing else is assumed of it;
/// in particular two calls may or may not differ.
#[verifier::external_body]
fn fresh_uuid() -> (r: String)
    ensures
        r@.len() == 36,
{
    uuid::Uuid::new_v4().to_string()
}

/// A scratch file name for a staged copy: a fresh identifier, a dot, and
/// the source file's extension.
pub fn staged_name(ext: &str) -> (r: String)
    ensures
        r@.len() == 37 + ext@.len(),
        r@.subrange(36, r@.len() as int) == seq!['.'] + ext@,
{
    proof {
        reveal_strlit(".");
    }
    let mut out = fresh_uuid();
    out.append(".");
    out.append(ext);
    proof {
        assert("."@ =~= seq!['.']);
        assert(out@.subrange(36, out@.len() as int) =~= seq!['.'] + ext@);
    }
    out
}

/// The file item a staged copy works under: same identity and source
/// path, working path moved into the scratch directory.
pub fn staged_item(file: &FileItem, buffer_dir: &str, staged: &str) -> (r: FileItem)
    ensures
        r.folder_id == file.folder_id,
        r.file_id == file.file_id,
        r.file_path@ == file.file_path@,
        r.tmp_path@ == buffer_dir@ + (seq!['/'] + staged@),
{
    FileItem {
        folder_id: file.folder_id,
        file_id: file.file_id,
        file_path: file.file_path.clone(),
        tmp_path: join_path(buffer_dir, staged),
    }
}

/// How often a stubborn scratch file is deleted again before giving up,
/// and the pause between tries.
pub fn removal_retry_policy() -> (r: (u32, u64))
    ensures
        r.0 == 3,
        r.1 == 1000,
{
    (3, 1000)
}

} // verus!
