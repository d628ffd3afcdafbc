//! The indexer: a deterministic walk over a directory tree that skips
//! previously sorted outputs, hidden entries and prior result files, and
//! numbers what remains.  The host walks the filesystem into a
//! [`TreeNode`]; the selection and numbering happen here.

use crate::text::{
    extension_of, matches_ci, spec_extension, spec_last_component, str_eq, str_matches_ci,
};
use crate::utils::FileItem;
use vstd::prelude::*;

verus! {

/// Entry names the walk never descends into or emits: class-label
/// directories from an earlier sorting run, hidden entries, and prior
/// result files.
pub open spec fn spec_is_skip(name: Seq<char>) -> bool {
    ||| name == "Animal"@
    ||| name == "Person"@
    ||| name == "Vehicle"@
    ||| name == "Blank"@
    ||| name == "result.csv"@
    ||| name == "result.json"@
    ||| (name.len() > 0 && name[0] == '.')
}

/// Whether the walk skips an entry of this name.
pub fn is_skip(name: &str) -> (r: bool)
    ensures
        r == spec_is_skip(name@),
{
    if str_eq(name, "Animal") || str_eq(name, "Person") || str_eq(name, "Vehicle") || str_eq(
        name,
        "Blank",
    ) || str_eq(name, "result.csv") || str_eq(name, "result.json") {
        return true;
    }
    if name.unicode_len() > 0 && name.get_char(0) == '.' {
        return true;
    }
    false
}

/// Extensions decoded as still images.
pub open spec fn spec_is_photo_ext(e: Seq<char>) -> bool {
    matches_ci(e, "jpg"@) || matches_ci(e, "jpeg"@) || matches_ci(e, "png"@)
}

/// Extensions decoded as videos.
pub open spec fn spec_is_video_ext(e: Seq<char>) -> bool {
    matches_ci(e, "mp4"@) || matches_ci(e, "avi"@) || matches_ci(e, "mkv"@) || matches_ci(
        e,
        "mov"@,
    )
}

/// Whether a path names a photo or a video the pipeline accepts.
pub open spec fn spec_is_media(path: Seq<char>) -> bool {
    match spec_extension(path) {
        Some(e) => spec_is_photo_ext(e) || spec_is_video_ext(e),
        None => false,
    }
}

/// Whether a path names a photo or a video, by its extension,
/// case-insensitively.
pub fn is_video_photo(path: &str) -> (r: bool)
    ensures
        r == spec_is_media(path@),
{
    match extension_of(path) {
        Some(e) => {
            let s = e.as_str();
            str_matches_ci(s, "jpg") || str_matches_ci(s, "jpeg") || str_matches_ci(s, "png")
                || str_matches_ci(s, "mp4") || str_matches_ci(s, "avi") || str_matches_ci(
                s,
                "mkv",
            ) || str_matches_ci(s, "mov")
        },
        None => false,
    }
}

/// One entry of the walked directory tree.  `name` is the entry's final
/// path component; `children` is empty for plain files and ordered the
/// way the walk should visit them (the host sorts by file name).
pub struct TreeNode {
    pub name: String,
    pub path: String,
    pub is_dir: bool,
    pub children: Vec<TreeNode>,
}

/// A tree whose names really are the final components of its paths.
pub open spec fn wf_tree(t: TreeNode) -> bool
    decreases t,
{
    &&& t.name@ == spec_last_component(t.path@)
    &&& forall|i: int| 0 <= i < t.children@.len() ==> wf_tree(#[trigger] t.children@[i])
}

/// The identity an emitted file gets.
pub ghost struct ItemV {
    pub folder_id: int,
    pub file_id: int,
    pub path: Seq<char>,
}

/// Walk one node: a skipped entry contributes nothing; a directory bumps
/// the folder counter and walks its children in order; an accepted media
/// file is emitted and bumps the file counter.
pub open spec fn spec_walk(t: TreeNode, folder: int, file: int) -> (Seq<ItemV>, int, int)
    decreases t, 0int,
{
    if spec_is_skip(t.name@) {
        (Seq::empty(), folder, file)
    } else if t.is_dir {
        spec_walk_children(t.children@, 0, folder + 1, file)
    } else if spec_is_media(t.path@) {
        (seq![ItemV { folder_id: folder, file_id: file, path: t.path@ }], folder, file + 1)
    } else {
        (Seq::empty(), folder, file)
    }
}

/// Walk the children from position `i` on, threading the counters.
pub open spec fn spec_walk_children(cs: Seq<TreeNode>, i: int, folder: int, file: int) -> (
    Seq<ItemV>,
    int,
    int,
)
    decreases cs, 1int, cs.len() - i,
{
    if i < 0 || i >= cs.len() {
        (Seq::empty(), folder, file)
    } else {
        let head = spec_walk(cs[i], folder, file);
        let rest = spec_walk_children(cs, i + 1, head.1, head.2);
        (head.0 + rest.0, rest.1, rest.2)
    }
}

/// A skipped entry contributes nothing to the walk: no items, no counter
/// movement.  Directories named after class labels, hidden entries and
/// prior result files are therefore absent from the output.
pub proof fn lemma_skip_contributes_nothing(t: TreeNode, folder: int, file: int)
    requires
        spec_is_skip(t.name@),
    ensures
        spec_walk(t, folder, file) == (Seq::<ItemV>::empty(), folder, file),
{
}

/// Every item the walk emits names a media file whose final path
/// component is not skipped: dotfiles and prior result files never show
/// up in the output.
pub proof fn lemma_walk_emits_only_media(t: TreeNode, folder: int, file: int)
    requires
        wf_tree(t),
    ensures
        forall|k: int|
            0 <= k < spec_walk(t, folder, file).0.len() ==> {
                let item = #[trigger] spec_walk(t, folder, file).0[k];
                &&& spec_is_media(item.path)
                &&& !spec_is_skip(spec_last_component(item.path))
            },
    decreases t, 0int,
{
    if spec_is_skip(t.name@) {
    } else if t.is_dir {
        lemma_walk_children_emit_only_media(t.children@, 0, folder + 1, file);
        let w = spec_walk(t, folder, file);
        let cw = spec_walk_children(t.children@, 0, folder + 1, file);
        assert forall|k: int| 0 <= k < w.0.len() implies {
            let item = #[trigger] w.0[k];
            &&& spec_is_media(item.path)
            &&& !spec_is_skip(spec_last_component(item.path))
        } by {
            assert(w.0[k] == cw.0[k]);
        }
    } else if spec_is_media(t.path@) {
        let w = spec_walk(t, folder, file);
        assert(w.0 == seq![ItemV { folder_id: folder, file_id: file, path: t.path@ }]);
        assert(w.0[0].path == t.path@);
        assert(spec_last_component(t.path@) == t.name@);
    } else {
    }
}

proof fn lemma_walk_children_emit_only_media(cs: Seq<TreeNode>, i: int, folder: int, file: int)
    requires
        forall|x: int| 0 <= x < cs.len() ==> wf_tree(#[trigger] cs[x]),
    ensures
        forall|k: int|
            0 <= k < spec_walk_children(cs, i, folder, file).0.len() ==> {
                let item = #[trigger] spec_walk_children(cs, i, folder, file).0[k];
                &&& spec_is_media(item.path)
                &&& !spec_is_skip(spec_last_component(item.path))
            },
    decreases cs, 1int, cs.len() - i,
{
    if 0 <= i < cs.len() {
        let head = spec_walk(cs[i], folder, file);
        lemma_walk_emits_only_media(cs[i], folder, file);
        lemma_walk_children_emit_only_media(cs, i + 1, head.1, head.2);
        let rest = spec_walk_children(cs, i + 1, head.1, head.2);
        assert forall|k: int|
            0 <= k < spec_walk_children(cs, i, folder, file).0.len() implies {
            let item = #[trigger] spec_walk_children(cs, i, folder, file).0[k];
            &&& spec_is_media(item.path)
            &&& !spec_is_skip(spec_last_component(item.path))
        } by {
            if k < head.0.len() {
                assert(spec_walk_children(cs, i, folder, file).0[k] == head.0[k]);
            } else {
                assert(spec_walk_children(cs, i, folder, file).0[k] == rest.0[k - head.0.len()]);
            }
        }
    }
}

/// File ids are handed out in emission order: item `k` of a walk that
/// started at `file` carries id `file + k`, and the final counter sits
/// just past the last id.  Ids are therefore unique across one run.
pub proof fn lemma_walk_ids(t: TreeNode, folder: int, file: int)
    ensures
        ({
            let w = spec_walk(t, folder, file);
            &&& w.2 == file + w.0.len()
            &&& forall|k: int| 0 <= k < w.0.len() ==> (#[trigger] w.0[k].file_id) == file + k
        }),
    decreases t, 0int,
{
    if !spec_is_skip(t.name@) && t.is_dir {
        lemma_walk_children_ids(t.children@, 0, folder + 1, file);
    }
}

proof fn lemma_walk_children_ids(cs: Seq<TreeNode>, i: int, folder: int, file: int)
    ensures
        ({
            let w = spec_walk_children(cs, i, folder, file);
            &&& w.2 == file + w.0.len()
            &&& forall|k: int| 0 <= k < w.0.len() ==> (#[trigger] w.0[k].file_id) == file + k
        }),
    decreases cs, 1int, cs.len() - i,
{
    if 0 <= i < cs.len() {
        let head = spec_walk(cs[i], folder, file);
        lemma_walk_ids(cs[i], folder, file);
        lemma_walk_children_ids(cs, i + 1, head.1, head.2);
        let rest = spec_walk_children(cs, i + 1, head.1, head.2);
        assert forall|k: int|
            0 <= k < spec_walk_children(cs, i, folder, file).0.len() implies (
        #[trigger] spec_walk_children(cs, i, folder, file).0[k].file_id) == file + k by {
            if k < head.0.len() {
                assert(spec_walk_children(cs, i, folder, file).0[k] == head.0[k]);
            } else {
                assert(spec_walk_children(cs, i, folder, file).0[k] == rest.0[k - head.0.len()]);
            }
        }
    }
}

/// The counters never move backwards.
proof fn lemma_walk_monotone(t: TreeNode, folder: int, file: int)
    ensures
        spec_walk(t, folder, file).1 >= folder,
        spec_walk(t, folder, file).2 >= file,
    decreases t, 0int,
{
    if !spec_is_skip(t.name@) && t.is_dir {
        lemma_walk_children_monotone(t.children@, 0, folder + 1, file);
    }
}

proof fn lemma_walk_children_monotone(cs: Seq<TreeNode>, i: int, folder: int, file: int)
    ensures
        spec_walk_children(cs, i, folder, file).1 >= folder,
        spec_walk_children(cs, i, folder, file).2 >= file,
    decreases cs, 1int, cs.len() - i,
{
    if 0 <= i < cs.len() {
        lemma_walk_monotone(cs[i], folder, file);
        let head = spec_walk(cs[i], folder, file);
        lemma_walk_children_monotone(cs, i + 1, head.1, head.2);
    }
}

/// The identity view of emitted file items.
pub open spec fn items_view(v: Seq<FileItem>) -> Seq<ItemV> {
    Seq::new(
        v.len(),
        |k: int|
            ItemV {
                folder_id: v[k].folder_id as int,
                file_id: v[k].file_id as int,
                path: v[k].file_path@,
            },
    )
}

fn walk_node(t: &TreeNode, folder: usize, file: usize) -> (r: Option<
    (Vec<FileItem>, usize, usize),
>)
    ensures
        (match r {
            Some((items, f2, fi2)) => {
                let w = spec_walk(*t, folder as int, file as int);
                &&& items_view(items@) == w.0
                &&& f2 as int == w.1
                &&& fi2 as int == w.2
                &&& forall|k: int|
                    0 <= k < items@.len() ==> (#[trigger] items@[k].tmp_path)@
                        == items@[k].file_path@
            },
            None => spec_walk(*t, folder as int, file as int).1 > usize::MAX || spec_walk(
                *t,
                folder as int,
                file as int,
            ).2 > usize::MAX,
        }),
    decreases *t,
{
    let name = t.name.as_str();
    if is_skip(name) {
        proof {
            assert(items_view(Seq::<FileItem>::empty()) =~= Seq::<ItemV>::empty());
        }
        return Some((Vec::new(), folder, file));
    }
    if t.is_dir {
        if folder == usize::MAX {
            proof {
                lemma_walk_children_monotone(t.children@, 0, folder as int + 1, file as int);
            }
            return None;
        }
        let mut cur_folder = folder + 1;
        let mut cur_file = file;
        let mut items: Vec<FileItem> = Vec::new();
        let mut i: usize = 0;
        proof {
            assert(items_view(items@) =~= Seq::<ItemV>::empty());
        }
        while i < t.children.len()
            invariant
                i <= t.children@.len(),
                !spec_is_skip(t.name@),
                t.is_dir,
                forall|k: int|
                    0 <= k < items@.len() ==> (#[trigger] items@[k].tmp_path)@
                        == items@[k].file_path@,
                ({
                    let full = spec_walk_children(t.children@, 0, folder as int + 1, file as int);
                    let rem = spec_walk_children(
                        t.children@,
                        i as int,
                        cur_folder as int,
                        cur_file as int,
                    );
                    &&& full.0 == items_view(items@) + rem.0
                    &&& full.1 == rem.1
                    &&& full.2 == rem.2
                }),
            decreases t.children@.len() - i,
        {
            let child = &t.children[i];
            proof {
                assert(*child == t.children@[i as int]);
            }
            match walk_node(child, cur_folder, cur_file) {
                Some((mut got, f2, fi2)) => {
                    let ghost pre = items@;
                    let ghost gv = got@;
                    items.append(&mut got);
                    proof {
                        assert(items_view(items@) =~= items_view(pre) + items_view(gv));
                    }
                    cur_folder = f2;
                    cur_file = fi2;
                },
                None => {
                    proof {
                        let head = spec_walk(
                            t.children@[i as int],
                            cur_folder as int,
                            cur_file as int,
                        );
                        lemma_walk_children_monotone(t.children@, i as int + 1, head.1, head.2);
                        let full = spec_walk_children(
                            t.children@,
                            0,
                            folder as int + 1,
                            file as int,
                        );
                        let rem = spec_walk_children(
                            t.children@,
                            i as int,
                            cur_folder as int,
                            cur_file as int,
                        );
                        let rest = spec_walk_children(t.children@, i as int + 1, head.1, head.2);
                        assert(rem.1 == rest.1 && rem.2 == rest.2);
                        assert(full.1 > usize::MAX || full.2 > usize::MAX);
                        assert(spec_walk(*t, folder as int, file as int).1 == full.1);
                        assert(spec_walk(*t, folder as int, file as int).2 == full.2);
                    }
                    return None;
                },
            }
            i = i + 1;
        }
        proof {
            assert(spec_walk_children(
                t.children@,
                t.children@.len() as int,
                cur_folder as int,
                cur_file as int,
            ) == (Seq::<ItemV>::empty(), cur_folder as int, cur_file as int));
            assert(items_view(items@) + Seq::<ItemV>::empty() =~= items_view(items@));
        }
        return Some((items, cur_folder, cur_file));
    }
    if is_video_photo(t.path.as_str()) {
        if file == usize::MAX {
            proof {
                assert(spec_walk(*t, folder as int, file as int).2 == file as int + 1);
            }
            return None;
        }
        let item = FileItem {
            folder_id: folder,
            file_id: file,
            file_path: t.path.clone(),
            tmp_path: t.path.clone(),
        };
        let mut items: Vec<FileItem> = Vec::new();
        items.push(item);
        proof {
            assert(items_view(items@) =~= spec_walk(*t, folder as int, file as int).0);
        }
        Some((items, folder, file + 1))
    } else {
        proof {
            assert(items_view(Seq::<FileItem>::empty()) =~= Seq::<ItemV>::empty());
        }
        Some((Vec::new(), folder, file))
    }
}

/// Walk a directory tree: number every directory in visit order, skip
/// what [`is_skip`] names, and emit one [`FileItem`] per accepted media
/// file, with globally unique, monotone file ids.  Fails only when a
/// counter would not fit the machine.
pub fn index_files_and_folders(root: &TreeNode) -> (r: Option<Vec<FileItem>>)
    ensures
        (match r {
            Some(items) => {
                &&& items_view(items@) == spec_walk(*root, 0, 0).0
                &&& forall|k: int|
                    0 <= k < items@.len() ==> (#[trigger] items@[k].tmp_path)@
                        == items@[k].file_path@
            },
            None => spec_walk(*root, 0, 0).1 > usize::MAX || spec_walk(*root, 0, 0).2 > usize::MAX,
        }),
{
    match walk_node(root, 0, 0) {
        Some((items, _folder, _file)) => Some(items),
        None => None,
    }
}

} // verus!
