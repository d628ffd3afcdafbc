//! Shared data model: file identities, accelerator tags, the model
//! configuration, and even sampling of a list.

use std::collections::HashMap;
use vstd::prelude::*;

verus! {

broadcast use vstd::std_specs::hash::group_hash_axioms;

/// One media file found by the indexer.  `folder_id` counts directories in
/// walk order, `file_id` counts accepted files; `tmp_path` equals
/// `file_path` unless staging copied the file to a scratch directory.
#[derive(Clone, Debug)]
pub struct FileItem {
    pub folder_id: usize,
    pub file_id: usize,
    pub file_path: String,
    pub tmp_path: String,
}

/// Equality of two file items, stated over the views of their paths.
pub open spec fn same_item(a: FileItem, b: FileItem) -> bool {
    &&& a.folder_id == b.folder_id
    &&& a.file_id == b.file_id
    &&& a.file_path@ == b.file_path@
    &&& a.tmp_path@ == b.tmp_path@
}

impl PartialEq for FileItem {
    fn eq(&self, other: &FileItem) -> (r: bool) {
        self.folder_id == other.folder_id && self.file_id == other.file_id && self.file_path
            == other.file_path && self.tmp_path == other.tmp_path
    }
}

impl vstd::std_specs::cmp::PartialEqSpecImpl for FileItem {
    open spec fn obeys_eq_spec() -> bool {
        true
    }

    open spec fn eq_spec(&self, other: &FileItem) -> bool {
        same_item(*self, *other)
    }
}

impl Eq for FileItem {}

impl FileItem {
    /// Build a file item; without an explicit working path the item works on
    /// its source path.
    pub fn new(folder_id: usize, file_id: usize, file_path: String, tmp_path: Option<String>) -> (r:
        FileItem)
        ensures
            r.folder_id == folder_id,
            r.file_id == file_id,
            r.file_path@ == file_path@,
            r.tmp_path@ == match tmp_path {
                Some(t) => t@,
                None => file_path@,
            },
    {
        match tmp_path {
            Some(t) => FileItem { folder_id, file_id, file_path, tmp_path: t },
            None => {
                let tmp = file_path.clone();
                FileItem { folder_id, file_id, file_path, tmp_path: tmp }
            },
        }
    }

    /// Copy of the item with the same ids and path views.
    pub fn duplicate(&self) -> (r: FileItem)
        ensures
            same_item(r, *self),
    {
        FileItem {
            folder_id: self.folder_id,
            file_id: self.file_id,
            file_path: self.file_path.clone(),
            tmp_path: self.tmp_path.clone(),
        }
    }
}

/// Accelerator backends a detect pool can bind to.
#[derive(Clone, Copy, Debug, PartialEq, Eq, Structural)]
pub enum Ep {
    CoreML,
    TensorRT,
    CUDA,
    OpenVINO,
    DirectML,
    Cpu,
}

/// An accelerator together with the device id string its runtime expects.
#[derive(Clone, Debug)]
pub struct EpInfo {
    pub ep: Ep,
    pub id: String,
}

/// Model configuration: class ids are positions in `classes`, which the
/// loader hands over in its defining (sorted-set) order.
#[derive(Clone, Debug)]
pub struct ModelConfig {
    pub name: String,
    pub path: String,
    pub imgsz: usize,
    pub classes: Vec<String>,
}

/// Equality of two model configurations, stated over views.
pub open spec fn same_model_config(a: ModelConfig, b: ModelConfig) -> bool {
    &&& a.name@ == b.name@
    &&& a.path@ == b.path@
    &&& a.imgsz == b.imgsz
    &&& a.classes@.len() == b.classes@.len()
    &&& forall|i: int| 0 <= i < a.classes@.len() ==> a.classes@[i]@ == b.classes@[i]@
}

impl PartialEq for ModelConfig {
    fn eq(&self, other: &ModelConfig) -> (r: bool) {
        if !(self.name == other.name && self.path == other.path && self.imgsz == other.imgsz) {
            return false;
        }
        if self.classes.len() != other.classes.len() {
            return false;
        }
        let mut i: usize = 0;
        while i < self.classes.len()
            invariant
                i <= self.classes@.len(),
                self.classes@.len() == other.classes@.len(),
                forall|j: int| 0 <= j < i ==> self.classes@[j]@ == other.classes@[j]@,
            decreases self.classes@.len() - i,
        {
            if !(self.classes[i] == other.classes[i]) {
                return false;
            }
            i = i + 1;
        }
        true
    }
}

impl vstd::std_specs::cmp::PartialEqSpecImpl for ModelConfig {
    open spec fn obeys_eq_spec() -> bool {
        true
    }

    open spec fn eq_spec(&self, other: &ModelConfig) -> bool {
        same_model_config(*self, *other)
    }
}

impl Eq for ModelConfig {}

impl ModelConfig {
    /// Class-id-to-name map: class `i` is named by `classes[i]`.
    pub fn class_map(&self) -> (r: HashMap<usize, String>)
        ensures
            forall|i: usize| i < self.classes@.len() ==> #[trigger] r@.contains_key(i),
            forall|i: usize|
                #![trigger r@.index(i)]
                i < self.classes@.len() ==> r@[i]@ == self.classes@[i as int]@,
            forall|i: usize| #[trigger] r@.contains_key(i) ==> i < self.classes@.len(),
    {
        let mut m: HashMap<usize, String> = HashMap::new();
        let mut i: usize = 0;
        while i < self.classes.len()
            invariant
                i <= self.classes@.len(),
                forall|j: usize| j < i ==> #[trigger] m@.contains_key(j),
                forall|j: usize|
                    #![trigger m@.index(j)]
                    j < i ==> m@[j]@ == self.classes@[j as int]@,
                forall|j: usize| #[trigger] m@.contains_key(j) ==> j < i,
            decreases self.classes@.len() - i,
        {
            let ghost pre = m@;
            let name = self.classes[i].clone();
            m.insert(i, name);
            proof {
                assert(m@ == pre.insert(i, name));
                assert forall|j: usize| j < i + 1 implies #[trigger] m@.contains_key(j) by {
                    if j < i {
                        assert(pre.contains_key(j));
                    }
                }
                assert forall|j: usize| #![trigger m@.index(j)] j < i + 1 implies m@[j]@
                    == self.classes@[j as int]@ by {
                    if j < i {
                        assert(m@[j] == pre[j]);
                    } else {
                        assert(m@[j] == name);
                    }
                }
            }
            i = i + 1;
        }
        m
    }
}

/// How many items an even sample of size `k` keeps from a list of length
/// `len`: `k` when the list is long enough, the whole list otherwise.
pub open spec fn sample_count(len: nat, k: nat) -> nat {
    if k <= len {
        k
    } else {
        len
    }
}

/// Index of the `i`-th kept item when `n` items are kept from a list of
/// length `len`.
pub open spec fn sample_index(len: nat, n: nat, i: int) -> int {
    i * len / n as int
}

/// Pick `min(sample_size, list.len())` items spread evenly over `list`:
/// item `i` of the result is `list[floor(i * len / n)]` where `n` is the
/// number of items kept.  A sample at least as large as the list returns the
/// list itself; a sample of zero, or an empty list, returns nothing.
pub fn sample_evenly<T: Copy>(list: &[T], sample_size: usize) -> (r: Vec<T>)
    ensures
        r@.len() == sample_count(list@.len(), sample_size as nat),
        forall|i: int|
            0 <= i < r@.len() ==> r@[i] == list@[sample_index(
                list@.len(),
                sample_count(list@.len(), sample_size as nat),
                i,
            )],
{
    let len = list.len();
    if sample_size == 0 || len == 0 {
        return Vec::new();
    }
    let n = if sample_size <= len {
        sample_size
    } else {
        len
    };
    let mut out: Vec<T> = Vec::new();
    let mut i: usize = 0;
    while i < n
        invariant
            0 < n <= len == list@.len(),
            i <= n,
            out@.len() == i,
            forall|j: int|
                0 <= j < i ==> out@[j] == list@[sample_index(list@.len(), n as nat, j)],
        decreases n - i,
    {
        proof {
            assert((i as int) * (len as int) <= u128::MAX as int) by (nonlinear_arith)
                requires
                    0 <= i as int <= 0xffff_ffff_ffff_ffff,
                    0 <= len as int <= 0xffff_ffff_ffff_ffff,
            ;
            assert(i * len < n * len) by (nonlinear_arith)
                requires
                    0 <= i < n,
                    0 < len,
            ;
            assert((i * len) / (n as int) < len) by (nonlinear_arith)
                requires
                    0 < n,
                    i * len < n * len,
            ;
        }
        let idx = ((i as u128 * len as u128) / n as u128) as usize;
        proof {
            assert(idx == sample_index(list@.len(), n as nat, i as int));
        }
        out.push(list[idx]);
        i = i + 1;
    }
    out
}

/// An even sample that asks for at least as many items as the list holds
/// returns the list unchanged.
pub proof fn lemma_sample_evenly_identity(len: nat, k: nat)
    requires
        k >= len,
    ensures
        sample_count(len, k) == len,
        forall|i: int| 0 <= i < len ==> sample_index(len, len, i) == i,
{
    assert forall|i: int| 0 <= i < len implies sample_index(len, len, i) == i by {
        assert(i * len / len as int == i) by (nonlinear_arith)
            requires
                0 <= i,
                0 < len,
        ;
    }
}

} // verus!
