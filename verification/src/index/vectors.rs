//! Bookkeeping of the vector index: which stored vectors survive a commit.
//! The vectors themselves (floating point) and the nearest-neighbour graph
//! live outside.
use vstd::prelude::*;
use crate::text::str_eq;

verus! {

broadcast use vstd::string::group_string_axioms;

/// What is stored beside each vector: the chunk it embeds and its document.
pub struct VectorMeta {
    pub node_id: u64,
    pub doc_path: String,
}

/// The texts of a list of paths.
pub open spec fn path_views(v: Seq<String>) -> Seq<Seq<char>> {
    v.map_values(|s: String| s@)
}

/// The positions, in order, of the first `k` stored vectors whose document
/// is not among the deleted paths.
pub open spec fn kept_upto(meta: Seq<VectorMeta>, deleted: Seq<Seq<char>>, k: int) -> Seq<usize>
    decreases k,
{
    if k <= 0 {
        Seq::empty()
    } else if deleted.contains(meta[k - 1].doc_path@) {
        kept_upto(meta, deleted, k - 1)
    } else {
        kept_upto(meta, deleted, k - 1).push((k - 1) as usize)
    }
}

fn is_deleted(deleted: &Vec<String>, p: &str) -> (r: bool)
    ensures
        r == path_views(deleted@).contains(p@),
{
    let mut i: usize = 0;
    while i < deleted.len()
        invariant
            i <= deleted.len(),
            forall|j: int| 0 <= j < i ==> deleted@[j]@ != p@,
        decreases deleted.len() - i,
    {
        if str_eq(deleted[i].as_str(), p) {
            proof {
                assert(path_views(deleted@)[i as int] == p@);
            }
            return true;
        }
        i += 1;
    }
    proof {
        if path_views(deleted@).contains(p@) {
            let j = choose|j: int| 0 <= j < deleted.len() && path_views(deleted@)[j] == p@;
            assert(deleted@[j]@ == p@);
        }
    }
    false
}

/// The positions of the stored vectors that a commit keeps: those whose
/// document was not deleted since the last commit, in their stored order.
pub fn kept_positions(meta: &Vec<VectorMeta>, deleted: &Vec<String>) -> (r: Vec<usize>)
    ensures
        r@ == kept_upto(meta@, path_views(deleted@), meta.len() as int),
        forall|i: int| 0 <= i < r.len() ==> (#[trigger] r@[i]) < meta.len(),
{
    let ghost dv = path_views(deleted@);
    let mut out: Vec<usize> = Vec::new();
    let mut i: usize = 0;
    while i < meta.len()
        invariant
            i <= meta.len(),
            dv == path_views(deleted@),
            out@ == kept_upto(meta@, dv, i as int),
            forall|k: int| 0 <= k < out.len() ==> (#[trigger] out@[k]) < i,
        decreases meta.len() - i,
    {
        if !is_deleted(deleted, meta[i].doc_path.as_str()) {
            out.push(i);
        }
        i += 1;
    }
    out
}

} // verus!
