//! The decisions of the file watcher: which changed paths are re-indexed and
//! which are removed from the index.
use vstd::prelude::*;
use crate::text::str_eq;

verus! {

broadcast use vstd::string::group_string_axioms;

/// How a debounced change is reported.
#[derive(Debug, Clone, Copy, PartialEq, Eq, Structural)]
pub enum ChangeKind {
    /// The path settled after a change.
    Any,
    /// The path is still changing; another event will follow.
    AnyContinuous,
    Other,
}

/// A debounced change to a path, with what the disk says of it now.
pub struct FsEvent {
    pub path: String,
    pub is_dir: bool,
    pub exists: bool,
    pub kind: ChangeKind,
}

/// The paths to re-index and to remove after the first `k` events: a
/// settled change to a file that exists re-indexes it, to one that is gone
/// removes it; directories and unsettled changes are ignored; each path is
/// listed once, where first seen.
pub open spec fn sorted_changes(events: Seq<(Seq<char>, bool, bool, ChangeKind)>, k: int) -> (Seq<Seq<char>>, Seq<Seq<char>>)
    decreases k,
{
    if k <= 0 {
        (Seq::empty(), Seq::empty())
    } else {
        let (ix, del) = sorted_changes(events, k - 1);
        let (path, is_dir, exists, kind) = events[k - 1];
        if is_dir || kind != ChangeKind::Any {
            (ix, del)
        } else if exists {
            (if ix.contains(path) { ix } else { ix.push(path) }, del)
        } else {
            (ix, if del.contains(path) { del } else { del.push(path) })
        }
    }
}

/// The facts of a list of events.
pub open spec fn event_views(v: Seq<FsEvent>) -> Seq<(Seq<char>, bool, bool, ChangeKind)> {
    v.map_values(|e: FsEvent| (e.path@, e.is_dir, e.exists, e.kind))
}

/// The texts of a list of strings.
pub open spec fn path_texts(v: Seq<String>) -> Seq<Seq<char>> {
    v.map_values(|s: String| s@)
}

fn listed(v: &Vec<String>, p: &str) -> (r: bool)
    ensures
        r == path_texts(v@).contains(p@),
{
    let mut i: usize = 0;
    while i < v.len()
        invariant
            i <= v.len(),
            forall|j: int| 0 <= j < i ==> v@[j]@ != p@,
        decreases v.len() - i,
    {
        if str_eq(v[i].as_str(), p) {
            proof {
                assert(path_texts(v@)[i as int] == p@);
            }
            return true;
        }
        i += 1;
    }
    proof {
        if path_texts(v@).contains(p@) {
            let j = choose|j: int| 0 <= j < v.len() && path_texts(v@)[j] == p@;
            assert(v@[j]@ == p@);
        }
    }
    false
}

/// Sorts a batch of debounced changes into the paths to re-index and the
/// paths to remove (see `sorted_changes`).
pub fn classify_events(events: &Vec<FsEvent>) -> (r: (Vec<String>, Vec<String>))
    ensures
        (path_texts(r.0@), path_texts(r.1@)) == sorted_changes(event_views(events@), events.len() as int),
{
    let mut ix: Vec<String> = Vec::new();
    let mut del: Vec<String> = Vec::new();
    let mut i: usize = 0;
    while i < events.len()
        invariant
            i <= events.len(),
            (path_texts(ix@), path_texts(del@)) == sorted_changes(event_views(events@), i as int),
        decreases events.len() - i,
    {
        let e = &events[i];
        proof {
            assert(event_views(events@)[i as int] == (e.path@, e.is_dir, e.exists, e.kind));
        }
        if !e.is_dir && e.kind == ChangeKind::Any {
            if e.exists {
                if !listed(&ix, e.path.as_str()) {
                    let ghost before = path_texts(ix@);
                    let p = e.path.clone();
                    ix.push(p);
                    proof {
                        assert(path_texts(ix@) =~= before.push(p@));
                    }
                }
            } else {
                if !listed(&del, e.path.as_str()) {
                    let ghost before = path_texts(del@);
                    let p = e.path.clone();
                    del.push(p);
                    proof {
                        assert(path_texts(del@) =~= before.push(p@));
                    }
                }
            }
        }
        i += 1;
    }
    (ix, del)
}

/// Neither list of a batch names a path twice.
pub proof fn changes_listed_once(events: Seq<(Seq<char>, bool, bool, ChangeKind)>, k: int)
    ensures
        sorted_changes(events, k).0.no_duplicates(),
        sorted_changes(events, k).1.no_duplicates(),
    decreases k,
{
    if k > 0 {
        changes_listed_once(events, k - 1);
    }
}

} // verus!
