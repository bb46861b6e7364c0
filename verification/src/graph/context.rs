//! The context window around a matched chunk: its neighbours under the same
//! parent, in id order.
use vstd::prelude::*;
use crate::text::{chars_of, join, join_chars, string_of, views};

verus! {

broadcast use vstd::string::group_string_axioms;

/// The position of the first sibling with the given id.
pub open spec fn position_of(siblings: Seq<(u64, Seq<char>)>, id: u64) -> Option<int> {
    if exists|i: int| 0 <= i < siblings.len() && (#[trigger] siblings[i]).0 == id {
        Some(choose|i: int| 0 <= i < siblings.len() && (#[trigger] siblings[i]).0 == id && forall|j: int|
            0 <= j < i ==> siblings[j].0 != id)
    } else {
        None
    }
}

/// The texts of the siblings from `window` before the matched one to
/// `window` after it (as far as there are any), joined by blank lines;
/// empty where the chunk is not among them.
pub open spec fn window_text(siblings: Seq<(u64, Seq<char>)>, id: u64, window: int) -> Seq<char> {
    match position_of(siblings, id) {
        None => Seq::empty(),
        Some(pos) => {
            let start = if pos >= window {
                pos - window
            } else {
                0
            };
            let end = if pos + window + 1 < siblings.len() {
                pos + window + 1
            } else {
                siblings.len() as int
            };
            join(siblings.subrange(start, end).map_values(|s: (u64, Seq<char>)| s.1), "\n\n"@)
        },
    }
}

/// The texts of a list of (id, text) siblings.
pub open spec fn sibling_views(v: Seq<(u64, String)>) -> Seq<(u64, Seq<char>)> {
    v.map_values(|s: (u64, String)| (s.0, s.1@))
}

/// The context of chunk `chunk_id` among its siblings (chunks under the same
/// parent, in id order): up to `window` neighbours on each side.
pub fn chunk_window(siblings: &Vec<(u64, String)>, chunk_id: u64, window: usize) -> (r: String)
    ensures
        r@ == window_text(sibling_views(siblings@), chunk_id, window as int),
{
    let ghost sv = sibling_views(siblings@);
    let mut pos: usize = 0;
    while pos < siblings.len() && siblings[pos].0 != chunk_id
        invariant
            pos <= siblings.len(),
            sv == sibling_views(siblings@),
            forall|j: int| 0 <= j < pos ==> sv[j].0 != chunk_id,
        decreases siblings.len() - pos,
    {
        proof {
            assert(sv[pos as int].0 == siblings@[pos as int].0);
        }
        pos += 1;
    }
    if pos == siblings.len() {
        return String::new();
    }
    proof {
        assert(sv[pos as int].0 == chunk_id);
        let p = position_of(sv, chunk_id).unwrap();
        assert(sv[p].0 == chunk_id);
        if p < pos {
        } else if p > pos {
        }
        assert(p == pos);
    }
    let start: usize = if pos >= window {
        pos - window
    } else {
        0
    };
    let end: usize = if window < siblings.len() - pos - 1 {
        pos + window + 1
    } else {
        siblings.len()
    };
    let mut parts: Vec<Vec<char>> = Vec::new();
    let mut k: usize = start;
    while k < end
        invariant
            start <= k <= end <= siblings.len(),
            sv == sibling_views(siblings@),
            views(parts@) == sv.subrange(start as int, k as int).map_values(|s: (u64, Seq<char>)| s.1),
        decreases end - k,
    {
        let ghost before = views(parts@);
        let piece = chars_of(siblings[k].1.as_str());
        parts.push(piece);
        proof {
            assert(sv[k as int].1 == piece@);
            assert(views(parts@) =~= before.push(piece@));
            assert(views(parts@) =~= sv.subrange(start as int, k + 1).map_values(|s: (u64, Seq<char>)| s.1));
        }
        k += 1;
    }
    let mut sep: Vec<char> = Vec::new();
    sep.push('\n');
    sep.push('\n');
    proof {
        reveal_strlit("\n\n");
        assert(sep@ =~= "\n\n"@);
    }
    string_of(&join_chars(&parts, &sep))
}

} // verus!
