//! The score-free decisions of answering a plan: what is searched for,
//! which chunks the keyword and vector hits merge into, and which
//! candidates the plan's filters keep.
use vstd::prelude::*;
use crate::query::parser::{texts, DateRange, QueryPlan, UtcTime};
use crate::text::{chars_of, contains, contains_chars, join, join_chars, string_of, views};

verus! {

broadcast use vstd::string::group_string_axioms;

/// The text of strings joined by single spaces.
pub open spec fn spaced(v: Seq<Seq<char>>) -> Seq<char> {
    join(v, " "@)
}

fn join_spaced(v: &Vec<String>) -> (r: String)
    ensures
        r@ == spaced(texts(v@)),
{
    let mut parts: Vec<Vec<char>> = Vec::new();
    let mut i: usize = 0;
    while i < v.len()
        invariant
            i <= v.len(),
            views(parts@) == texts(v@).take(i as int),
        decreases v.len() - i,
    {
        let ghost before = views(parts@);
        let c = chars_of(v[i].as_str());
        parts.push(c);
        proof {
            assert(views(parts@) =~= before.push(c@));
            assert(texts(v@)[i as int] == c@);
            assert(views(parts@) =~= texts(v@).take(i + 1));
        }
        i += 1;
    }
    proof {
        reveal_strlit(" ");
        assert(texts(v@).take(v.len() as int) =~= texts(v@));
    }
    let sep = chars_of(" ");
    string_of(&join_chars(&parts, &sep))
}

/// What the full-text index is asked for: the keywords joined by spaces;
/// nothing at all (no results) where there are no keywords.
pub fn search_text(plan: &QueryPlan) -> (r: Option<String>)
    ensures
        plan.keywords.len() == 0 ==> r is None,
        plan.keywords.len() > 0 ==> (r matches Some(s) && s@ == spaced(texts(plan.keywords@))),
{
    if plan.keywords.len() == 0 {
        None
    } else {
        Some(join_spaced(&plan.keywords))
    }
}

/// What is searched for to find documents to exclude: the negated words
/// joined by spaces; nothing where there are none.
pub fn negation_text(plan: &QueryPlan) -> (r: Option<String>)
    ensures
        plan.negations.len() == 0 ==> r is None,
        plan.negations.len() > 0 ==> (r matches Some(s) && s@ == spaced(texts(plan.negations@))),
{
    if plan.negations.len() == 0 {
        None
    } else {
        Some(join_spaced(&plan.negations))
    }
}

/// How many full-text and vector results are fetched for `limit` answers:
/// three times as many.
pub fn fetch_count(limit: usize) -> (r: usize)
    requires
        limit * 3 <= usize::MAX,
    ensures
        r == limit * 3,
{
    limit * 3
}

/// A candidate passes the plan's type filter (its content type holds the
/// filter's text) and scope filter (its path holds the scope).
pub open spec fn passes_filters(
    content_type: Seq<char>,
    doc_path: Seq<char>,
    type_filter: Option<Seq<char>>,
    scope: Option<Seq<char>>,
) -> bool {
    &&& match type_filter {
        Some(t) => contains(content_type, t),
        None => true,
    }
    &&& match scope {
        Some(s) => contains(doc_path, s),
        None => true,
    }
}

/// Whether a candidate passes the plan's type and scope filters.
pub fn keep_candidate(content_type: &str, doc_path: &str, plan: &QueryPlan) -> (r: bool)
    ensures
        r == passes_filters(
            content_type@,
            doc_path@,
            crate::query::parser::opt_text(plan.type_filter),
            crate::query::parser::opt_text(plan.scope_filter),
        ),
{
    let type_ok = match &plan.type_filter {
        Some(t) => contains_chars(&chars_of(content_type), &chars_of(t.as_str())),
        None => true,
    };
    let scope_ok = match &plan.scope_filter {
        Some(s) => contains_chars(&chars_of(doc_path), &chars_of(s.as_str())),
        None => true,
    };
    type_ok && scope_ok
}

/// `a` is earlier than `b`.
pub open spec fn earlier(a: UtcTime, b: UtcTime) -> bool {
    a.secs < b.secs || (a.secs == b.secs && a.nanos < b.nanos)
}

/// A document modified at `modified` (if known) lies in the window: an
/// unknown time is kept; a known one must not be before its start nor after
/// its end.
pub open spec fn in_window(modified: Option<UtcTime>, after: Option<UtcTime>, before: Option<UtcTime>) -> bool {
    match modified {
        None => true,
        Some(m) => {
            &&& match after {
                Some(a) => !earlier(m, a),
                None => true,
            }
            &&& match before {
                Some(b) => !earlier(b, m),
                None => true,
            }
        },
    }
}

/// Whether a document modified at `modified` lies in the plan's date window.
pub fn within_dates(modified: Option<UtcTime>, range: &DateRange) -> (r: bool)
    ensures
        r == in_window(modified, range.after, range.before),
{
    match modified {
        None => true,
        Some(m) => {
            let after_ok = match range.after {
                Some(a) => !(m.secs < a.secs || (m.secs == a.secs && m.nanos < a.nanos)),
                None => true,
            };
            let before_ok = match range.before {
                Some(b) => !(b.secs < m.secs || (b.secs == m.secs && b.nanos < m.nanos)),
                None => true,
            };
            after_ok && before_ok
        },
    }
}


// ───────────────────────── merging the two searches ─────────────────────────

/// Where a merged result comes from: a keyword hit (its position among the
/// keyword hits), or, for a chunk only the vector search found, its first
/// vector hit (its position among those).
#[derive(Debug, Clone, Copy, PartialEq, Eq, Structural)]
pub enum HitSlot {
    Keyword(usize),
    Vector(usize),
}

/// The keyword hits among the first `k`, each chunk once (its first hit).
pub open spec fn keyword_slots(bm: Seq<u64>, k: int) -> Seq<(u64, HitSlot)>
    decreases k,
{
    if k <= 0 {
        Seq::empty()
    } else {
        let acc = keyword_slots(bm, k - 1);
        if bm.take(k - 1).contains(bm[k - 1]) {
            acc
        } else {
            acc.push((bm[k - 1], HitSlot::Keyword((k - 1) as usize)))
        }
    }
}

/// The vector hits among the first `k` whose chunk no keyword hit found,
/// each chunk once (its first hit).
pub open spec fn vector_slots(bm: Seq<u64>, vs: Seq<u64>, k: int) -> Seq<(u64, HitSlot)>
    decreases k,
{
    if k <= 0 {
        Seq::empty()
    } else {
        let acc = vector_slots(bm, vs, k - 1);
        if bm.contains(vs[k - 1]) || vs.take(k - 1).contains(vs[k - 1]) {
            acc
        } else {
            acc.push((vs[k - 1], HitSlot::Vector((k - 1) as usize)))
        }
    }
}

/// The merged results of a keyword search (chunk ids `bm`) and a vector
/// search (chunk ids `vs`): every chunk the keyword search found, then
/// every chunk only the vector search found.
pub open spec fn merged_slots(bm: Seq<u64>, vs: Seq<u64>) -> Seq<(u64, HitSlot)> {
    keyword_slots(bm, bm.len() as int) + vector_slots(bm, vs, vs.len() as int)
}

/// The chunk ids of merged results.
pub open spec fn slot_ids(s: Seq<(u64, HitSlot)>) -> Seq<u64> {
    s.map_values(|p: (u64, HitSlot)| p.0)
}

/// Whether `x` is among the first `upto` of `v`.
fn has_id(v: &Vec<u64>, upto: usize, x: u64) -> (r: bool)
    requires
        upto <= v.len(),
    ensures
        r == v@.take(upto as int).contains(x),
{
    let mut i: usize = 0;
    while i < upto
        invariant
            i <= upto <= v.len(),
            forall|j: int| 0 <= j < i ==> v@[j] != x,
        decreases upto - i,
    {
        if v[i] == x {
            assert(v@.take(upto as int)[i as int] == x);
            return true;
        }
        i += 1;
    }
    proof {
        if v@.take(upto as int).contains(x) {
            let j = choose|j: int| 0 <= j < upto && v@.take(upto as int)[j] == x;
            assert(v@[j] == x);
        }
    }
    false
}

/// The merged results of the keyword hits `bm` and the vector hits `vs`
/// (see `merged_slots`); the scores are combined by the caller.
pub fn merge_slots(bm: &Vec<u64>, vs: &Vec<u64>) -> (r: Vec<(u64, HitSlot)>)
    ensures
        r@ == merged_slots(bm@, vs@),
{
    let mut out: Vec<(u64, HitSlot)> = Vec::new();
    let mut i: usize = 0;
    while i < bm.len()
        invariant
            i <= bm.len(),
            out@ == keyword_slots(bm@, i as int),
        decreases bm.len() - i,
    {
        if !has_id(bm, i, bm[i]) {
            out.push((bm[i], HitSlot::Keyword(i)));
        }
        i += 1;
    }
    let ghost kw = out@;
    let mut j: usize = 0;
    while j < vs.len()
        invariant
            j <= vs.len(),
            kw == keyword_slots(bm@, bm.len() as int),
            out@ == kw + vector_slots(bm@, vs@, j as int),
        decreases vs.len() - j,
    {
        let x = vs[j];
        let in_bm = has_id(bm, bm.len(), x);
        proof {
            assert(bm@.take(bm.len() as int) =~= bm@);
        }
        if !in_bm && !has_id(vs, j, x) {
            let ghost before = out@;
            out.push((x, HitSlot::Vector(j)));
            proof {
                assert(out@ =~= kw + vector_slots(bm@, vs@, j + 1));
            }
        }
        j += 1;
    }
    out
}

/// What a sequence with one more item at its end contains.
proof fn lemma_push_contains(s: Seq<u64>, a: u64)
    ensures
        forall|x: u64| s.push(a).contains(x) <==> (s.contains(x) || x == a),
{
    assert forall|x: u64| s.push(a).contains(x) <==> (s.contains(x) || x == a) by {
        if s.contains(x) {
            let i = choose|i: int| 0 <= i < s.len() && s[i] == x;
            assert(s.push(a)[i] == x);
        }
        if x == a {
            assert(s.push(a)[s.len() as int] == x);
        }
        if s.push(a).contains(x) {
            let i = choose|i: int| 0 <= i < s.push(a).len() && s.push(a)[i] == x;
            if i < s.len() {
                assert(s[i] == x);
            }
        }
    }
}

proof fn lemma_keyword_slots(bm: Seq<u64>, k: int)
    requires
        0 <= k <= bm.len(),
    ensures
        slot_ids(keyword_slots(bm, k)).no_duplicates(),
        forall|x: u64| slot_ids(keyword_slots(bm, k)).contains(x) <==> bm.take(k).contains(x),
        forall|i: int| 0 <= i < keyword_slots(bm, k).len() ==> (#[trigger] keyword_slots(bm, k)[i]).1 is Keyword,
    decreases k,
{
    if k > 0 {
        lemma_keyword_slots(bm, k - 1);
        let acc = keyword_slots(bm, k - 1);
        let pre = bm.take(k - 1);
        assert(bm.take(k) =~= pre.push(bm[k - 1]));
        lemma_push_contains(pre, bm[k - 1]);
        if !pre.contains(bm[k - 1]) {
            let e = (bm[k - 1], HitSlot::Keyword((k - 1) as usize));
            assert(keyword_slots(bm, k) == acc.push(e));
            assert(slot_ids(acc.push(e)) =~= slot_ids(acc).push(bm[k - 1]));
            lemma_push_contains(slot_ids(acc), bm[k - 1]);
            assert forall|x: u64| slot_ids(keyword_slots(bm, k)).contains(x) <==> bm.take(k).contains(x) by {
                assert(slot_ids(acc).contains(x) <==> pre.contains(x));
            }
        } else {
            assert(keyword_slots(bm, k) == acc);
            assert forall|x: u64| slot_ids(keyword_slots(bm, k)).contains(x) <==> bm.take(k).contains(x) by {
                assert(slot_ids(acc).contains(x) <==> pre.contains(x));
            }
        }
    }
}

proof fn lemma_vector_slots(bm: Seq<u64>, vs: Seq<u64>, k: int)
    requires
        0 <= k <= vs.len(),
    ensures
        slot_ids(vector_slots(bm, vs, k)).no_duplicates(),
        forall|x: u64|
            #![trigger slot_ids(vector_slots(bm, vs, k)).contains(x)]
            slot_ids(vector_slots(bm, vs, k)).contains(x) <==> (vs.take(k).contains(x) && !bm.contains(x)),
        forall|i: int| 0 <= i < vector_slots(bm, vs, k).len() ==> (#[trigger] vector_slots(bm, vs, k)[i]).1 is Vector,
    decreases k,
{
    if k == 0 {
        assert(vs.take(0) =~= Seq::<u64>::empty());
        assert(slot_ids(vector_slots(bm, vs, 0)) =~= Seq::<u64>::empty());
        assert forall|x: u64|
            #![trigger slot_ids(vector_slots(bm, vs, k)).contains(x)]
            slot_ids(vector_slots(bm, vs, k)).contains(x) <==> (vs.take(k).contains(x) && !bm.contains(x)) by {
            if vs.take(k).contains(x) {
                let i = choose|i: int| 0 <= i < vs.take(k).len() && vs.take(k)[i] == x;
            }
        }
    } else {
        lemma_vector_slots(bm, vs, k - 1);
        let acc = vector_slots(bm, vs, k - 1);
        let pre = vs.take(k - 1);
        assert(vs.take(k) =~= pre.push(vs[k - 1]));
        lemma_push_contains(pre, vs[k - 1]);
        if !(bm.contains(vs[k - 1]) || pre.contains(vs[k - 1])) {
            let e = (vs[k - 1], HitSlot::Vector((k - 1) as usize));
            assert(vector_slots(bm, vs, k) == acc.push(e));
            assert(slot_ids(acc.push(e)) =~= slot_ids(acc).push(vs[k - 1]));
            lemma_push_contains(slot_ids(acc), vs[k - 1]);
            assert(!slot_ids(acc).contains(vs[k - 1]));
            assert forall|i: int, j: int|
                0 <= i < slot_ids(acc).len() + 1 && 0 <= j < slot_ids(acc).len() + 1 && i != j implies slot_ids(
                acc.push(e),
            )[i] != slot_ids(acc.push(e))[j] by {
                let n = slot_ids(acc).len() as int;
                if i == n {
                    assert(slot_ids(acc)[j] == slot_ids(acc.push(e))[j]);
                } else if j == n {
                    assert(slot_ids(acc)[i] == slot_ids(acc.push(e))[i]);
                }
            }
            assert forall|x: u64|
                #![trigger slot_ids(vector_slots(bm, vs, k)).contains(x)]
                slot_ids(vector_slots(bm, vs, k)).contains(x) <==> (vs.take(k).contains(x) && !bm.contains(x)) by {
                assert(slot_ids(acc).contains(x) <==> (pre.contains(x) && !bm.contains(x)));
            }
        } else {
            assert(vector_slots(bm, vs, k) == acc);
            assert forall|x: u64|
                #![trigger slot_ids(vector_slots(bm, vs, k)).contains(x)]
                slot_ids(vector_slots(bm, vs, k)).contains(x) <==> (vs.take(k).contains(x) && !bm.contains(x)) by {
                assert(slot_ids(acc).contains(x) <==> (pre.contains(x) && !bm.contains(x)));
            }
        }
    }
}

/// Every chunk either search found is among the merged results exactly
/// once, and it comes from a keyword hit exactly when the keyword search
/// found it: a chunk found by one search only is still kept.
pub proof fn merged_once(bm: Seq<u64>, vs: Seq<u64>)
    ensures
        slot_ids(merged_slots(bm, vs)).no_duplicates(),
        forall|x: u64| slot_ids(merged_slots(bm, vs)).contains(x) <==> (bm.contains(x) || vs.contains(x)),
        forall|i: int|
            0 <= i < merged_slots(bm, vs).len() ==> ((#[trigger] merged_slots(bm, vs)[i]).1 is Keyword <==> bm.contains(
                merged_slots(bm, vs)[i].0,
            )),
{
    lemma_keyword_slots(bm, bm.len() as int);
    lemma_vector_slots(bm, vs, vs.len() as int);
    let a = keyword_slots(bm, bm.len() as int);
    let b = vector_slots(bm, vs, vs.len() as int);
    assert(bm.take(bm.len() as int) =~= bm);
    assert(vs.take(vs.len() as int) =~= vs);
    assert(slot_ids(a + b) =~= slot_ids(a) + slot_ids(b));
    assert forall|x: u64| slot_ids(a + b).contains(x) <==> (bm.contains(x) || vs.contains(x)) by {
        if slot_ids(a).contains(x) {
            let i = choose|i: int| 0 <= i < slot_ids(a).len() && slot_ids(a)[i] == x;
            assert(slot_ids(a + b)[i] == x);
        }
        if slot_ids(b).contains(x) {
            let i = choose|i: int| 0 <= i < slot_ids(b).len() && slot_ids(b)[i] == x;
            assert(slot_ids(a + b)[slot_ids(a).len() + i] == x);
        }
        if slot_ids(a + b).contains(x) {
            let i = choose|i: int| 0 <= i < slot_ids(a + b).len() && slot_ids(a + b)[i] == x;
            if i < slot_ids(a).len() {
                assert(slot_ids(a)[i] == x);
            } else {
                assert(slot_ids(b)[i - slot_ids(a).len()] == x);
            }
        }
    }
    assert forall|i: int, j: int| 0 <= i < j < slot_ids(a + b).len() implies slot_ids(a + b)[i] != slot_ids(a + b)[j] by {
        let la = slot_ids(a).len();
        if j < la {
            assert(slot_ids(a)[i] != slot_ids(a)[j]);
        } else if i >= la {
            assert(slot_ids(b)[i - la] != slot_ids(b)[j - la]);
        } else {
            assert(slot_ids(a).contains(slot_ids(a)[i]));
            assert(slot_ids(b).contains(slot_ids(b)[j - la]));
        }
    }
    assert forall|i: int| 0 <= i < (a + b).len() implies ((#[trigger] (a + b)[i]).1 is Keyword <==> bm.contains(
        (a + b)[i].0,
    )) by {
        let la = a.len();
        if i < la {
            assert((a + b)[i] == a[i]);
            assert(slot_ids(a)[i] == a[i].0);
            assert(slot_ids(a).contains(a[i].0));
        } else {
            assert((a + b)[i] == b[i - la]);
            assert(slot_ids(b)[i - la] == b[i - la].0);
            assert(slot_ids(b).contains(b[i - la].0));
        }
    }
}

} // verus!
