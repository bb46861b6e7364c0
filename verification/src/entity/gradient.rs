//! Resolution by meaning: after the rule-based pass, the still unresolved
//! entities of each type are compared by the similarity of their embedded
//! names, and each pair judged similar merges, the longer name canonical.
//! The embedding and the similarity threshold stay with the caller, which
//! hands in, for each group, which pairs reach the threshold.
use vstd::prelude::*;
use crate::entity::resolution::{
    entry_texts, lemma_with_merge, merge_views, merged_contains, pass_consistent, pass_view,
    row_views, sort_by_len, sort_entries, with_merge, EntityRow, MergeModel, MergeStep,
    NerEntity, PassState,
};
use crate::query::parser::texts;
use crate::text::{byte_len, str_bytes, str_eq};

verus! {

broadcast use vstd::string::group_string_axioms;

/// The shortest name, in bytes, compared by meaning: very short names
/// ("US", "UK") embed too vaguely.
pub const MIN_GRADIENT_NAME_LEN: usize = 3;

/// A stored entity takes part in the pass: it is unresolved and its name is
/// long enough.
pub open spec fn gradient_candidate(r: EntityRow) -> bool {
    r.canonical_id is None && byte_len(r.name) >= MIN_GRADIENT_NAME_LEN
}

/// The candidates of type `t` among the first `k` rows, in order.
pub open spec fn candidates_of_type(rows: Seq<EntityRow>, t: Seq<char>, k: int) -> Seq<(i64, Seq<char>)>
    decreases k,
{
    if k <= 0 {
        Seq::empty()
    } else {
        let prev = candidates_of_type(rows, t, k - 1);
        let r = rows[k - 1];
        if gradient_candidate(r) && r.entity_type == t {
            prev.push((r.id, r.name))
        } else {
            prev
        }
    }
}

/// The types of the candidates among the first `k` rows, each once, in
/// order of first appearance.
pub open spec fn candidate_types(rows: Seq<EntityRow>, k: int) -> Seq<Seq<char>>
    decreases k,
{
    if k <= 0 {
        Seq::empty()
    } else {
        let prev = candidate_types(rows, k - 1);
        let r = rows[k - 1];
        if gradient_candidate(r) && !prev.contains(r.entity_type) {
            prev.push(r.entity_type)
        } else {
            prev
        }
    }
}

/// The groups compared by meaning: one per candidate type, each ordered
/// longest name first (a stable sort).
pub open spec fn gradient_groups_of(rows: Seq<EntityRow>) -> Seq<Seq<(i64, Seq<char>)>> {
    let types = candidate_types(rows, rows.len() as int);
    Seq::new(types.len(), |k: int| sort_by_len(candidates_of_type(rows, types[k], rows.len() as int)))
}

/// Entry `i` of a group against the entries from `j` on: each not yet
/// merged away and judged similar to it (`sim[i][j]`) becomes its alias.
pub open spec fn similar_later(g: Seq<(i64, Seq<char>)>, sim: Seq<Seq<bool>>, i: int, j: int, st: PassState) -> PassState
    decreases g.len() - j,
{
    if j < 0 || j >= g.len() || i < 0 || i >= g.len() {
        st
    } else if st.merged.contains(g[j].0) {
        similar_later(g, sim, i, j + 1, st)
    } else if sim[i][j] {
        similar_later(g, sim, i, j + 1, with_merge(st, g[i], g[j]))
    } else {
        similar_later(g, sim, i, j + 1, st)
    }
}

/// The entries of a group from `i` on, each not yet merged away taking the
/// later similar ones as aliases.
pub open spec fn similar_group(g: Seq<(i64, Seq<char>)>, sim: Seq<Seq<bool>>, i: int, st: PassState) -> PassState
    decreases g.len() - i,
{
    if i < 0 || i >= g.len() {
        st
    } else if st.merged.contains(g[i].0) {
        similar_group(g, sim, i + 1, st)
    } else {
        similar_group(g, sim, i + 1, similar_later(g, sim, i, i + 1, st))
    }
}

/// The pass over the first `k` groups, with the similarity judgements of
/// each.
pub open spec fn gradient_pass(groups: Seq<Seq<(i64, Seq<char>)>>, sims: Seq<Seq<Seq<bool>>>, k: int) -> PassState
    decreases k,
{
    if k <= 0 {
        PassState { merged: Seq::empty(), merges: Seq::empty() }
    } else {
        similar_group(groups[k - 1], sims[k - 1], 0, gradient_pass(groups, sims, k - 1))
    }
}

/// The merges of the pass over all groups, in the order they are made.
pub open spec fn gradient_merges_of(groups: Seq<Seq<(i64, Seq<char>)>>, sims: Seq<Seq<Seq<bool>>>) -> Seq<MergeModel> {
    gradient_pass(groups, sims, groups.len() as int).merges
}

/// The texts of a list of groups.
pub open spec fn group_texts(v: Seq<Vec<(i64, String)>>) -> Seq<Seq<(i64, Seq<char>)>> {
    v.map_values(|g: Vec<(i64, String)>| entry_texts(g@))
}

/// The values of a list of square similarity tables.
pub open spec fn table_views(v: Seq<Vec<Vec<bool>>>) -> Seq<Seq<Seq<bool>>> {
    v.map_values(|m: Vec<Vec<bool>>| m@.map_values(|row: Vec<bool>| row@))
}

/// Each group has a square table of its own size.
pub open spec fn tables_fit(groups: Seq<Vec<(i64, String)>>, sims: Seq<Vec<Vec<bool>>>) -> bool {
    &&& sims.len() == groups.len()
    &&& forall|k: int| 0 <= k < groups.len() ==> #[trigger] sims[k].len() == groups[k].len()
    &&& forall|k: int, i: int|
        0 <= k < groups.len() && 0 <= i < groups[k].len() ==> #[trigger] sims[k]@[i].len() == groups[k].len()
}

fn candidates_exec(rows: &Vec<NerEntity>, t: &str) -> (r: Vec<(i64, String)>)
    ensures
        entry_texts(r@) == candidates_of_type(row_views(rows@), t@, rows.len() as int),
{
    let mut out: Vec<(i64, String)> = Vec::new();
    let mut i: usize = 0;
    while i < rows.len()
        invariant
            i <= rows.len(),
            entry_texts(out@) == candidates_of_type(row_views(rows@), t@, i as int),
        decreases rows.len() - i,
    {
        proof {
            assert(row_views(rows@)[i as int] == rows@[i as int]@);
        }
        if rows[i].canonical_id.is_none() && str_bytes(rows[i].name.as_str()) >= MIN_GRADIENT_NAME_LEN
            && str_eq(rows[i].entity_type.as_str(), t) {
            let ghost before = entry_texts(out@);
            let e = (rows[i].id, rows[i].name.clone());
            out.push(e);
            proof {
                assert(entry_texts(out@) =~= before.push((e.0, e.1@)));
            }
        }
        i += 1;
    }
    out
}

fn listed(v: &Vec<String>, x: &str) -> (r: bool)
    ensures
        r == texts(v@).contains(x@),
{
    let mut i: usize = 0;
    while i < v.len()
        invariant
            i <= v.len(),
            forall|j: int| 0 <= j < i ==> v@[j]@ != x@,
        decreases v.len() - i,
    {
        if str_eq(v[i].as_str(), x) {
            proof {
                assert(texts(v@)[i as int] == x@);
            }
            return true;
        }
        i += 1;
    }
    proof {
        if texts(v@).contains(x@) {
            let j = choose|j: int| 0 <= j < v.len() && texts(v@)[j] == x@;
            assert(v@[j]@ == x@);
        }
    }
    false
}

fn candidate_type_list(rows: &Vec<NerEntity>) -> (r: Vec<String>)
    ensures
        texts(r@) == candidate_types(row_views(rows@), rows.len() as int),
{
    let mut out: Vec<String> = Vec::new();
    let mut i: usize = 0;
    while i < rows.len()
        invariant
            i <= rows.len(),
            texts(out@) == candidate_types(row_views(rows@), i as int),
        decreases rows.len() - i,
    {
        proof {
            assert(row_views(rows@)[i as int] == rows@[i as int]@);
        }
        if rows[i].canonical_id.is_none() && str_bytes(rows[i].name.as_str()) >= MIN_GRADIENT_NAME_LEN
            && !listed(&out, rows[i].entity_type.as_str()) {
            let ghost before = texts(out@);
            let t = rows[i].entity_type.clone();
            out.push(t);
            proof {
                assert(texts(out@) =~= before.push(t@));
            }
        }
        i += 1;
    }
    out
}

/// The groups whose names are embedded and compared (see
/// `gradient_groups_of`): the unresolved entities with names of at least
/// three bytes, by type, each group longest name first.
pub fn gradient_groups(rows: &Vec<NerEntity>) -> (r: Vec<Vec<(i64, String)>>)
    ensures
        group_texts(r@) == gradient_groups_of(row_views(rows@)),
{
    let types = candidate_type_list(rows);
    let ghost tv = texts(types@);
    let ghost want = gradient_groups_of(row_views(rows@));
    let mut out: Vec<Vec<(i64, String)>> = Vec::new();
    let mut k: usize = 0;
    while k < types.len()
        invariant
            k <= types.len(),
            tv == texts(types@),
            tv == candidate_types(row_views(rows@), rows.len() as int),
            want == gradient_groups_of(row_views(rows@)),
            want.len() == tv.len(),
            group_texts(out@) == want.take(k as int),
        decreases types.len() - k,
    {
        let ghost before = group_texts(out@);
        let g = candidates_exec(rows, types[k].as_str());
        let sorted = sort_entries(&g);
        proof {
            assert(tv[k as int] == types@[k as int]@);
        }
        out.push(sorted);
        proof {
            assert(group_texts(out@) =~= before.push(entry_texts(sorted@)));
            assert(want[k as int] == sort_by_len(candidates_of_type(row_views(rows@), tv[k as int], rows.len() as int)));
            assert(group_texts(out@) =~= want.take(k + 1));
        }
        k += 1;
    }
    proof {
        assert(want.take(tv.len() as int) =~= want);
    }
    out
}

fn similar_group_exec(
    g: &Vec<(i64, String)>,
    sim: &Vec<Vec<bool>>,
    merged: &mut Vec<i64>,
    merges: &mut Vec<MergeStep>,
)
    requires
        sim.len() == g.len(),
        forall|i: int| 0 <= i < g.len() ==> #[trigger] sim@[i].len() == g.len(),
    ensures
        pass_view(final(merged)@, final(merges)@) == similar_group(
            entry_texts(g@),
            sim@.map_values(|row: Vec<bool>| row@),
            0,
            pass_view(old(merged)@, old(merges)@),
        ),
{
    let ghost gv = entry_texts(g@);
    let ghost sv = sim@.map_values(|row: Vec<bool>| row@);
    let mut i: usize = 0;
    while i < g.len()
        invariant
            i <= g.len(),
            gv == entry_texts(g@),
            sv == sim@.map_values(|row: Vec<bool>| row@),
            sim.len() == g.len(),
            forall|i: int| 0 <= i < g.len() ==> #[trigger] sim@[i].len() == g.len(),
            similar_group(gv, sv, 0, pass_view(old(merged)@, old(merges)@)) == similar_group(
                gv,
                sv,
                i as int,
                pass_view(merged@, merges@),
            ),
        decreases g.len() - i,
    {
        if !merged_contains(merged, g[i].0) {
            let ghost st_i = pass_view(merged@, merges@);
            let mut j: usize = i + 1;
            while j < g.len()
                invariant
                    i < g.len(),
                    i + 1 <= j <= g.len(),
                    gv == entry_texts(g@),
                    sv == sim@.map_values(|row: Vec<bool>| row@),
                    sim.len() == g.len(),
                    forall|i: int| 0 <= i < g.len() ==> #[trigger] sim@[i].len() == g.len(),
                    !st_i.merged.contains(gv[i as int].0),
                    similar_group(gv, sv, 0, pass_view(old(merged)@, old(merges)@)) == similar_group(
                        gv,
                        sv,
                        i + 1,
                        similar_later(gv, sv, i as int, j as int, pass_view(merged@, merges@)),
                    ),
                decreases g.len() - j,
            {
                proof {
                    assert(gv[j as int] == (g@[j as int].0, g@[j as int].1@));
                    assert(gv[i as int] == (g@[i as int].0, g@[i as int].1@));
                    assert(sv[i as int] == sim@[i as int]@);
                    assert(sim@[i as int].len() == g.len());
                }
                if !merged_contains(merged, g[j].0) {
                    if sim[i][j] {
                        let ghost before = pass_view(merged@, merges@);
                        merged.push(g[j].0);
                        let m = MergeStep {
                            alias_id: g[j].0,
                            canonical_id: g[i].0,
                            alias_name: g[j].1.clone(),
                            canonical_name: g[i].1.clone(),
                        };
                        merges.push(m);
                        proof {
                            assert(merge_views(merges@) =~= before.merges.push(m@));
                            assert(pass_view(merged@, merges@) =~= with_merge(before, gv[i as int], gv[j as int]));
                        }
                    }
                }
                j += 1;
            }
        }
        i += 1;
    }
}

/// The merges of the pass by meaning (see `gradient_merges_of`): in each
/// group, each entry not yet merged away takes as aliases the later entries
/// not yet merged away that `similar` judges close to it.
pub fn gradient_merges(groups: &Vec<Vec<(i64, String)>>, similar: &Vec<Vec<Vec<bool>>>) -> (r: Vec<MergeStep>)
    requires
        tables_fit(groups@, similar@),
    ensures
        merge_views(r@) == gradient_merges_of(group_texts(groups@), table_views(similar@)),
{
    let ghost gs = group_texts(groups@);
    let ghost ts = table_views(similar@);
    let mut merged: Vec<i64> = Vec::new();
    let mut merges: Vec<MergeStep> = Vec::new();
    proof {
        assert(merge_views(merges@) =~= Seq::<MergeModel>::empty());
        assert(pass_view(merged@, merges@) =~= gradient_pass(gs, ts, 0));
    }
    let mut k: usize = 0;
    while k < groups.len()
        invariant
            k <= groups.len(),
            gs == group_texts(groups@),
            ts == table_views(similar@),
            tables_fit(groups@, similar@),
            pass_view(merged@, merges@) == gradient_pass(gs, ts, k as int),
        decreases groups.len() - k,
    {
        proof {
            assert(similar@[k as int].len() == groups@[k as int].len());
            assert forall|i: int| 0 <= i < groups@[k as int].len() implies #[trigger] similar@[k as int]@[i].len()
                == groups@[k as int].len() by {}
            assert(gs[k as int] == entry_texts(groups@[k as int]@));
            assert(ts[k as int] == similar@[k as int]@.map_values(|row: Vec<bool>| row@));
        }
        similar_group_exec(&groups[k], &similar[k], &mut merged, &mut merges);
        k += 1;
    }
    merges
}

proof fn lemma_similar_later(g: Seq<(i64, Seq<char>)>, sim: Seq<Seq<bool>>, i: int, j: int, st: PassState)
    requires
        pass_consistent(st),
    ensures
        pass_consistent(similar_later(g, sim, i, j, st)),
    decreases g.len() - j,
{
    if 0 <= j < g.len() && 0 <= i < g.len() {
        if st.merged.contains(g[j].0) {
            lemma_similar_later(g, sim, i, j + 1, st);
        } else if sim[i][j] {
            lemma_with_merge(st, g[i], g[j]);
            lemma_similar_later(g, sim, i, j + 1, with_merge(st, g[i], g[j]));
        } else {
            lemma_similar_later(g, sim, i, j + 1, st);
        }
    }
}

proof fn lemma_similar_group(g: Seq<(i64, Seq<char>)>, sim: Seq<Seq<bool>>, i: int, st: PassState)
    requires
        pass_consistent(st),
    ensures
        pass_consistent(similar_group(g, sim, i, st)),
    decreases g.len() - i,
{
    if 0 <= i < g.len() {
        if st.merged.contains(g[i].0) {
            lemma_similar_group(g, sim, i + 1, st);
        } else {
            lemma_similar_later(g, sim, i, i + 1, st);
            lemma_similar_group(g, sim, i + 1, similar_later(g, sim, i, i + 1, st));
        }
    }
}

proof fn lemma_gradient_pass(groups: Seq<Seq<(i64, Seq<char>)>>, sims: Seq<Seq<Seq<bool>>>, k: int)
    ensures
        pass_consistent(gradient_pass(groups, sims, k)),
    decreases k,
{
    if k > 0 {
        lemma_gradient_pass(groups, sims, k - 1);
        lemma_similar_group(groups[k - 1], sims[k - 1], 0, gradient_pass(groups, sims, k - 1));
    }
}

/// The pass by meaning merges each entity away at most once, whatever the
/// similarity judgements: no two of its merges share an alias.
pub proof fn gradient_alias_merged_once(groups: Seq<Seq<(i64, Seq<char>)>>, sims: Seq<Seq<Seq<bool>>>)
    ensures
        forall|i: int, j: int|
            0 <= i < j < gradient_merges_of(groups, sims).len() ==> (#[trigger] gradient_merges_of(
                groups,
                sims,
            )[i]).alias_id != (#[trigger] gradient_merges_of(groups, sims)[j]).alias_id,
{
    let st = gradient_pass(groups, sims, groups.len() as int);
    lemma_gradient_pass(groups, sims, groups.len() as int);
    assert forall|i: int, j: int| 0 <= i < j < st.merges.len() implies (#[trigger] st.merges[i]).alias_id
        != (#[trigger] st.merges[j]).alias_id by {
        assert(st.merged[i] == st.merges[i].alias_id);
        assert(st.merged[j] == st.merges[j].alias_id);
    }
}

} // verus!
