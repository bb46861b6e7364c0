//! Entities found by pattern: URLs, file paths, e-mail addresses, dates,
//! versions and code identifiers, and the entity nodes and mention edges a
//! chunk gets from them.
use vstd::prelude::*;
use crate::graph::{
    edge_views, no_props, node_views, plain, plain_edge, Edge, EdgeKind, EdgeModel, EntityType,
    Node, NodeKind, NodeModel, NodeProperties, PropsModel,
};
use crate::text::{
    byte_len, bytes_len, char_index_at_byte, char_index_of_byte, chars_of, has_char, lowercase,
    slice_chars, str_eq, string_of, to_lowercase,
};

verus! {

broadcast use vstd::string::group_string_axioms;

/// The number of entity patterns.
pub const PATTERN_COUNT: usize = 8;

/// The entity patterns, in the order they are tried: URL, file path, e-mail,
/// ISO date, written date, slashed date, version, code identifier.
pub open spec fn entity_pattern(i: int) -> Seq<char> {
    if i == 0 {
        r"https?://[^\s)>\]]+"@
    } else if i == 1 {
        r"(?:~/|/|\./)[\w./-]+"@
    } else if i == 2 {
        r"[\w.+-]+@[\w.-]+\.\w+"@
    } else if i == 3 {
        r"\d{4}-\d{2}-\d{2}"@
    } else if i == 4 {
        r"(?:January|February|March|April|May|June|July|August|September|October|November|December)\s+\d{1,2},?\s+\d{4}"@
    } else if i == 5 {
        r"\d{2}/\d{2}/\d{4}"@
    } else if i == 6 {
        r"v?\d+\.\d+(?:\.\d+)?(?:-[\w.]+)?"@
    } else if i == 7 {
        r"\b(?:[A-Z][a-z]+(?:[A-Z][a-z]+)+|[a-z]+(?:_[a-z]+)+|[A-Z]+(?:_[A-Z]+)+)\b"@
    } else {
        Seq::empty()
    }
}

/// The pattern of a word for entity recognition: a run of word characters
/// (joined by `-` or `_`), or any other single non-space character.
pub open spec fn word_pattern() -> Seq<char> {
    r"\w+(?:[-_]\w+)*|\S"@
}

/// One of the patterns this library searches with (all valid regexes).
pub open spec fn is_entity_pattern(p: Seq<char>) -> bool {
    (exists|i: int| 0 <= i < PATTERN_COUNT && p == #[trigger] entity_pattern(i)) || p == word_pattern()
}

fn entity_pattern_at(i: usize) -> (r: &'static str)
    requires
        i < PATTERN_COUNT,
    ensures
        r@ == entity_pattern(i as int),
{
    match i {
        0 => r"https?://[^\s)>\]]+",
        1 => r"(?:~/|/|\./)[\w./-]+",
        2 => r"[\w.+-]+@[\w.-]+\.\w+",
        3 => r"\d{4}-\d{2}-\d{2}",
        4 => r"(?:January|February|March|April|May|June|July|August|September|October|November|December)\s+\d{1,2},?\s+\d{4}",
        5 => r"\d{2}/\d{2}/\d{4}",
        6 => r"v?\d+\.\d+(?:\.\d+)?(?:-[\w.]+)?",
        _ => r"\b(?:[A-Z][a-z]+(?:[A-Z][a-z]+)+|[a-z]+(?:_[a-z]+)+|[A-Z]+(?:_[A-Z]+)+)\b",
    }
}

/// The entity type a pattern finds.
pub open spec fn pattern_type(i: int) -> EntityType {
    if i == 0 {
        EntityType::Url
    } else if i == 1 {
        EntityType::FilePath
    } else if i == 2 {
        EntityType::Email
    } else if i <= 5 {
        EntityType::Date
    } else if i == 6 {
        EntityType::Version
    } else {
        EntityType::Identifier
    }
}

fn pattern_type_at(i: usize) -> (r: EntityType)
    ensures
        r == pattern_type(i as int),
{
    if i == 0 {
        EntityType::Url
    } else if i == 1 {
        EntityType::FilePath
    } else if i == 2 {
        EntityType::Email
    } else if i <= 5 {
        EntityType::Date
    } else if i == 6 {
        EntityType::Version
    } else {
        EntityType::Identifier
    }
}

/// The byte spans of the successive non-overlapping matches of a pattern in
/// a text, as `regex::Regex::find_iter` yields them.
pub uninterp spec fn regex_spans(pattern: Seq<char>, text: Seq<char>) -> Seq<(usize, usize)>;

/// Compiles `pattern` with `regex::Regex::new` and returns the start and end
/// byte offsets of each match of `find_iter` over `text`. Trusted: the
/// result is the named `regex_spans`, and (as `regex::Match` documents) each
/// span starts no later than it ends, both on character boundaries of `text`.
#[verifier::external_body]
pub(crate) fn find_spans(pattern: &str, text: &str) -> (r: Vec<(usize, usize)>)
    requires
        is_entity_pattern(pattern@),
    ensures
        r@ == regex_spans(pattern@, text@),
        forall|i: int|
            0 <= i < r.len() ==> (#[trigger] r@[i]).0 <= r@[i].1 && char_index_at_byte(
                text@,
                r@[i].0 as int,
            ) is Some && char_index_at_byte(text@, r@[i].1 as int) is Some,
{
    regex::Regex::new(pattern).unwrap().find_iter(text).map(|m| (m.start(), m.end())).collect()
}

/// The words an identifier must not be (lowercased) to count as an entity.
pub open spec fn is_stopword(w: Seq<char>) -> bool {
    w == "the"@
        || w == "a"@
        || w == "an"@
        || w == "and"@
        || w == "or"@
        || w == "but"@
        || w == "in"@
        || w == "on"@
        || w == "at"@
        || w == "to"@
        || w == "for"@
        || w == "of"@
        || w == "with"@
        || w == "by"@
        || w == "from"@
        || w == "is"@
        || w == "are"@
        || w == "was"@
        || w == "were"@
        || w == "be"@
        || w == "been"@
        || w == "being"@
        || w == "have"@
        || w == "has"@
        || w == "had"@
        || w == "do"@
        || w == "does"@
        || w == "did"@
        || w == "will"@
        || w == "would"@
        || w == "could"@
        || w == "should"@
        || w == "may"@
        || w == "might"@
        || w == "can"@
        || w == "shall"@
        || w == "not"@
        || w == "no"@
        || w == "nor"@
        || w == "this"@
        || w == "that"@
        || w == "these"@
        || w == "those"@
        || w == "it"@
        || w == "its"@
        || w == "they"@
        || w == "them"@
        || w == "their"@
        || w == "we"@
        || w == "our"@
        || w == "you"@
        || w == "your"@
        || w == "he"@
        || w == "she"@
        || w == "his"@
        || w == "her"@
        || w == "if"@
        || w == "then"@
        || w == "else"@
        || w == "when"@
        || w == "where"@
        || w == "how"@
        || w == "what"@
        || w == "which"@
        || w == "who"@
        || w == "whom"@
        || w == "all"@
        || w == "each"@
        || w == "every"@
        || w == "both"@
        || w == "few"@
        || w == "more"@
        || w == "most"@
        || w == "other"@
        || w == "some"@
        || w == "such"@
        || w == "than"@
        || w == "too"@
        || w == "very"@
        || w == "just"@
        || w == "about"@
}

fn stopword(w: &str) -> (r: bool)
    ensures
        r == is_stopword(w@),
{
    str_eq(w, "the")
        || str_eq(w, "a")
        || str_eq(w, "an")
        || str_eq(w, "and")
        || str_eq(w, "or")
        || str_eq(w, "but")
        || str_eq(w, "in")
        || str_eq(w, "on")
        || str_eq(w, "at")
        || str_eq(w, "to")
        || str_eq(w, "for")
        || str_eq(w, "of")
        || str_eq(w, "with")
        || str_eq(w, "by")
        || str_eq(w, "from")
        || str_eq(w, "is")
        || str_eq(w, "are")
        || str_eq(w, "was")
        || str_eq(w, "were")
        || str_eq(w, "be")
        || str_eq(w, "been")
        || str_eq(w, "being")
        || str_eq(w, "have")
        || str_eq(w, "has")
        || str_eq(w, "had")
        || str_eq(w, "do")
        || str_eq(w, "does")
        || str_eq(w, "did")
        || str_eq(w, "will")
        || str_eq(w, "would")
        || str_eq(w, "could")
        || str_eq(w, "should")
        || str_eq(w, "may")
        || str_eq(w, "might")
        || str_eq(w, "can")
        || str_eq(w, "shall")
        || str_eq(w, "not")
        || str_eq(w, "no")
        || str_eq(w, "nor")
        || str_eq(w, "this")
        || str_eq(w, "that")
        || str_eq(w, "these")
        || str_eq(w, "those")
        || str_eq(w, "it")
        || str_eq(w, "its")
        || str_eq(w, "they")
        || str_eq(w, "them")
        || str_eq(w, "their")
        || str_eq(w, "we")
        || str_eq(w, "our")
        || str_eq(w, "you")
        || str_eq(w, "your")
        || str_eq(w, "he")
        || str_eq(w, "she")
        || str_eq(w, "his")
        || str_eq(w, "her")
        || str_eq(w, "if")
        || str_eq(w, "then")
        || str_eq(w, "else")
        || str_eq(w, "when")
        || str_eq(w, "where")
        || str_eq(w, "how")
        || str_eq(w, "what")
        || str_eq(w, "which")
        || str_eq(w, "who")
        || str_eq(w, "whom")
        || str_eq(w, "all")
        || str_eq(w, "each")
        || str_eq(w, "every")
        || str_eq(w, "both")
        || str_eq(w, "few")
        || str_eq(w, "more")
        || str_eq(w, "most")
        || str_eq(w, "other")
        || str_eq(w, "some")
        || str_eq(w, "such")
        || str_eq(w, "than")
        || str_eq(w, "too")
        || str_eq(w, "very")
        || str_eq(w, "just")
        || str_eq(w, "about")
}

/// A match of a pattern: the type found, the matched text and its byte offset.
pub struct EntityMatch {
    pub entity_type: EntityType,
    pub value: String,
    pub offset: usize,
}

/// The mathematical value of an entity match.
pub ghost struct MatchModel {
    pub entity_type: EntityType,
    pub value: Seq<char>,
    pub offset: int,
}

impl View for EntityMatch {
    type V = MatchModel;

    open spec fn view(&self) -> MatchModel {
        MatchModel { entity_type: self.entity_type, value: self.value@, offset: self.offset as int }
    }
}

/// The views of a list of matches.
pub open spec fn match_views(v: Seq<EntityMatch>) -> Seq<MatchModel> {
    v.map_values(|m: EntityMatch| m@)
}

/// The text a byte span covers.
pub open spec fn span_text(text: Seq<char>, span: (usize, usize)) -> Seq<char> {
    text.subrange(
        char_index_at_byte(text, span.0 as int).unwrap(),
        char_index_at_byte(text, span.1 as int).unwrap(),
    )
}

/// The number of `.` in a text.
pub open spec fn dot_count(v: Seq<char>) -> int
    decreases v.len(),
{
    if v.len() == 0 {
        0
    } else {
        dot_count(v.drop_last()) + if v.last() == '.' {
            1int
        } else {
            0
        }
    }
}

/// A version match that is more than a plain number such as `1.0`: it has a
/// `v` prefix, a third component or a suffix.
pub open spec fn is_real_version(value: Seq<char>) -> bool {
    value.contains('v') || value.contains('-') || dot_count(value) >= 2
}

/// Whether a match of pattern `i` is kept: file paths must hold a `/` and be
/// over two bytes, versions at least three bytes and more than a plain
/// number, identifiers at least three bytes and not a stop word.
pub open spec fn keeps(i: int, value: Seq<char>) -> bool {
    if i == 1 {
        value.contains('/') && byte_len(value) > 2
    } else if i == 6 {
        byte_len(value) >= 3 && is_real_version(value)
    } else if i == 7 {
        byte_len(value) >= 3 && !is_stopword(lowercase(value))
    } else {
        true
    }
}

/// The kept matches among the first `m` spans of pattern `i`.
pub open spec fn pattern_matches(text: Seq<char>, i: int, spans: Seq<(usize, usize)>, m: int) -> Seq<
    MatchModel,
>
    decreases m,
{
    if m <= 0 {
        Seq::empty()
    } else {
        let prev = pattern_matches(text, i, spans, m - 1);
        let v = span_text(text, spans[m - 1]);
        if keeps(i, v) {
            prev.push(MatchModel { entity_type: pattern_type(i), value: v, offset: spans[m - 1].0 as int })
        } else {
            prev
        }
    }
}

/// The kept matches of the first `k` patterns, pattern by pattern.
pub open spec fn matches_upto(text: Seq<char>, k: int) -> Seq<MatchModel>
    decreases k,
{
    if k <= 0 {
        Seq::empty()
    } else {
        let spans = regex_spans(entity_pattern(k - 1), text);
        matches_upto(text, k - 1) + pattern_matches(text, k - 1, spans, spans.len() as int)
    }
}

/// The entities found in a text.
pub open spec fn text_entities(text: Seq<char>) -> Seq<MatchModel> {
    matches_upto(text, PATTERN_COUNT as int)
}

fn count_dots(v: &Vec<char>) -> (r: usize)
    ensures
        r == dot_count(v@),
{
    let mut n: usize = 0;
    let mut i: usize = 0;
    while i < v.len()
        invariant
            i <= v.len(),
            n == dot_count(v@.take(i as int)),
            n <= i,
        decreases v.len() - i,
    {
        proof {
            assert(v@.take(i + 1).drop_last() =~= v@.take(i as int));
        }
        if v[i] == '.' {
            n += 1;
        }
        i += 1;
    }
    proof {
        assert(v@.take(v.len() as int) =~= v@);
    }
    n
}

fn keep_match(i: usize, v: &Vec<char>) -> (r: bool)
    ensures
        r == keeps(i as int, v@),
{
    if i == 1 {
        has_char(v, '/') && bytes_len(v) > 2
    } else if i == 6 {
        bytes_len(v) >= 3 && (has_char(v, 'v') || has_char(v, '-') || count_dots(v) >= 2)
    } else if i == 7 {
        if bytes_len(v) < 3 {
            return false;
        }
        let s = string_of(v);
        let l = to_lowercase(s.as_str());
        !stopword(l.as_str())
    } else {
        true
    }
}

/// Each span starts no later than it ends, both on character boundaries of
/// the text.
pub open spec fn spans_fit(text: Seq<char>, spans: Seq<(usize, usize)>) -> bool {
    forall|k: int|
        0 <= k < spans.len() ==> (#[trigger] spans[k]).0 <= spans[k].1 && char_index_at_byte(
            text,
            spans[k].0 as int,
        ) is Some && char_index_at_byte(text, spans[k].1 as int) is Some
}

/// The matches of pattern `i` kept among the given spans of it in the text
/// (see `pattern_matches`).
pub fn pattern_entities(text: &str, i: usize, spans: &Vec<(usize, usize)>) -> (r: Vec<EntityMatch>)
    requires
        i < PATTERN_COUNT,
        spans_fit(text@, spans@),
    ensures
        match_views(r@) == pattern_matches(text@, i as int, spans@, spans.len() as int),
{
    let cs = chars_of(text);
    let mut out: Vec<EntityMatch> = Vec::new();
    let mut j: usize = 0;
    while j < spans.len()
        invariant
            i < PATTERN_COUNT,
            cs@ == text@,
            j <= spans.len(),
            spans_fit(text@, spans@),
            match_views(out@) == pattern_matches(text@, i as int, spans@, j as int),
        decreases spans.len() - j,
    {
        let (s, e) = spans[j];
        proof {
            assert(spans@[j as int] == (s, e));
        }
        let a = char_index_of_byte(&cs, s);
        let b = char_index_of_byte(&cs, e);
        match (a, b) {
            (Some(a), Some(b)) => {
                proof {
                    crate::ingest::plaintext::lemma_char_index_at_byte(text@, s as int);
                    crate::ingest::plaintext::lemma_char_index_at_byte(text@, e as int);
                    crate::text::lemma_byte_len_mono(text@, 0, 0);
                    if b < a {
                        crate::text::lemma_byte_len_mono(text@, b as int, a as int);
                    }
                }
                let v = slice_chars(&cs, a, b);
                if keep_match(i, &v) {
                    let ghost before = match_views(out@);
                    let m = EntityMatch { entity_type: pattern_type_at(i), value: string_of(&v), offset: s };
                    out.push(m);
                    proof {
                        assert(match_views(out@) =~= before.push(m@));
                    }
                }
            },
            _ => {},
        }
        j += 1;
    }
    out
}

/// The entities found in a text by each pattern in turn.
pub fn extract_entities_from_text(text: &str) -> (r: Vec<EntityMatch>)
    ensures
        match_views(r@) == text_entities(text@),
{
    let mut out: Vec<EntityMatch> = Vec::new();
    let mut i: usize = 0;
    while i < PATTERN_COUNT
        invariant
            i <= PATTERN_COUNT,
            match_views(out@) == matches_upto(text@, i as int),
        decreases PATTERN_COUNT - i,
    {
        let pat = entity_pattern_at(i);
        proof {
            assert(is_entity_pattern(pat@));
        }
        let spans = find_spans(pat, text);
        let found = pattern_entities(text, i, &spans);
        let ghost before = match_views(out@);
        let mut found_mut = found;
        out.append(&mut found_mut);
        proof {
            assert(match_views(out@) =~= before + match_views(found@));
            assert(matches_upto(text@, i + 1) =~= before + pattern_matches(text@, i as int, spans@, spans.len() as int));
        }
        i += 1;
    }
    out
}


// ───────────────────────── entity nodes and mentions ─────────────────────────

/// An entity node.
pub open spec fn entity_node(id: u64, name: Seq<char>, t: EntityType) -> NodeModel {
    NodeModel {
        id,
        kind: NodeKind::Entity,
        name,
        props: PropsModel { entity_type: Some(t), ..no_props() },
    }
}

/// The new entity nodes, mention edges and next free id after the first `k`
/// matches of a chunk.
pub ghost struct Mentions {
    pub nodes: Seq<NodeModel>,
    pub edges: Seq<EdgeModel>,
    pub next: int,
}

/// The id of the first of the first `k` new entity nodes with this name and
/// type, if any.
pub open spec fn created_id(nodes: Seq<NodeModel>, name: Seq<char>, t: EntityType, k: int) -> Option<u64>
    decreases k,
{
    if k <= 0 {
        None
    } else {
        match created_id(nodes, name, t, k - 1) {
            Some(x) => Some(x),
            None => if nodes[k - 1].name == name && nodes[k - 1].props.entity_type == Some(t) {
                Some(nodes[k - 1].id)
            } else {
                None
            },
        }
    }
}

/// After the first `k` matches: a match whose value already names an entity
/// (`known[i]`) mentions that entity; one whose name and type match an
/// entity created earlier in this chunk mentions that one; any other gets a
/// new entity node with the next id, and the chunk mentions it.
pub open spec fn mentions(
    ms: Seq<MatchModel>,
    known: Seq<Option<u64>>,
    chunk_id: u64,
    next: int,
    k: int,
) -> Mentions
    decreases k,
{
    if k <= 0 {
        Mentions { nodes: Seq::empty(), edges: Seq::empty(), next }
    } else {
        let prev = mentions(ms, known, chunk_id, next, k - 1);
        match known[k - 1] {
            Some(id) => Mentions {
                edges: prev.edges.push(plain(chunk_id, id, EdgeKind::Mentions)),
                ..prev
            },
            None => match created_id(prev.nodes, ms[k - 1].value, ms[k - 1].entity_type, prev.nodes.len() as int) {
                Some(id) => Mentions { edges: prev.edges.push(plain(chunk_id, id, EdgeKind::Mentions)), ..prev },
                None => {
                    let id = prev.next as u64;
                    Mentions {
                        nodes: prev.nodes.push(entity_node(id, ms[k - 1].value, ms[k - 1].entity_type)),
                        edges: prev.edges.push(plain(chunk_id, id, EdgeKind::Mentions)),
                        next: prev.next + 1,
                    }
                },
            },
        }
    }
}

proof fn lemma_mentions_next(ms: Seq<MatchModel>, known: Seq<Option<u64>>, chunk_id: u64, next: int, j: int, k: int)
    requires
        0 <= j <= k,
    ensures
        mentions(ms, known, chunk_id, next, j).next <= mentions(ms, known, chunk_id, next, k).next,
    decreases k - j,
{
    if j < k {
        lemma_mentions_next(ms, known, chunk_id, next, j, k - 1);
    }
}

/// The entity nodes and mention edges for a chunk's matches, where
/// `known[i]` is the id of an entity already named like match `i`, if any.
/// New entities take ids from `next_id` on.
pub fn extract_entities(
    matches: &Vec<EntityMatch>,
    known: &Vec<Option<u64>>,
    chunk_id: u64,
    next_id: &mut u64,
) -> (r: (Vec<Node>, Vec<Edge>))
    requires
        known.len() == matches.len(),
        mentions(match_views(matches@), known@, chunk_id, *old(next_id) as int, matches.len() as int).next
            <= u64::MAX,
    ensures
        ({
            let m = mentions(
                match_views(matches@),
                known@,
                chunk_id,
                *old(next_id) as int,
                matches.len() as int,
            );
            &&& node_views(r.0@) == m.nodes
            &&& edge_views(r.1@) == m.edges
            &&& *final(next_id) == m.next
        }),
{
    let ghost ms = match_views(matches@);
    let ghost n0 = *next_id as int;
    let mut nodes: Vec<Node> = Vec::new();
    let mut edges: Vec<Edge> = Vec::new();
    let mut i: usize = 0;
    while i < matches.len()
        invariant
            ms == match_views(matches@),
            known.len() == matches.len(),
            i <= matches.len(),
            mentions(ms, known@, chunk_id, n0, matches.len() as int).next <= u64::MAX,
            node_views(nodes@) == mentions(ms, known@, chunk_id, n0, i as int).nodes,
            edge_views(edges@) == mentions(ms, known@, chunk_id, n0, i as int).edges,
            *next_id as int == mentions(ms, known@, chunk_id, n0, i as int).next,
        decreases matches.len() - i,
    {
        proof {
            lemma_mentions_next(ms, known@, chunk_id, n0, i + 1, matches.len() as int);
            assert(ms[i as int] == matches@[i as int]@);
        }
        let ghost nv = node_views(nodes@);
        let ghost ev = edge_views(edges@);
        match known[i] {
            Some(id) => {
                edges.push(plain_edge(chunk_id, id, EdgeKind::Mentions));
                proof {
                    assert(edge_views(edges@) =~= ev.push(plain(chunk_id, id, EdgeKind::Mentions)));
                }
            },
            None => {
                let t = matches[i].entity_type;
                let mut same: Option<u64> = None;
                let mut j: usize = 0;
                while j < nodes.len()
                    invariant
                        j <= nodes.len(),
                        nv == node_views(nodes@),
                        same == created_id(nv, ms[i as int].value, t, j as int),
                        ms[i as int] == matches@[i as int]@,
                        t == ms[i as int].entity_type,
                        i < matches.len(),
                    decreases nodes.len() - j,
                {
                    if same.is_none() {
                        proof {
                            assert(nv[j as int] == nodes@[j as int]@);
                        }
                        let same_type = match nodes[j].properties.entity_type {
                            Some(et) => et == t,
                            None => false,
                        };
                        if same_type && str_eq(nodes[j].name.as_str(), matches[i].value.as_str()) {
                            same = Some(nodes[j].id);
                        }
                    }
                    j += 1;
                }
                if let Some(id) = same {
                    edges.push(plain_edge(chunk_id, id, EdgeKind::Mentions));
                    proof {
                        assert(nv.len() == nodes.len());
                        assert(edge_views(edges@) =~= ev.push(plain(chunk_id, id, EdgeKind::Mentions)));
                    }
                } else {
                let id = *next_id;
                let mut props = NodeProperties::empty();
                props.entity_type = Some(matches[i].entity_type);
                let node = Node { id, kind: NodeKind::Entity, name: matches[i].value.clone(), properties: props };
                proof {
                    assert(node@ == entity_node(id, ms[i as int].value, ms[i as int].entity_type));
                }
                nodes.push(node);
                edges.push(plain_edge(chunk_id, id, EdgeKind::Mentions));
                *next_id = id + 1;
                proof {
                    assert(node_views(nodes@) =~= nv.push(entity_node(id, ms[i as int].value, ms[i as int].entity_type)));
                    assert(edge_views(edges@) =~= ev.push(plain(chunk_id, id, EdgeKind::Mentions)));
                }
                }
            },
        }
        i += 1;
    }
    (nodes, edges)
}

// ───────────────────────── co-occurrence ─────────────────────────

/// The pairs `(a, b)` for `b` in `rest`, in order.
pub open spec fn pairs_with(a: u64, rest: Seq<u64>) -> Seq<(u64, u64)> {
    rest.map_values(|b: u64| (a, b))
}

/// Every pair `(ids[i], ids[j])` with `i < j`, ordered by `i` then `j`.
pub open spec fn all_pairs(ids: Seq<u64>) -> Seq<(u64, u64)>
    decreases ids.len(),
{
    if ids.len() == 0 {
        Seq::empty()
    } else {
        pairs_with(ids[0], ids.drop_first()) + all_pairs(ids.drop_first())
    }
}

/// The entity pairs that co-occur in a chunk mentioning `ids` (in mention
/// order): every pair of positions, earlier first.
pub fn cooccurrence_pairs(ids: &Vec<u64>) -> (r: Vec<(u64, u64)>)
    ensures
        r@ == all_pairs(ids@),
{
    let mut out: Vec<(u64, u64)> = Vec::new();
    let mut i: usize = 0;
    proof {
        assert(ids@.skip(0) =~= ids@);
    }
    while i < ids.len()
        invariant
            i <= ids.len(),
            all_pairs(ids@) == out@ + all_pairs(ids@.skip(i as int)),
        decreases ids.len() - i,
    {
        let ghost base = out@;
        let mut j: usize = i + 1;
        while j < ids.len()
            invariant
                i < ids.len(),
                i + 1 <= j <= ids.len(),
                out@ == base + pairs_with(ids@[i as int], ids@.subrange(i + 1, j as int)),
            decreases ids.len() - j,
        {
            out.push((ids[i], ids[j]));
            proof {
                assert(out@ =~= base + pairs_with(ids@[i as int], ids@.subrange(i + 1, j + 1)));
            }
            j += 1;
        }
        proof {
            let t = ids@.skip(i as int);
            assert(t[0] == ids@[i as int]);
            assert(t.drop_first() =~= ids@.skip(i + 1));
            assert(ids@.subrange(i + 1, ids.len() as int) =~= ids@.skip(i + 1));
            assert(all_pairs(t) == pairs_with(t[0], t.drop_first()) + all_pairs(t.drop_first()));
            assert(out@ + all_pairs(ids@.skip(i + 1)) =~= base + all_pairs(t));
        }
        i += 1;
    }
    proof {
        assert(ids@.skip(ids.len() as int) =~= Seq::<u64>::empty());
        assert(out@ + all_pairs(Seq::<u64>::empty()) =~= out@);
    }
    out
}

} // verus!
