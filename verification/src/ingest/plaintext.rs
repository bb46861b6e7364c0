//! Plain text split into chunks: paragraphs first, oversized paragraphs cut
//! at sentence ends (or spaces) within the byte limit, then small neighbours
//! merged.
use vstd::prelude::*;
use crate::graph::{
    chunk_name, chunk_node, document_node, edge_views, make_chunk_node, make_document_node,
    node_views, numbered_name, plain, plain_edge, ContentKind, ContentType, Edge, EdgeKind,
    EdgeModel, Node, NodeModel,
};
use crate::ingest::{file_name_of, path_file_name};
use crate::text::{
    byte_len, bytes_len, char_index_at_byte, char_index_of_byte, chars_of, chars_within, chars_within_bytes, concat, find,
    lemma_chars_within_start, utf8_width,
    is_ws, lemma_byte_len_concat, lemma_byte_len_sub, lemma_trim_sub, trim_start, slice_chars, split_on_text, split_str, string_of,
    string_views, trim, trim_chars, views, join,
};

verus! {

broadcast use vstd::string::group_string_axioms;

/// The byte length above which a paragraph is cut, and that merging never exceeds.
pub const MAX_CHUNK: usize = 1000;

/// Pieces shorter than this (in bytes) are merged with a neighbour.
pub const MIN_CHUNK: usize = 200;

/// The trimmed parts that are not empty, in order.
pub open spec fn trimmed_nonempty(parts: Seq<Seq<char>>) -> Seq<Seq<char>>
    decreases parts.len(),
{
    if parts.len() == 0 {
        Seq::empty()
    } else {
        let prev = trimmed_nonempty(parts.drop_last());
        let t = trim(parts.last());
        if t.len() > 0 {
            prev.push(t)
        } else {
            prev
        }
    }
}

/// The paragraphs of a text: the trimmed, non-empty parts between blank-line
/// separators (`"\n\n"`).
pub open spec fn paragraphs(content: Seq<char>) -> Seq<Seq<char>> {
    trimmed_nonempty(split_str(content, "\n\n"@))
}

/// A character that ends a sentence.
pub open spec fn is_stop(c: char) -> bool {
    c == '.' || c == '!' || c == '?'
}

/// The end (just after the space) of the last `". "`, `"! "` or `"? "` that
/// lies within the first `j` characters of `r`.
pub open spec fn sentence_end(r: Seq<char>, j: int) -> Option<int>
    decreases j,
{
    if j < 2 || j > r.len() {
        None
    } else if is_stop(r[j - 2]) && r[j - 1] == ' ' {
        Some(j)
    } else {
        sentence_end(r, j - 1)
    }
}

/// The index of the last space within the first `j` characters of `r`.
pub open spec fn last_space(r: Seq<char>, j: int) -> Option<int>
    decreases j,
{
    if j <= 0 || j > r.len() {
        None
    } else if r[j - 1] == ' ' {
        Some(j - 1)
    } else {
        last_space(r, j - 1)
    }
}

pub proof fn lemma_sentence_end(r: Seq<char>, j: int)
    ensures
        sentence_end(r, j) matches Some(p) ==> 2 <= p <= j && p <= r.len(),
    decreases j,
{
    if 2 <= j <= r.len() && !(is_stop(r[j - 2]) && r[j - 1] == ' ') {
        lemma_sentence_end(r, j - 1);
    }
}

pub proof fn lemma_last_space(r: Seq<char>, j: int)
    ensures
        last_space(r, j) matches Some(q) ==> 0 <= q < j && q < r.len() && r[q] == ' ',
    decreases j,
{
    if 0 < j <= r.len() && r[j - 1] != ' ' {
        lemma_last_space(r, j - 1);
    }
}

/// Where text whose first `k` characters make up the byte limit is cut:
/// after its last sentence end there, else at its last space there, else at `k`.
pub open spec fn cut_point(rem: Seq<char>, k: int) -> int {
    match sentence_end(rem, k) {
        Some(p) => p,
        None => match last_space(rem, k) {
            Some(q) => q,
            None => k,
        },
    }
}

pub proof fn lemma_char_index_at_byte(s: Seq<char>, b: int)
    ensures
        char_index_at_byte(s, b) matches Some(k) ==> 0 <= k <= s.len() && byte_len(s.take(k)) == b,
{
}

pub proof fn lemma_cut_progress(rem: Seq<char>, k: int)
    requires
        0 < k <= rem.len(),
    ensures
        0 <= cut_point(rem, k) <= k,
        trim(rem.skip(cut_point(rem, k))).len() < rem.len(),
{
    lemma_sentence_end(rem, k);
    lemma_last_space(rem, k);
    let cut = cut_point(rem, k);
    lemma_trim_sub(rem.skip(cut));
    if cut == 0 {
        assert(rem.skip(0) =~= rem);
    }
}

/// The pieces an over-long paragraph is cut into: the first `MAX_CHUNK`
/// bytes (moved back to a character boundary) are cut at the last sentence
/// end or space in them, and the rest is cut again. (Always `Some`; the
/// `Option` is that of the steps built on it.)
pub open spec fn split_long(rem: Seq<char>) -> Option<Seq<Seq<char>>>
    decreases rem.len(),
{
    if byte_len(rem) <= MAX_CHUNK {
        Some(
            if rem.len() > 0 {
                seq![rem]
            } else {
                Seq::empty()
            },
        )
    } else {
        let k = chars_within(rem, MAX_CHUNK as int);
        if 0 < k <= rem.len() {
            proof {
                lemma_cut_progress(rem, k);
            }
            let cut = cut_point(rem, k);
            match split_long(trim(rem.skip(cut))) {
                Some(rest) => Some(seq![trim(rem.take(cut))] + rest),
                None => None,
            }
        } else {
            None
        }
    }
}

/// Where a paragraph is over the limit, at least one character fits in it.
proof fn lemma_long_cut(rem: Seq<char>)
    requires
        byte_len(rem) > MAX_CHUNK,
    ensures
        0 < chars_within(rem, MAX_CHUNK as int) <= rem.len(),
        byte_len(rem.take(chars_within(rem, MAX_CHUNK as int))) <= MAX_CHUNK,
{
    if rem.len() == 0 {
        assert(byte_len(rem) == 0);
    }
    assert(utf8_width(rem[0]) <= 4);
    lemma_chars_within_start(rem, MAX_CHUNK as int);
}

/// Every paragraph can be cut: `split_long` never gives `None`.
pub proof fn lemma_split_long_some(rem: Seq<char>)
    ensures
        split_long(rem) is Some,
    decreases rem.len(),
{
    if byte_len(rem) > MAX_CHUNK {
        lemma_long_cut(rem);
        let k = chars_within(rem, MAX_CHUNK as int);
        lemma_cut_progress(rem, k);
        lemma_split_long_some(trim(rem.skip(cut_point(rem, k))));
    }
}

/// The pieces of the first `k` paragraphs are always there.
proof fn lemma_all_pieces_some(paras: Seq<Seq<char>>, k: int)
    ensures
        all_pieces(paras, k) is Some,
    decreases k,
{
    if k > 0 {
        lemma_all_pieces_some(paras, k - 1);
        lemma_split_long_some(paras[k - 1]);
    }
}

/// The pieces of the first `k` paragraphs.
pub open spec fn all_pieces(paras: Seq<Seq<char>>, k: int) -> Option<Seq<Seq<char>>>
    decreases k,
{
    if k <= 0 {
        Some(Seq::empty())
    } else {
        match (all_pieces(paras, k - 1), split_long(paras[k - 1])) {
            (Some(a), Some(b)) => Some(a + b),
            _ => None,
        }
    }
}

/// The first `k` pieces with each small one joined (by a space) onto the one
/// before it, when either is under `MIN_CHUNK` bytes and the join stays
/// within `MAX_CHUNK`.
pub open spec fn merge_pieces(pieces: Seq<Seq<char>>, k: int) -> Seq<Seq<char>>
    decreases k,
{
    if k <= 0 {
        Seq::empty()
    } else {
        let m = merge_pieces(pieces, k - 1);
        let p = pieces[k - 1];
        if m.len() > 0 && (byte_len(m.last()) < MIN_CHUNK || byte_len(p) < MIN_CHUNK) && byte_len(
            m.last(),
        ) + byte_len(p) + 1 <= MAX_CHUNK {
            m.update(m.len() - 1, m.last() + seq![' '] + p)
        } else {
            m.push(p)
        }
    }
}

/// The non-empty parts, in order.
pub open spec fn drop_empty(parts: Seq<Seq<char>>) -> Seq<Seq<char>>
    decreases parts.len(),
{
    if parts.len() == 0 {
        Seq::empty()
    } else if parts.last().len() > 0 {
        drop_empty(parts.drop_last()).push(parts.last())
    } else {
        drop_empty(parts.drop_last())
    }
}

/// The chunks of a text: its paragraphs cut to the limit, small pieces
/// joined, empty ones dropped. (Always `Some`, see `text_chunks_some`.)
pub open spec fn text_chunks(content: Seq<char>) -> Option<Seq<Seq<char>>> {
    let paras = paragraphs(content);
    match all_pieces(paras, paras.len() as int) {
        Some(p) => Some(drop_empty(merge_pieces(p, p.len() as int))),
        None => None,
    }
}

fn paragraphs_of(content: &Vec<char>) -> (r: Vec<Vec<char>>)
    ensures
        views(r@) == paragraphs(content@),
{
    let mut sep: Vec<char> = Vec::new();
    sep.push('\n');
    sep.push('\n');
    proof {
        reveal_strlit("\n\n");
        assert(sep@ =~= "\n\n"@);
    }
    let parts = split_on_text(content, &sep);
    let mut out: Vec<Vec<char>> = Vec::new();
    let mut i: usize = 0;
    while i < parts.len()
        invariant
            i <= parts.len(),
            views(parts@) == split_str(content@, "\n\n"@),
            views(out@) == trimmed_nonempty(views(parts@).take(i as int)),
        decreases parts.len() - i,
    {
        proof {
            assert(views(parts@).take(i + 1).drop_last() =~= views(parts@).take(i as int));
            assert(views(parts@).take(i + 1).last() == parts@[i as int]@);
        }
        let t = trim_chars(&parts[i]);
        if t.len() > 0 {
            out.push(t);
        }
        proof {
            assert(views(out@) =~= trimmed_nonempty(views(parts@).take(i + 1)));
        }
        i += 1;
    }
    proof {
        assert(views(parts@).take(parts.len() as int) =~= views(parts@));
    }
    out
}

fn sentence_end_in(r: &Vec<char>, k: usize) -> (res: Option<usize>)
    requires
        k <= r.len(),
    ensures
        match sentence_end(r@, k as int) {
            Some(p) => res == Some(p as usize),
            None => res is None,
        },
{
    let mut j: usize = k;
    while j >= 2
        invariant
            j <= k <= r.len(),
            sentence_end(r@, k as int) == sentence_end(r@, j as int),
        decreases j,
    {
        let c = r[j - 2];
        if (c == '.' || c == '!' || c == '?') && r[j - 1] == ' ' {
            return Some(j);
        }
        j -= 1;
    }
    None
}

fn last_space_in(r: &Vec<char>, k: usize) -> (res: Option<usize>)
    requires
        k <= r.len(),
    ensures
        match last_space(r@, k as int) {
            Some(q) => res == Some(q as usize),
            None => res is None,
        },
{
    let mut j: usize = k;
    while j >= 1
        invariant
            j <= k <= r.len(),
            last_space(r@, k as int) == last_space(r@, j as int),
        decreases j,
    {
        if r[j - 1] == ' ' {
            return Some(j - 1);
        }
        j -= 1;
    }
    None
}

/// The pieces `done` followed by those of an optional rest.
pub open spec fn after(done: Seq<Seq<char>>, rest: Option<Seq<Seq<char>>>) -> Option<Seq<Seq<char>>> {
    match rest {
        Some(x) => Some(done + x),
        None => None,
    }
}

fn split_long_of(para: &Vec<char>) -> (r: Option<Vec<Vec<char>>>)
    ensures
        match split_long(para@) {
            Some(p) => r matches Some(v) && views(v@) == p,
            None => r is None,
        },
{
    let mut done: Vec<Vec<char>> = Vec::new();
    let mut rem = para.clone();
    proof {
        assert(split_long(para@) =~= after(views(done@), split_long(rem@)));
    }
    loop
        invariant
            split_long(para@) == after(views(done@), split_long(rem@)),
        decreases rem.len(),
    {
        let bl = bytes_len(&rem);
        if bl <= MAX_CHUNK {
            if rem.len() > 0 {
                let ghost before = views(done@);
                done.push(rem);
                proof {
                    assert(views(done@) =~= before + seq![rem@]);
                }
            } else {
                proof {
                    assert(views(done@) =~= views(done@) + Seq::<Seq<char>>::empty());
                }
            }
            return Some(done);
        }
        let k = chars_within_bytes(&rem, MAX_CHUNK);
        proof {
            lemma_long_cut(rem@);
            lemma_cut_progress(rem@, k as int);
        }
        let cut = match sentence_end_in(&rem, k) {
            Some(p) => p,
            None => match last_space_in(&rem, k) {
                Some(q) => q,
                None => k,
            },
        };
        let head = trim_chars(&slice_chars(&rem, 0, cut));
        let tail = trim_chars(&slice_chars(&rem, cut, rem.len()));
        proof {
            assert(rem@.subrange(0, cut as int) =~= rem@.take(cut as int));
            assert(rem@.subrange(cut as int, rem.len() as int) =~= rem@.skip(cut as int));
        }
        let ghost before = views(done@);
        done.push(head);
        proof {
            assert(views(done@) =~= before + seq![head@]);
            match split_long(tail@) {
                Some(x) => {
                    assert(before + (seq![head@] + x) =~= views(done@) + x);
                },
                None => {},
            }
        }
        rem = tail;
    }
}

fn merge_all(pieces: &Vec<Vec<char>>) -> (r: Vec<Vec<char>>)
    ensures
        views(r@) == merge_pieces(views(pieces@), pieces.len() as int),
{
    let mut merged: Vec<Vec<char>> = Vec::new();
    let mut i: usize = 0;
    while i < pieces.len()
        invariant
            i <= pieces.len(),
            views(merged@) == merge_pieces(views(pieces@), i as int),
        decreases pieces.len() - i,
    {
        let ghost m = views(merged@);
        proof {
            assert(views(pieces@)[i as int] == pieces@[i as int]@);
        }
        let bp = bytes_len(&pieces[i]);
        let mut joined = false;
        if merged.len() > 0 {
            let last_i = merged.len() - 1;
            proof {
                assert(m.last() == merged@[last_i as int]@);
            }
            let bl = bytes_len(&merged[last_i]);
            if (bl < MIN_CHUNK || bp < MIN_CHUNK) && bl <= MAX_CHUNK - 1 && bp <= MAX_CHUNK - 1 - bl {
                let mut w = merged[last_i].clone();
                assert(w@ == m.last());
                w.push(' ');
                let w2 = concat(&w, &pieces[i]);
                assert(w2@ == m.last() + seq![' '] + pieces@[i as int]@);
                merged.set(last_i, w2);
                joined = true;
                proof {
                    assert(views(merged@) =~= m.update(m.len() - 1, m.last() + seq![' '] + pieces@[i as int]@));
                }
            }
        }
        if !joined {
            merged.push(pieces[i].clone());
            proof {
                assert(views(merged@) =~= m.push(pieces@[i as int]@));
            }
        }
        i += 1;
    }
    merged
}

fn nonempty_strings(parts: &Vec<Vec<char>>) -> (r: Vec<String>)
    ensures
        string_views(r@) == drop_empty(views(parts@)),
{
    let mut out: Vec<String> = Vec::new();
    let mut i: usize = 0;
    while i < parts.len()
        invariant
            i <= parts.len(),
            string_views(out@) == drop_empty(views(parts@).take(i as int)),
        decreases parts.len() - i,
    {
        proof {
            assert(views(parts@).take(i + 1).drop_last() =~= views(parts@).take(i as int));
            assert(views(parts@).take(i + 1).last() == parts@[i as int]@);
        }
        let ghost before = string_views(out@);
        if parts[i].len() > 0 {
            out.push(string_of(&parts[i]));
            proof {
                assert(string_views(out@) =~= before.push(parts@[i as int]@));
            }
        }
        i += 1;
    }
    proof {
        assert(views(parts@).take(parts.len() as int) =~= views(parts@));
    }
    out
}

/// The chunks of a text (see `text_chunks`); never `None`.
pub fn try_chunk_text(content: &str) -> (r: Option<Vec<String>>)
    ensures
        r is Some,
        match text_chunks(content@) {
            Some(c) => r matches Some(v) && string_views(v@) == c,
            None => r is None,
        },
{
    proof {
        text_chunks_some(content@);
    }
    let cs = chars_of(content);
    let paras = paragraphs_of(&cs);
    let ghost ps = paragraphs(content@);
    let mut pieces: Vec<Vec<char>> = Vec::new();
    let mut i: usize = 0;
    while i < paras.len()
        invariant
            i <= paras.len(),
            views(paras@) == ps,
            ps == paragraphs(content@),
            all_pieces(ps, i as int) == Some(views(pieces@)),
        decreases paras.len() - i,
    {
        proof {
            assert(ps[i as int] == paras@[i as int]@);
        }
        match split_long_of(&paras[i]) {
            Some(more) => {
                let ghost before = views(pieces@);
                let mut j: usize = 0;
                while j < more.len()
                    invariant
                        j <= more.len(),
                        views(pieces@) == before + views(more@).take(j as int),
                    decreases more.len() - j,
                {
                    let piece = more[j].clone();
                    assert(piece@ == views(more@)[j as int]);
                    let ghost pv = views(pieces@);
                    pieces.push(piece);
                    proof {
                        assert(views(pieces@) =~= pv.push(piece@));
                        assert(views(more@).take(j + 1) =~= views(more@).take(j as int).push(piece@));
                        assert(views(pieces@) =~= before + views(more@).take(j + 1));
                    }
                    j += 1;
                }
                proof {
                    assert(views(more@).take(more.len() as int) =~= views(more@));
                }
            },
            None => {
                proof {
                    lemma_split_long_some(ps[i as int]);
                }
                return None;
            },
        }
        i += 1;
    }
    let merged = merge_all(&pieces);
    Some(nonempty_strings(&merged))
}

/// Splits plain text into chunks (see `text_chunks`).
pub fn chunk_text(content: &str) -> (r: Vec<String>)
    ensures
        Some(string_views(r@)) == text_chunks(content@),
{
    match try_chunk_text(content) {
        Some(v) => v,
        None => Vec::new(),
    }
}


// ───────────────────────── the size law ─────────────────────────

/// Every piece a paragraph is cut into is within the byte limit.
pub proof fn lemma_split_long_bounded(rem: Seq<char>)
    ensures
        split_long(rem) matches Some(ps) ==> forall|i: int|
            0 <= i < ps.len() ==> byte_len(#[trigger] ps[i]) <= MAX_CHUNK,
    decreases rem.len(),
{
    if byte_len(rem) > MAX_CHUNK {
        lemma_long_cut(rem);
        let k = chars_within(rem, MAX_CHUNK as int);
        lemma_cut_progress(rem, k);
        let cut = cut_point(rem, k);
        let tail = trim(rem.skip(cut));
        lemma_split_long_bounded(tail);
        let head_src = rem.take(cut);
        lemma_trim_sub(head_src);
        let a = head_src.len() - trim_start(head_src).len();
        let b = a + trim(head_src).len();
        assert(trim(head_src) =~= rem.take(k).subrange(a, b));
        lemma_byte_len_sub(rem.take(k), a, b);
        match split_long(tail) {
            Some(rest) => {
                let ps = seq![trim(head_src)] + rest;
                assert forall|i: int| 0 <= i < ps.len() implies byte_len(#[trigger] ps[i])
                    <= MAX_CHUNK by {
                    if i > 0 {
                        assert(ps[i] == rest[i - 1]);
                    }
                }
            },
            None => {},
        }
    }
}

proof fn lemma_all_pieces_bounded(paras: Seq<Seq<char>>, k: int)
    ensures
        all_pieces(paras, k) matches Some(ps) ==> forall|i: int|
            0 <= i < ps.len() ==> byte_len(#[trigger] ps[i]) <= MAX_CHUNK,
    decreases k,
{
    if k > 0 {
        lemma_all_pieces_bounded(paras, k - 1);
        lemma_split_long_bounded(paras[k - 1]);
        match (all_pieces(paras, k - 1), split_long(paras[k - 1])) {
            (Some(a), Some(b)) => {
                assert forall|i: int| 0 <= i < (a + b).len() implies byte_len(#[trigger] (a + b)[i])
                    <= MAX_CHUNK by {
                    if i >= a.len() {
                        assert((a + b)[i] == b[i - a.len()]);
                    }
                }
            },
            _ => {},
        }
    }
}

proof fn lemma_merge_bounded(pieces: Seq<Seq<char>>, k: int)
    requires
        k <= pieces.len(),
        forall|i: int| 0 <= i < pieces.len() ==> byte_len(#[trigger] pieces[i]) <= MAX_CHUNK,
    ensures
        forall|i: int|
            0 <= i < merge_pieces(pieces, k).len() ==> byte_len(#[trigger] merge_pieces(pieces, k)[i])
                <= MAX_CHUNK,
    decreases k,
{
    if k > 0 {
        lemma_merge_bounded(pieces, k - 1);
        let m = merge_pieces(pieces, k - 1);
        let p = pieces[k - 1];
        if m.len() > 0 {
            lemma_byte_len_concat(m.last(), seq![' ']);
            lemma_byte_len_concat(m.last() + seq![' '], p);
            assert(byte_len(seq![' ']) == 1) by {
                assert(seq![' '].drop_last() =~= Seq::<char>::empty());
                assert(byte_len(Seq::<char>::empty()) == 0);
                assert(seq![' '].last() == ' ');
                assert((' ' as u32) < 0x80);
            }
        }
    }
}

proof fn lemma_drop_empty(parts: Seq<Seq<char>>)
    requires
        forall|i: int| 0 <= i < parts.len() ==> byte_len(#[trigger] parts[i]) <= MAX_CHUNK,
    ensures
        forall|i: int|
            0 <= i < drop_empty(parts).len() ==> (#[trigger] drop_empty(parts)[i]).len() > 0
                && byte_len(drop_empty(parts)[i]) <= MAX_CHUNK,
    decreases parts.len(),
{
    if parts.len() > 0 {
        assert forall|i: int| 0 <= i < parts.drop_last().len() implies byte_len(
            #[trigger] parts.drop_last()[i],
        ) <= MAX_CHUNK by {
            assert(parts.drop_last()[i] == parts[i]);
        }
        lemma_drop_empty(parts.drop_last());
        let d = drop_empty(parts.drop_last());
        if parts.last().len() > 0 {
            assert forall|i: int| 0 <= i < d.push(parts.last()).len() implies (
            #[trigger] d.push(parts.last())[i]).len() > 0 && byte_len(d.push(parts.last())[i])
                <= MAX_CHUNK by {
                if i == d.len() {
                    assert(parts.last() == parts[parts.len() - 1]);
                }
            }
        }
    }
}

/// Two neighbouring chunks that should have been joined: either is under
/// `MIN_CHUNK` bytes and the two joined by a space fit in `MAX_CHUNK`.
pub open spec fn joinable(a: Seq<char>, b: Seq<char>) -> bool {
    (byte_len(a) < MIN_CHUNK || byte_len(b) < MIN_CHUNK) && byte_len(a) + 1 + byte_len(b) <= MAX_CHUNK
}

/// In the merged pieces no small piece is left on its own after the chunk
/// before it when the two would fit together: no two neighbouring chunks are
/// joinable. This holds when either of the two is small, not only when both
/// are; a chunk that grows by joining only makes its neighbours less
/// joinable.
pub proof fn small_pieces_are_joined(pieces: Seq<Seq<char>>, k: int)
    requires
        0 <= k <= pieces.len(),
    ensures
        forall|i: int|
            1 <= i < merge_pieces(pieces, k).len() ==> !joinable(
                merge_pieces(pieces, k)[i - 1],
                #[trigger] merge_pieces(pieces, k)[i],
            ),
    decreases k,
{
    if k > 0 {
        small_pieces_are_joined(pieces, k - 1);
        let m = merge_pieces(pieces, k - 1);
        let p = pieces[k - 1];
        let r = merge_pieces(pieces, k);
        if m.len() > 0 && (byte_len(m.last()) < MIN_CHUNK || byte_len(p) < MIN_CHUNK) && byte_len(m.last())
            + byte_len(p) + 1 <= MAX_CHUNK {
            let n = m.len() - 1;
            let grown = m.last() + seq![' '] + p;
            lemma_byte_len_concat(m.last() + seq![' '], p);
            lemma_byte_len_concat(m.last(), seq![' ']);
            assert(byte_len(grown) >= byte_len(m.last()));
            assert forall|i: int| 1 <= i < r.len() implies !joinable(r[i - 1], #[trigger] r[i]) by {
                if i < n {
                    assert(r[i - 1] == m[i - 1] && r[i] == m[i]);
                } else {
                    assert(r[i - 1] == m[i - 1]);
                    assert(r[i] == grown);
                    assert(!joinable(m[i - 1], m[i]));
                }
            }
        } else {
            assert forall|i: int| 1 <= i < r.len() implies !joinable(r[i - 1], #[trigger] r[i]) by {
                if i < m.len() {
                    assert(r[i - 1] == m[i - 1] && r[i] == m[i]);
                } else {
                    assert(r[i - 1] == m.last() && r[i] == p);
                }
            }
        }
    }
}

/// Merging loses, adds and reorders nothing: the merged chunks joined by
/// spaces are the pieces joined by spaces.
pub proof fn merging_keeps_the_text(pieces: Seq<Seq<char>>, k: int)
    requires
        0 <= k <= pieces.len(),
    ensures
        join(merge_pieces(pieces, k), seq![' ']) == join(pieces.take(k), seq![' ']),
        k > 0 ==> merge_pieces(pieces, k).len() > 0,
    decreases k,
{
    if k > 0 {
        merging_keeps_the_text(pieces, k - 1);
        let m = merge_pieces(pieces, k - 1);
        let p = pieces[k - 1];
        let r = merge_pieces(pieces, k);
        let sp = seq![' '];
        let t = pieces.take(k);
        assert(t.drop_last() =~= pieces.take(k - 1));
        assert(t.last() == p);
        if m.len() > 0 && (byte_len(m.last()) < MIN_CHUNK || byte_len(p) < MIN_CHUNK) && byte_len(m.last())
            + byte_len(p) + 1 <= MAX_CHUNK {
            assert(k >= 2);
            if m.len() == 1 {
                assert(r.len() == 1);
                assert(join(r, sp) == r[0]);
                assert(join(m, sp) == m[0]);
                assert(r[0] =~= m[0] + sp + p);
            } else {
                assert(r.drop_last() =~= m.drop_last());
                assert(join(r, sp) == join(m.drop_last(), sp) + sp + r.last());
                assert(join(r, sp) =~= join(m, sp) + sp + p);
            }
        } else {
            if m.len() == 0 {
                assert(k == 1);
                assert(r =~= seq![p]);
                assert(t =~= seq![p]);
            } else {
                assert(r.drop_last() =~= m);
                assert(k >= 2);
            }
        }
    }
}

/// Pieces that are all at least `MIN_CHUNK` bytes are never joined: each
/// stays a chunk of its own.
pub proof fn large_pieces_stay_apart(pieces: Seq<Seq<char>>, k: int)
    requires
        0 <= k <= pieces.len(),
        forall|i: int| 0 <= i < pieces.len() ==> byte_len(#[trigger] pieces[i]) >= MIN_CHUNK,
    ensures
        merge_pieces(pieces, k) == pieces.take(k),
    decreases k,
{
    if k > 0 {
        large_pieces_stay_apart(pieces, k - 1);
        let m = merge_pieces(pieces, k - 1);
        if m.len() > 0 {
            assert(m.last() == pieces[k - 2]);
        }
        assert(pieces.take(k - 1).push(pieces[k - 1]) =~= pieces.take(k));
    }
}

/// Every text can be chunked: a cut at the byte limit that would fall
/// inside a character moves back to the character's start.
pub proof fn text_chunks_some(content: Seq<char>)
    ensures
        text_chunks(content) is Some,
{
    let paras = paragraphs(content);
    lemma_all_pieces_some(paras, paras.len() as int);
}

/// Every chunk of a text is non-empty and at most `MAX_CHUNK` bytes long.
pub proof fn chunks_within_limit(content: Seq<char>)
    ensures
        forall|i: int|
            0 <= i < text_chunks(content).unwrap().len() ==> (
            #[trigger] text_chunks(content).unwrap()[i]).len() > 0 && byte_len(
                text_chunks(content).unwrap()[i],
            ) <= MAX_CHUNK,
{
    let paras = paragraphs(content);
    text_chunks_some(content);
    lemma_all_pieces_bounded(paras, paras.len() as int);
    let ps = all_pieces(paras, paras.len() as int).unwrap();
    lemma_merge_bounded(ps, ps.len() as int);
    lemma_drop_empty(merge_pieces(ps, ps.len() as int));
}


// ───────────────────────── nodes and edges ─────────────────────────

/// The chunk nodes of the first `k` chunks, chunk `j` (from 0) with id
/// `doc_id + 1 + j`, each under the document.
pub open spec fn prose_chunk_nodes(chunks: Seq<Seq<char>>, doc_id: u64, k: int) -> Seq<NodeModel>
    decreases k,
{
    if k <= 0 {
        Seq::empty()
    } else {
        let id = (doc_id + k) as u64;
        prose_chunk_nodes(chunks, doc_id, k - 1).push(
            chunk_node(id, chunk_name(id), chunks[k - 1], doc_id),
        )
    }
}

/// The edges of the first `k` chunks: the document contains each, and each
/// follows the one before.
pub open spec fn prose_chunk_edges(doc_id: u64, k: int) -> Seq<EdgeModel>
    decreases k,
{
    if k <= 0 {
        Seq::empty()
    } else {
        let id = (doc_id + k) as u64;
        let here = seq![plain(doc_id, id, EdgeKind::Contains)];
        let follows = if k > 1 {
            seq![plain((id - 1) as u64, id, EdgeKind::Follows)]
        } else {
            Seq::empty()
        };
        prose_chunk_edges(doc_id, k - 1) + here + follows
    }
}

/// The nodes of a plain-text file: the document, then one node per chunk.
pub open spec fn plaintext_nodes(name: Seq<char>, path: Seq<char>, content: Seq<char>, doc_id: u64) -> Seq<NodeModel> {
    let chunks = text_chunks(content).unwrap();
    seq![document_node(doc_id, name, path, ContentKind::PlainText, Some(name), content)]
        + prose_chunk_nodes(chunks, doc_id, chunks.len() as int)
}

/// Extracts a plain-text file into a document node and a chunk node per
/// chunk, chained by `Follows` edges. Ids are taken from `next_id` on.
pub fn extract(path: &str, content: &str, next_id: &mut u64) -> (r: (Vec<Node>, Vec<Edge>))
    requires
        text_chunks(content@) is Some,
        *old(next_id) + 1 + text_chunks(content@).unwrap().len() <= u64::MAX,
    ensures
        node_views(r.0@) == plaintext_nodes(path_file_name(path@), path@, content@, *old(next_id)),
        edge_views(r.1@) == prose_chunk_edges(
            *old(next_id),
            text_chunks(content@).unwrap().len() as int,
        ),
        *final(next_id) == *old(next_id) + 1 + text_chunks(content@).unwrap().len(),
{
    let doc_id = *next_id;
    let file_name = file_name_of(path);
    let doc = make_document_node(
        doc_id,
        file_name.clone(),
        path,
        ContentType::PlainText,
        Some(file_name),
        content,
    );
    let chunks = chunk_text(content);
    let ghost cs = text_chunks(content@).unwrap();
    let ghost dn = doc@;
    let mut nodes: Vec<Node> = Vec::new();
    let mut edges: Vec<Edge> = Vec::new();
    nodes.push(doc);
    let mut i: usize = 0;
    while i < chunks.len()
        invariant
            string_views(chunks@) == cs,
            i <= chunks.len(),
            doc_id + 1 + chunks.len() <= u64::MAX,
            node_views(nodes@) == seq![dn] + prose_chunk_nodes(cs, doc_id, i as int),
            edge_views(edges@) == prose_chunk_edges(doc_id, i as int),
        decreases chunks.len() - i,
    {
        let id = doc_id + 1 + (i as u64);
        proof {
            assert(cs[i as int] == chunks@[i as int]@);
        }
        let ghost nv = node_views(nodes@);
        let cn = make_chunk_node(id, numbered_name("chunk_", id), chunks[i].clone(), doc_id);
        nodes.push(cn);
        edges.push(plain_edge(doc_id, id, EdgeKind::Contains));
        if i > 0 {
            edges.push(plain_edge(id - 1, id, EdgeKind::Follows));
        }
        proof {
            assert(node_views(nodes@) =~= nv.push(cn@));
            assert(node_views(nodes@) =~= seq![dn] + prose_chunk_nodes(cs, doc_id, i + 1));
            assert(edge_views(edges@) =~= prose_chunk_edges(doc_id, i + 1));
        }
        i += 1;
    }
    *next_id = doc_id + 1 + (chunks.len() as u64);
    (nodes, edges)
}


/// The nodes, edges and next free id of a plain-text file, or `None` where
/// it cannot be built: a cut would fall inside a character, or the ids run out.
pub open spec fn plaintext_graph(path: Seq<char>, content: Seq<char>, doc_id: u64) -> Option<
    (Seq<NodeModel>, Seq<EdgeModel>, int),
> {
    match text_chunks(content) {
        None => None,
        Some(c) => if doc_id + 1 + c.len() <= u64::MAX {
            Some(
                (
                    plaintext_nodes(path_file_name(path), path, content, doc_id),
                    prose_chunk_edges(doc_id, c.len() as int),
                    doc_id + 1 + c.len(),
                ),
            )
        } else {
            None
        },
    }
}

/// Extracts a plain-text file (see `extract`), or `None` (with `next_id`
/// unchanged) where it cannot be built.
pub fn try_extract(path: &str, content: &str, next_id: &mut u64) -> (r: Option<(Vec<Node>, Vec<Edge>)>)
    ensures
        match plaintext_graph(path@, content@, *old(next_id)) {
            Some((n, e, next)) => r matches Some((a, b)) && node_views(a@) == n && edge_views(b@)
                == e && *final(next_id) == next,
            None => r is None && *final(next_id) == *old(next_id),
        },
{
    match try_chunk_text(content) {
        None => None,
        Some(chunks) => {
            if *next_id as u128 + 1 + chunks.len() as u128 > u64::MAX as u128 {
                return None;
            }
            Some(extract(path, content, next_id))
        },
    }
}

} // verus!
