//! Search result snippets: a window of about 300 bytes around the first
//! query term found in a text, cut at spaces.
use vstd::prelude::*;
use crate::ingest::plaintext::{last_space, lemma_char_index_at_byte};
use crate::text::{
    byte_len, char_index_at_byte, char_index_of_byte, chars_of, chars_reaching, chars_reaching_bytes,
    chars_within, chars_within_bytes, concat, find_byte, find_byte_of,
    find_from, lemma_char_index_in_range, lowercase, replace_char, replace_chars, slice_chars, str_bytes, string_of, to_lowercase,
    trim, trim_chars, views, words, words_of,
};

verus! {

broadcast use vstd::string::group_string_axioms;

/// The width of a snippet's window, in bytes.
pub const WINDOW: usize = 300;

/// The search terms of a query: its words lowercased, those longer than one
/// byte, the first `k` words considered.
pub open spec fn snippet_terms(ws: Seq<Seq<char>>, k: int) -> Seq<Seq<char>>
    decreases k,
{
    if k <= 0 {
        Seq::empty()
    } else {
        let prev = snippet_terms(ws, k - 1);
        let t = lowercase(ws[k - 1]);
        if byte_len(t) > 1 {
            prev.push(t)
        } else {
            prev
        }
    }
}

/// The least byte offset at which one of the first `k` terms occurs in `hay`.
pub open spec fn first_match(hay: Seq<char>, terms: Seq<Seq<char>>, k: int) -> Option<int>
    decreases k,
{
    if k <= 0 {
        None
    } else {
        let prev = first_match(hay, terms, k - 1);
        match (prev, find_byte(hay, terms[k - 1])) {
            (Some(a), Some(b)) => Some(if b < a {
                b
            } else {
                a
            }),
            (Some(a), None) => Some(a),
            (None, Some(b)) => Some(b),
            (None, None) => None,
        }
    }
}

/// `"..."` where text was left out, else nothing.
pub open spec fn ellipsis(cut: bool) -> Seq<char> {
    if cut {
        "..."@
    } else {
        Seq::empty()
    }
}

/// The snippet for the characters `s..e` of `content`: trimmed, with `...`
/// on each side where text was left out (a start past the end is taken as
/// the end).
pub open spec fn window_text(content: Seq<char>, s: int, e: int) -> Seq<char> {
    let s1 = if s <= e {
        s
    } else {
        e
    };
    ellipsis(s1 > 0) + trim(content.subrange(s1, e)) + ellipsis(e < content.len())
}

/// The end of a window moved back to the last space before character `e`
/// (when text follows it).
pub open spec fn snap_end(content: Seq<char>, e: int) -> int {
    if e < content.len() {
        match last_space(content, e) {
            Some(i) => i,
            None => e,
        }
    } else {
        content.len() as int
    }
}

/// The snippet of `content` for `query`.
///
/// Around the first term found (in the lowercased text), at character `m`:
/// from 150 bytes before it to 150 after, each cut moved to a character
/// boundary (the start back, the end forward); the start then moved back
/// one more character and forward past the next space, and the end back to
/// the last space, each only where that keeps the term in the window.
/// With no term found: the first 300 bytes, less the character that reaches
/// the limit, cut at the last space.
pub open spec fn snippet(content: Seq<char>, query: Seq<char>) -> Seq<char> {
    let ws = words(query);
    let terms = snippet_terms(ws, ws.len() as int);
    let len = byte_len(content) as int;
    match first_match(lowercase(content), terms, terms.len() as int) {
        Some(pos) => {
            let rs = if pos >= 150 {
                pos - 150
            } else {
                0
            };
            let re = if pos + 150 < len {
                pos + 150
            } else {
                len
            };
            let a = chars_within(content, rs);
            let b = chars_reaching(content, re);
            let m = chars_within(content, pos);
            let s0 = if a > 0 {
                a - 1
            } else {
                0
            };
            let s = if s0 > 0 {
                match find_from(content, seq![' '], s0) {
                    Some(i) => if i < m {
                        i + 1
                    } else {
                        s0
                    },
                    None => s0,
                }
            } else {
                0
            };
            let e = if b < content.len() {
                match last_space(content, b) {
                    Some(i) => if i > m {
                        i
                    } else {
                        b
                    },
                    None => b,
                }
            } else {
                content.len() as int
            };
            window_text(content, s, e)
        },
        None => if len > WINDOW {
            let k = chars_within(content, WINDOW as int);
            window_text(content, 0, snap_end(content, k - 1))
        } else {
            window_text(content, 0, content.len() as int)
        },
    }
}

fn terms_of(query: &str) -> (r: Vec<Vec<char>>)
    ensures
        views(r@) == snippet_terms(words(query@), words(query@).len() as int),
{
    let ws = words_of(&chars_of(query));
    let mut out: Vec<Vec<char>> = Vec::new();
    let mut i: usize = 0;
    while i < ws.len()
        invariant
            i <= ws.len(),
            views(ws@) == words(query@),
            views(out@) == snippet_terms(words(query@), i as int),
        decreases ws.len() - i,
    {
        proof {
            assert(views(ws@)[i as int] == ws@[i as int]@);
        }
        let l = to_lowercase(string_of(&ws[i]).as_str());
        if str_bytes(l.as_str()) > 1 {
            let ghost before = views(out@);
            let lc = chars_of(l.as_str());
            out.push(lc);
            proof {
                assert(views(out@) =~= before.push(lc@));
            }
        }
        i += 1;
    }
    out
}

fn space_from(s: &Vec<char>, i: usize) -> (r: Option<usize>)
    requires
        i <= s.len(),
    ensures
        match find_from(s@, seq![' '], i as int) {
            Some(j) => r matches Some(x) && x as int == j && j < s.len(),
            None => r is None,
        },
{
    proof {
        crate::text::lemma_find_from(s@, seq![' '], i as int);
    }
    let mut j: usize = i;
    while j < s.len()
        invariant
            i <= j <= s.len(),
            find_from(s@, seq![' '], i as int) == find_from(s@, seq![' '], j as int),
        decreases s.len() - j,
    {
        proof {
            assert(s@.subrange(j as int, j + 1) =~= seq![s@[j as int]]);
            assert(seq![' '][0] == ' ');
            assert(seq![s@[j as int]][0] == s@[j as int]);
        }
        if s[j] == ' ' {
            return Some(j);
        }
        j += 1;
    }
    None
}

fn last_space_before(s: &Vec<char>, k: usize) -> (r: Option<usize>)
    requires
        k <= s.len(),
    ensures
        match last_space(s@, k as int) {
            Some(q) => r == Some(q as usize),
            None => r is None,
        },
{
    let mut j: usize = k;
    while j >= 1
        invariant
            j <= k <= s.len(),
            last_space(s@, k as int) == last_space(s@, j as int),
        decreases j,
    {
        if s[j - 1] == ' ' {
            return Some(j - 1);
        }
        j -= 1;
    }
    None
}

fn snap_end_of(content: &Vec<char>, e: usize) -> (r: usize)
    requires
        e <= content.len(),
    ensures
        r == snap_end(content@, e as int),
        r <= content.len(),
{
    proof {
        crate::ingest::plaintext::lemma_last_space(content@, e as int);
    }
    if e < content.len() {
        match last_space_before(content, e) {
            Some(i) => i,
            None => e,
        }
    } else {
        content.len()
    }
}

fn snippet_from(content: &Vec<char>, s: usize, e: usize) -> (r: String)
    requires
        e <= content.len(),
    ensures
        r@ == window_text(content@, s as int, e as int),
{
    let s1 = if s <= e {
        s
    } else {
        e
    };
    let body = trim_chars(&slice_chars(content, s1, e));
    let mut out: Vec<char> = Vec::new();
    if s1 > 0 {
        out = chars_of("...");
    }
    out = concat(&out, &body);
    if e < content.len() {
        out = concat(&out, &chars_of("..."));
    }
    proof {
        assert(out@ =~= ellipsis(s1 > 0) + trim(content@.subrange(s1 as int, e as int)) + ellipsis(
            e < content.len(),
        ));
    }
    string_of(&out)
}

/// A snippet of `content` around the first term of `query` it holds (see
/// `snippet`).
pub fn make_snippet(content: &str, query: &str) -> (r: String)
    ensures
        r@ == snippet(content@, query@),
{
    let cs = chars_of(content);
    let len = str_bytes(content);
    let lower_s = to_lowercase(content);
    let lower = chars_of(lower_s.as_str());
    let lower_len = str_bytes(lower_s.as_str());
    let terms = terms_of(query);
    let ghost tv = snippet_terms(words(query@), words(query@).len() as int);
    let mut best: Option<usize> = None;
    let mut k: usize = 0;
    while k < terms.len()
        invariant
            k <= terms.len(),
            views(terms@) == tv,
            lower@ == lowercase(content@),
            lower_len == byte_len(lower@),
            match first_match(lower@, tv, k as int) {
                Some(p) => best matches Some(x) && x as int == p,
                None => best is None,
            },
        decreases terms.len() - k,
    {
        proof {
            assert(tv[k as int] == terms@[k as int]@);
        }
        let found = find_byte_of(&lower, &terms[k]);
        best = match (best, found) {
            (Some(a), Some(b)) => Some(
                if b < a {
                    b
                } else {
                    a
                },
            ),
            (Some(a), None) => Some(a),
            (None, Some(b)) => Some(b),
            (None, None) => None,
        };
        k += 1;
    }
    proof {
        assert(views(terms@).len() == terms.len());
        let ws = words(query@);
        assert(snippet_terms(ws, ws.len() as int) == tv);
    }
    match best {
        Some(pos) => {
            let rs: usize = if pos >= 150 {
                pos - 150
            } else {
                0
            };
            let re: usize = if pos < len && len - pos > 150 {
                pos + 150
            } else {
                len
            };
            let a = chars_within_bytes(&cs, rs);
            let b = chars_reaching_bytes(&cs, re);
            let m = chars_within_bytes(&cs, pos);
            let s0: usize = if a > 0 {
                a - 1
            } else {
                0
            };
            let s: usize = if s0 > 0 {
                match space_from(&cs, s0) {
                    Some(i) => if i < m {
                        i + 1
                    } else {
                        s0
                    },
                    None => s0,
                }
            } else {
                0
            };
            proof {
                crate::ingest::plaintext::lemma_last_space(cs@, b as int);
            }
            let e: usize = if b < cs.len() {
                match last_space_before(&cs, b) {
                    Some(i) => if i > m {
                        i
                    } else {
                        b
                    },
                    None => b,
                }
            } else {
                cs.len()
            };
            snippet_from(&cs, s, e)
        },
        None => {
            if len > WINDOW {
                let k = chars_within_bytes(&cs, WINDOW);
                proof {
                    crate::text::lemma_byte_len_mono(content@, 0, 0);
                    assert(content@.take(content@.len() as int) =~= content@);
                    if k == 0 {
                        crate::text::lemma_byte_len_take(content@, 0);
                        assert(content@.take(0) =~= Seq::<char>::empty());
                    }
                }
                let e = snap_end_of(&cs, k - 1);
                snippet_from(&cs, 0, e)
            } else {
                snippet_from(&cs, 0, cs.len())
            }
        },
    }
}


// ───────────────────────── one-line listings and queries ─────────────────────────

/// A snippet shown on one line: line breaks become spaces, and a text longer
/// than `max_len` characters is cut to them, with `...` after.
pub open spec fn one_line_snippet(s: Seq<char>, max_len: int) -> Seq<char> {
    let t = replace_char(s, '\n', seq![' ']);
    if t.len() > max_len {
        t.take(max_len) + "..."@
    } else {
        t
    }
}

/// A snippet fitted to one line of a listing (see `one_line_snippet`).
pub fn truncate_snippet(s: &str, max_len: usize) -> (r: String)
    ensures
        r@ == one_line_snippet(s@, max_len as int),
{
    let mut sp: Vec<char> = Vec::new();
    sp.push(' ');
    proof {
        assert(sp@ =~= seq![' ']);
    }
    let t = replace_chars(&chars_of(s), '\n', &sp);
    if t.len() > max_len {
        let head = slice_chars(&t, 0, max_len);
        let out = concat(&head, &chars_of("..."));
        proof {
            assert(t@.subrange(0, max_len as int) =~= t@.take(max_len as int));
        }
        string_of(&out)
    } else {
        string_of(&t)
    }
}

/// A query with each `(`, `)`, `[` and `]` escaped by a backslash, for the
/// index's query reader to try again where it refused the query.
pub open spec fn escaped_query(q: Seq<char>) -> Seq<char> {
    replace_char(
        replace_char(replace_char(replace_char(q, '(', "\\("@), ')', "\\)"@), '[', "\\["@),
        ']',
        "\\]"@,
    )
}

/// A query with its brackets escaped (see `escaped_query`).
pub fn escape_query(q: &str) -> (r: String)
    ensures
        r@ == escaped_query(q@),
{
    let a = replace_chars(&chars_of(q), '(', &chars_of("\\("));
    let b = replace_chars(&a, ')', &chars_of("\\)"));
    let c = replace_chars(&b, '[', &chars_of("\\["));
    let d = replace_chars(&c, ']', &chars_of("\\]"));
    string_of(&d)
}

} // verus!
