//! Text from HTML: tags are dropped, `script`, `style` and `noscript` blocks
//! are removed whole, block elements become line breaks, the common character
//! entities are decoded, and runs of blank lines collapse to one.
use vstd::prelude::*;
use vstd::utf8::{decode_utf8, valid_utf8};
use crate::text::{
    char_is_ws, chars_eq, chars_of, first_word, first_word_of, is_ws, join, lines, lines_of,
    lower_chars, lowercase, trim_start_char, trim_start_matching, lemma_split_on_nonempty,
    lemma_trim_sub, split_on, trim_start,
    matches_at, occurs_at, starts_with, string_of, trim, trim_chars, views, words, words_of,
};

verus! {

broadcast use vstd::string::group_string_axioms;

/// What `String::from_utf8_lossy` gives for a byte sequence.
pub uninterp spec fn lossy_text(bytes: Seq<u8>) -> Seq<char>;

/// `String::from_utf8_lossy`: the text of `bytes`, each invalid UTF-8
/// sequence replaced by U+FFFD. The contract names the result and states
/// the documented case that valid UTF-8 is decoded unchanged; how invalid
/// sequences are grouped into replacement characters is left unsaid.
#[verifier::external_body]
pub(crate) fn from_utf8_lossy(bytes: &[u8]) -> (r: String)
    ensures
        r@ == lossy_text(bytes@),
        valid_utf8(bytes@) ==> r@ == decode_utf8(bytes@),
{
    String::from_utf8_lossy(bytes).into_owned()
}

pub const SKIP_TAG_COUNT: usize = 3;

/// The elements whose content is dropped.
pub open spec fn skip_tag(i: int) -> Seq<char> {
    if i == 0 {
        "script"@
    } else if i == 1 {
        "style"@
    } else if i == 2 {
        "noscript"@
    } else {
        Seq::empty()
    }
}

fn skip_tag_at(i: usize) -> (r: &'static str)
    requires
        i < SKIP_TAG_COUNT,
    ensures
        r@ == skip_tag(i as int),
{
    match i {
        0 => "script",
        1 => "style",
        2 => "noscript",
        _ => "noscript",
    }
}

pub const BLOCK_TAG_COUNT: usize = 21;

/// The elements that start a new line.
pub open spec fn block_tag(i: int) -> Seq<char> {
    if i == 0 {
        "p"@
    } else if i == 1 {
        "div"@
    } else if i == 2 {
        "br"@
    } else if i == 3 {
        "h1"@
    } else if i == 4 {
        "h2"@
    } else if i == 5 {
        "h3"@
    } else if i == 6 {
        "h4"@
    } else if i == 7 {
        "h5"@
    } else if i == 8 {
        "h6"@
    } else if i == 9 {
        "li"@
    } else if i == 10 {
        "tr"@
    } else if i == 11 {
        "blockquote"@
    } else if i == 12 {
        "pre"@
    } else if i == 13 {
        "section"@
    } else if i == 14 {
        "article"@
    } else if i == 15 {
        "header"@
    } else if i == 16 {
        "footer"@
    } else if i == 17 {
        "nav"@
    } else if i == 18 {
        "table"@
    } else if i == 19 {
        "ul"@
    } else if i == 20 {
        "ol"@
    } else {
        Seq::empty()
    }
}

fn block_tag_at(i: usize) -> (r: &'static str)
    requires
        i < BLOCK_TAG_COUNT,
    ensures
        r@ == block_tag(i as int),
{
    match i {
        0 => "p",
        1 => "div",
        2 => "br",
        3 => "h1",
        4 => "h2",
        5 => "h3",
        6 => "h4",
        7 => "h5",
        8 => "h6",
        9 => "li",
        10 => "tr",
        11 => "blockquote",
        12 => "pre",
        13 => "section",
        14 => "article",
        15 => "header",
        16 => "footer",
        17 => "nav",
        18 => "table",
        19 => "ul",
        20 => "ol",
        _ => "ol",
    }
}

/// `name` is one of the elements whose content is dropped.
pub open spec fn is_skip_tag(name: Seq<char>) -> bool {
    exists|k: int| 0 <= k < SKIP_TAG_COUNT && name == skip_tag(k)
}

/// `name` is one of the elements that start a new line.
pub open spec fn is_block_tag(name: Seq<char>) -> bool {
    exists|k: int| 0 <= k < BLOCK_TAG_COUNT && name == block_tag(k)
}

fn skip_tag_test(name: &Vec<char>) -> (r: bool)
    ensures
        r == is_skip_tag(name@),
{
    let mut k: usize = 0;
    while k < SKIP_TAG_COUNT
        invariant
            k <= SKIP_TAG_COUNT,
            forall|j: int| 0 <= j < k ==> name@ != skip_tag(j),
        decreases SKIP_TAG_COUNT - k,
    {
        let t = chars_of(skip_tag_at(k));
        if chars_eq(name, &t) {
            return true;
        }
        k += 1;
    }
    false
}

fn block_tag_test(name: &Vec<char>) -> (r: bool)
    ensures
        r == is_block_tag(name@),
{
    let mut k: usize = 0;
    while k < BLOCK_TAG_COUNT
        invariant
            k <= BLOCK_TAG_COUNT,
            forall|j: int| 0 <= j < k ==> name@ != block_tag(j),
        decreases BLOCK_TAG_COUNT - k,
    {
        let t = chars_of(block_tag_at(k));
        if chars_eq(name, &t) {
            return true;
        }
        k += 1;
    }
    false
}

/// The element name of collected tag text: lowercased, leading slashes
/// removed, up to the first whitespace.
pub open spec fn element_name(tag: Seq<char>) -> Seq<char> {
    first_word(trim_start_char(lowercase(tag), '/'))
}

/// The tag text closes an element (it starts with `/`).
pub open spec fn is_closing(tag: Seq<char>) -> bool {
    lowercase(tag).len() > 0 && lowercase(tag)[0] == '/'
}

/// The state of the scan over HTML text.
pub ghost struct TagScan {
    pub in_tag: bool,
    pub in_skip: bool,
    pub tag: Seq<char>,
    pub collecting: bool,
    pub out: Seq<char>,
}

/// The scan's state at the start.
pub open spec fn scan_start() -> TagScan {
    TagScan { in_tag: false, in_skip: false, tag: Seq::empty(), collecting: false, out: Seq::empty() }
}

/// The state with `out` replaced.
pub open spec fn with_out(st: TagScan, out: Seq<char>) -> TagScan {
    TagScan { in_tag: st.in_tag, in_skip: st.in_skip, tag: st.tag, collecting: st.collecting, out }
}

/// The text that the scan of `cs` from index `i` in state `st` outputs: a `<`
/// opens a tag (also inside one); tag text is collected up to and including
/// its first space, tab or newline; at `>` the element name decides whether a
/// skipped block opens or closes and whether a line break is output; outside
/// tags and skipped blocks the entities `&amp;`, `&lt;`, `&gt;`, `&quot;`,
/// `&apos;` and `&nbsp;` are decoded and every other character is kept.
pub open spec fn scan(cs: Seq<char>, i: int, st: TagScan) -> Seq<char>
    decreases cs.len() + 6 - i,
{
    if i < 0 || i >= cs.len() {
        st.out
    } else {
        let ch = cs[i];
        if ch == '<' {
            scan(cs, i + 1, TagScan { in_tag: true, in_skip: st.in_skip, tag: Seq::empty(), collecting: true, out: st.out })
        } else if st.in_tag {
            if ch == '>' {
                let name = element_name(st.tag);
                let in_skip = if is_skip_tag(name) { !is_closing(st.tag) } else { st.in_skip };
                let out = if is_block_tag(name) { st.out.push('\n') } else { st.out };
                scan(cs, i + 1, TagScan { in_tag: false, in_skip, tag: st.tag, collecting: false, out })
            } else if st.collecting {
                let collecting = !(ch == ' ' || ch == '\t' || ch == '\n');
                scan(cs, i + 1, TagScan { in_tag: true, in_skip: st.in_skip, tag: st.tag.push(ch), collecting, out: st.out })
            } else {
                scan(cs, i + 1, st)
            }
        } else if st.in_skip {
            scan(cs, i + 1, st)
        } else if ch == '&' {
            if occurs_at(cs, "&amp;"@, i) {
                scan(cs, i + 5, with_out(st, st.out.push('&')))
            } else if occurs_at(cs, "&lt;"@, i) {
                scan(cs, i + 4, with_out(st, st.out.push('<')))
            } else if occurs_at(cs, "&gt;"@, i) {
                scan(cs, i + 4, with_out(st, st.out.push('>')))
            } else if occurs_at(cs, "&quot;"@, i) {
                scan(cs, i + 6, with_out(st, st.out.push('"')))
            } else if occurs_at(cs, "&apos;"@, i) {
                scan(cs, i + 6, with_out(st, st.out.push('\'')))
            } else if occurs_at(cs, "&nbsp;"@, i) {
                scan(cs, i + 6, with_out(st, st.out.push(' ')))
            } else {
                scan(cs, i + 1, with_out(st, st.out.push('&')))
            }
        } else {
            scan(cs, i + 1, with_out(st, st.out.push(ch)))
        }
    }
}

/// The lines of text folded from index `k` on: blank lines (after trimming)
/// are dropped, other lines are kept trimmed, each followed by a line break
/// and separated from an earlier line by one blank line when blank lines
/// came between.
pub open spec fn collapse_from(ls: Seq<Seq<char>>, k: int, out: Seq<char>, blank: nat) -> Seq<char>
    decreases ls.len() - k,
{
    if k < 0 || k >= ls.len() {
        out
    } else {
        let t = trim(ls[k]);
        if t.len() == 0 {
            collapse_from(ls, k + 1, out, blank + 1)
        } else {
            let o = if blank > 0 && out.len() > 0 { out.push('\n') } else { out };
            collapse_from(ls, k + 1, o + t + seq!['\n'], 0)
        }
    }
}

/// Text with lines trimmed and runs of blank lines collapsed, trimmed as a whole.
pub open spec fn collapsed(s: Seq<char>) -> Seq<char> {
    trim(collapse_from(lines(s), 0, Seq::empty(), 0))
}

/// Three line breaks in a row start at index `i` of `s`.
pub open spec fn breaks_at(s: Seq<char>, i: int) -> bool {
    s[i] == '\n' && s[i + 1] == '\n' && s[i + 2] == '\n'
}

/// `s` never has two blank lines in a row: no three line breaks follow one another.
pub open spec fn no_blank_run(s: Seq<char>) -> bool {
    forall|i: int| 0 <= i && i + 2 < s.len() ==> !#[trigger] breaks_at(s, i)
}

/// Folded output so far: no blank run, and empty or ending in a line
/// break that follows a character of text.
spec fn folded_ok(out: Seq<char>) -> bool {
    &&& no_blank_run(out)
    &&& out.len() > 0 ==> out.len() >= 2 && out.last() == '\n' && out[out.len() - 2] != '\n'
}

/// No piece of `split_on(s, sep)` holds `sep`.
proof fn lemma_split_pieces(s: Seq<char>, sep: char)
    ensures
        forall|k: int, j: int|
            0 <= k < split_on(s, sep).len() && 0 <= j < split_on(s, sep)[k].len()
                ==> #[trigger] split_on(s, sep)[k][j] != sep,
    decreases s.len(),
{
    if s.len() > 0 {
        lemma_split_pieces(s.drop_last(), sep);
        lemma_split_on_nonempty(s.drop_last(), sep);
        let init = split_on(s.drop_last(), sep);
        if s.last() != sep {
            let n = init.len() - 1;
            assert forall|k: int, j: int|
                0 <= k < split_on(s, sep).len() && 0 <= j < split_on(s, sep)[k].len()
                    implies #[trigger] split_on(s, sep)[k][j] != sep by {
                if k == n && j == init[n].len() {
                } else if k == n {
                    assert(split_on(s, sep)[k][j] == init[n][j]);
                } else {
                    assert(split_on(s, sep)[k] == init[k]);
                }
            }
        } else {
            assert forall|k: int, j: int|
                0 <= k < split_on(s, sep).len() && 0 <= j < split_on(s, sep)[k].len()
                    implies #[trigger] split_on(s, sep)[k][j] != sep by {
                assert(split_on(s, sep)[k] == init.push(Seq::<char>::empty())[k]);
            }
        }
    }
}

/// No line of `s` holds a line break.
proof fn lemma_lines_unbroken(s: Seq<char>)
    ensures
        forall|k: int, j: int|
            0 <= k < lines(s).len() && 0 <= j < lines(s)[k].len() ==> #[trigger] lines(s)[k][j]
                != '\n',
{
    let p = split_on(s, '\n');
    lemma_split_pieces(s, '\n');
    lemma_split_on_nonempty(s, '\n');
    assert forall|k: int, j: int| 0 <= k < lines(s).len() && 0 <= j < lines(s)[k].len() implies
        #[trigger] lines(s)[k][j] != '\n' by {
        if k + 1 < p.len() && p[k].len() > 0 && p[k].last() == '\r' {
            assert(lines(s)[k][j] == p[k][j]);
        } else {
            assert(lines(s)[k] == p[k]);
        }
    }
}

/// Folding lines without line breaks into folded output keeps it free of blank runs.
proof fn lemma_collapse_from_ok(ls: Seq<Seq<char>>, k: int, out: Seq<char>, blank: nat)
    requires
        0 <= k,
        forall|a: int, j: int| 0 <= a < ls.len() && 0 <= j < ls[a].len() ==> #[trigger] ls[a][j] != '\n',
        folded_ok(out),
    ensures
        no_blank_run(collapse_from(ls, k, out, blank)),
    decreases ls.len() - k,
{
    if k < ls.len() {
        let t = trim(ls[k]);
        if t.len() == 0 {
            lemma_collapse_from_ok(ls, k + 1, out, blank + 1);
        } else {
            lemma_trim_sub(ls[k]);
            let a = ls[k].len() - trim_start(ls[k]).len();
            assert forall|j: int| 0 <= j < t.len() implies t[j] != '\n' by {
                assert(t[j] == ls[k][a + j]);
            }
            let o = if blank > 0 && out.len() > 0 { out.push('\n') } else { out };
            assert(no_blank_run(o)) by {
                assert forall|i: int| 0 <= i && i + 2 < o.len() implies !#[trigger] breaks_at(o, i) by {
                    if i + 2 < out.len() {
                        assert(breaks_at(out, i) == breaks_at(o, i));
                    } else {
                        assert(o[i] == out[out.len() - 2]);
                    }
                }
            }
            let n = o + t + seq!['\n'];
            assert(folded_ok(n)) by {
                assert forall|i: int| 0 <= i && i + 2 < n.len() implies !#[trigger] breaks_at(n, i) by {
                    if i + 2 < o.len() {
                        assert(breaks_at(o, i) == breaks_at(n, i));
                    } else if i >= o.len() {
                        assert(n[i] == t[i - o.len()]);
                    } else {
                        assert(n[o.len() as int] == t[0]);
                    }
                }
                assert(n[n.len() - 2] == t[t.len() - 1]);
            }
            lemma_collapse_from_ok(ls, k + 1, n, 0);
        }
    }
}

/// Collapsed text never keeps two blank lines in a row: whatever the input,
/// no three line breaks follow one another in it.
pub proof fn collapsed_has_no_blank_run(s: Seq<char>)
    ensures
        no_blank_run(collapsed(s)),
{
    let r = collapse_from(lines(s), 0, Seq::empty(), 0);
    lemma_lines_unbroken(s);
    lemma_collapse_from_ok(lines(s), 0, Seq::empty(), 0);
    lemma_trim_sub(r);
    let a = r.len() - trim_start(r).len();
    let c = collapsed(s);
    assert forall|i: int| 0 <= i && i + 2 < c.len() implies !#[trigger] breaks_at(c, i) by {
        assert(breaks_at(c, i) == breaks_at(r, a + i));
    }
}

// ───────────────────────── skipped elements ─────────────────────────

/// `t` can stand as the whole text of a tag: no `<`, `>` or white space
/// that would end or restart it.
pub open spec fn plain_tag_text(t: Seq<char>) -> bool {
    forall|x: int| 0 <= x < t.len() ==> #[trigger] t[x] != '<' && t[x] != '>' && t[x] != ' ' && t[x] != '\t' && t[x] != '\n'
}

/// `c` holds no `<`.
pub open spec fn no_tag_start(c: Seq<char>) -> bool {
    forall|x: int| 0 <= x < c.len() ==> #[trigger] c[x] != '<'
}

/// The tag `<t>` written out.
pub open spec fn tag_text(t: Seq<char>) -> Seq<char> {
    seq!['<'] + t + seq!['>']
}

/// The scan's state once a tag of text `t` is read from state `st`.
pub open spec fn after_tag(st: TagScan, t: Seq<char>) -> TagScan {
    let name = element_name(t);
    TagScan {
        in_tag: false,
        in_skip: if is_skip_tag(name) { !is_closing(t) } else { st.in_skip },
        tag: t,
        collecting: false,
        out: if is_block_tag(name) { st.out.push('\n') } else { st.out },
    }
}

/// The scan from index `i1` of `cs1` and from `i2` of `cs2` gives the same
/// text when what follows the two indices is the same.
pub proof fn scan_depends_on_what_follows(cs1: Seq<char>, i1: int, cs2: Seq<char>, i2: int)
    requires
        0 <= i1 <= cs1.len(),
        0 <= i2 <= cs2.len(),
        cs1.skip(i1) =~= cs2.skip(i2),
    ensures
        forall|st: TagScan| #[trigger] scan(cs1, i1, st) == scan(cs2, i2, st),
    decreases cs1.len() - i1,
{
    assert(cs1.len() - i1 == cs2.len() - i2) by {
        assert(cs1.skip(i1).len() == cs2.skip(i2).len());
    }
    if i1 < cs1.len() {
        reveal_strlit("&amp;");
        reveal_strlit("&lt;");
        reveal_strlit("&gt;");
        reveal_strlit("&quot;");
        reveal_strlit("&apos;");
        reveal_strlit("&nbsp;");
        assert forall|p: Seq<char>| #[trigger] occurs_at(cs1, p, i1) == occurs_at(cs2, p, i2) by {
            if i1 + p.len() <= cs1.len() {
                assert forall|j: int| 0 <= j < p.len() implies #[trigger] cs1.subrange(i1, i1 + p.len())[j] == cs2.subrange(
                    i2,
                    i2 + p.len(),
                )[j] by {
                    assert(cs1.skip(i1)[j] == cs2.skip(i2)[j]);
                }
                assert(cs1.subrange(i1, i1 + p.len()) =~= cs2.subrange(i2, i2 + p.len()));
            }
        }
        assert(cs1[i1] == cs2[i2]) by {
            assert(cs1.skip(i1)[0] == cs2.skip(i2)[0]);
        }
        let d = seq![1int, 4, 5, 6];
        assert forall|k: int| 0 <= k < 4 && i1 + d[k] <= cs1.len() implies cs1.skip(i1 + d[k]) =~= cs2.skip(
            i2 + d[k],
        ) by {
            assert forall|j: int| 0 <= j < cs1.len() - (i1 + d[k]) implies #[trigger] cs1.skip(i1 + d[k])[j] == cs2.skip(i2 + d[k])[j] by {
                assert(cs1.skip(i1)[j + d[k]] == cs2.skip(i2)[j + d[k]]);
            }
        }
        scan_depends_on_what_follows(cs1, i1 + 1, cs2, i2 + 1);
        if i1 + 4 <= cs1.len() {
            assert(d[1] == 4);
            scan_depends_on_what_follows(cs1, i1 + 4, cs2, i2 + 4);
        }
        if i1 + 5 <= cs1.len() {
            assert(d[2] == 5);
            scan_depends_on_what_follows(cs1, i1 + 5, cs2, i2 + 5);
        }
        if i1 + 6 <= cs1.len() {
            assert(d[3] == 6);
            scan_depends_on_what_follows(cs1, i1 + 6, cs2, i2 + 6);
        }
        assert forall|st: TagScan| #[trigger] scan(cs1, i1, st) == scan(cs2, i2, st) by {
            let ch = cs1[i1];
            if ch == '<' {
                let s2 = TagScan { in_tag: true, in_skip: st.in_skip, tag: Seq::empty(), collecting: true, out: st.out };
                assert(scan(cs1, i1, st) == scan(cs1, i1 + 1, s2));
                assert(scan(cs2, i2, st) == scan(cs2, i2 + 1, s2));
            } else if st.in_tag {
                if ch == '>' {
                    let name = element_name(st.tag);
                    let in_skip = if is_skip_tag(name) { !is_closing(st.tag) } else { st.in_skip };
                    let out = if is_block_tag(name) { st.out.push('\n') } else { st.out };
                    let s2 = TagScan { in_tag: false, in_skip, tag: st.tag, collecting: false, out };
                    assert(scan(cs1, i1, st) == scan(cs1, i1 + 1, s2));
                    assert(scan(cs2, i2, st) == scan(cs2, i2 + 1, s2));
                } else if st.collecting {
                    let collecting = !(ch == ' ' || ch == '\t' || ch == '\n');
                    let s2 = TagScan { in_tag: true, in_skip: st.in_skip, tag: st.tag.push(ch), collecting, out: st.out };
                    assert(scan(cs1, i1, st) == scan(cs1, i1 + 1, s2));
                    assert(scan(cs2, i2, st) == scan(cs2, i2 + 1, s2));
                } else {
                    assert(scan(cs1, i1, st) == scan(cs1, i1 + 1, st));
                }
            } else if st.in_skip {
                assert(scan(cs1, i1, st) == scan(cs1, i1 + 1, st));
            } else if ch == '&' {
                if occurs_at(cs1, "&amp;"@, i1) {
                    assert(scan(cs1, i1, st) == scan(cs1, i1 + 5, with_out(st, st.out.push('&'))));
                    assert(occurs_at(cs2, "&amp;"@, i2));
                    assert(scan(cs2, i2, st) == scan(cs2, i2 + 5, with_out(st, st.out.push('&'))));
                } else if occurs_at(cs1, "&lt;"@, i1) {
                    assert(occurs_at(cs2, "&lt;"@, i2));
                    assert(scan(cs1, i1, st) == scan(cs1, i1 + 4, with_out(st, st.out.push('<'))));
                } else if occurs_at(cs1, "&gt;"@, i1) {
                    assert(occurs_at(cs2, "&gt;"@, i2));
                    assert(scan(cs1, i1, st) == scan(cs1, i1 + 4, with_out(st, st.out.push('>'))));
                } else if occurs_at(cs1, "&quot;"@, i1) {
                    assert(occurs_at(cs2, "&quot;"@, i2));
                    assert(scan(cs1, i1, st) == scan(cs1, i1 + 6, with_out(st, st.out.push('"'))));
                } else if occurs_at(cs1, "&apos;"@, i1) {
                    assert(occurs_at(cs2, "&apos;"@, i2));
                    assert(scan(cs1, i1, st) == scan(cs1, i1 + 6, with_out(st, st.out.push('\''))));
                } else if occurs_at(cs1, "&nbsp;"@, i1) {
                    assert(occurs_at(cs2, "&nbsp;"@, i2));
                    assert(scan(cs1, i1, st) == scan(cs1, i1 + 6, with_out(st, st.out.push(' '))));
                } else {
                    assert(!occurs_at(cs2, "&amp;"@, i2));
                    assert(scan(cs1, i1, st) == scan(cs1, i1 + 1, with_out(st, st.out.push('&'))));
                }
            } else {
                assert(scan(cs1, i1, st) == scan(cs1, i1 + 1, with_out(st, st.out.push(ch))));
            }
            assert(occurs_at(cs1, "&amp;"@, i1) == occurs_at(cs2, "&amp;"@, i2));
            assert(occurs_at(cs1, "&lt;"@, i1) == occurs_at(cs2, "&lt;"@, i2));
            assert(occurs_at(cs1, "&gt;"@, i1) == occurs_at(cs2, "&gt;"@, i2));
            assert(occurs_at(cs1, "&quot;"@, i1) == occurs_at(cs2, "&quot;"@, i2));
            assert(occurs_at(cs1, "&apos;"@, i1) == occurs_at(cs2, "&apos;"@, i2));
            assert(occurs_at(cs1, "&nbsp;"@, i1) == occurs_at(cs2, "&nbsp;"@, i2));
        }
    }
}

proof fn lemma_scan_tag_chars(cs: Seq<char>, i: int, st: TagScan, t: Seq<char>, j: int)
    requires
        0 <= i,
        i + t.len() + 2 <= cs.len(),
        cs.subrange(i, i + t.len() + 2) == tag_text(t),
        plain_tag_text(t),
        0 <= j <= t.len(),
    ensures
        scan(cs, i + 1 + j, TagScan { in_tag: true, in_skip: st.in_skip, tag: t.take(j), collecting: true, out: st.out })
            == scan(cs, i + t.len() + 2, after_tag(st, t)),
    decreases t.len() - j,
{
    let sj = TagScan { in_tag: true, in_skip: st.in_skip, tag: t.take(j), collecting: true, out: st.out };
    assert(cs[i + 1 + j] == tag_text(t)[1 + j]);
    if j < t.len() {
        assert(tag_text(t)[1 + j] == t[j]);
        assert(t.take(j).push(t[j]) =~= t.take(j + 1));
        lemma_scan_tag_chars(cs, i, st, t, j + 1);
    } else {
        assert(tag_text(t)[1 + j] == '>');
        assert(t.take(j) =~= t);
    }
}

proof fn lemma_scan_tag(cs: Seq<char>, i: int, st: TagScan, t: Seq<char>)
    requires
        0 <= i,
        i + t.len() + 2 <= cs.len(),
        cs.subrange(i, i + t.len() + 2) == tag_text(t),
        plain_tag_text(t),
    ensures
        scan(cs, i, st) == scan(cs, i + t.len() + 2, after_tag(st, t)),
{
    assert(cs[i] == tag_text(t)[0]);
    assert(t.take(0) =~= Seq::<char>::empty());
    lemma_scan_tag_chars(cs, i, st, t, 0);
}

proof fn lemma_scan_skips(cs: Seq<char>, i: int, j: int, st: TagScan)
    requires
        0 <= i <= j <= cs.len(),
        st.in_skip,
        !st.in_tag,
        forall|x: int| i <= x < j ==> #[trigger] cs[x] != '<',
    ensures
        scan(cs, i, st) == scan(cs, j, st),
    decreases j - i,
{
    if i < j {
        lemma_scan_skips(cs, i + 1, j, st);
    }
}

/// The content of a `script`, `style` or `noscript` element never reaches
/// the text: from any point of a scan, any text without a `<` right after an
/// opening tag of one of these elements (`<style>`, `<SCRIPT type=x>`...)
/// changes nothing of what the scan outputs.
pub proof fn skipped_element_content_is_dropped(t: Seq<char>, c: Seq<char>, b: Seq<char>, st: TagScan)
    requires
        plain_tag_text(t),
        element_name(t) == "script"@ || element_name(t) == "style"@ || element_name(t) == "noscript"@,
        !is_closing(t),
        no_tag_start(c),
    ensures
        scan(tag_text(t) + c + b, 0, st) == scan(tag_text(t) + b, 0, st),
{
    let x1 = tag_text(t) + c + b;
    let x2 = tag_text(t) + b;
    let n: int = t.len() as int + 2;
    assert(x1.subrange(0, n) =~= tag_text(t));
    assert(x2.subrange(0, n) =~= tag_text(t));
    let name = element_name(t);
    if name == "script"@ {
        assert(name == skip_tag(0));
    } else if name == "style"@ {
        assert(name == skip_tag(1));
    } else {
        assert(name == skip_tag(2));
    }
    assert(is_skip_tag(name));
    let s = after_tag(st, t);
    lemma_scan_tag(x1, 0, st, t);
    lemma_scan_tag(x2, 0, st, t);
    assert forall|x: int| n <= x < n + c.len() implies #[trigger] x1[x] != '<' by {
        assert(x1[x] == c[x - n]);
    }
    lemma_scan_skips(x1, n, n + c.len(), s);
    scan_depends_on_what_follows(x1, n + c.len(), x2, n);
    assert(scan(x1, n + c.len(), s) == scan(x2, n, s));
}

proof fn lemma_scan_plain(cs: Seq<char>, i: int, st: TagScan)
    requires
        0 <= i <= cs.len(),
        !st.in_tag,
        !st.in_skip,
        forall|x: int| i <= x < cs.len() ==> #[trigger] cs[x] != '<' && cs[x] != '&',
    ensures
        scan(cs, i, st) == st.out + cs.skip(i),
    decreases cs.len() - i,
{
    if i < cs.len() {
        let s2 = with_out(st, st.out.push(cs[i]));
        lemma_scan_plain(cs, i + 1, s2);
        assert(st.out.push(cs[i]) + cs.skip(i + 1) =~= st.out + cs.skip(i));
    } else {
        assert(cs.skip(i) =~= Seq::<char>::empty());
        assert(st.out + cs.skip(i) =~= st.out);
    }
}

/// Only `script`, `style` and `noscript` hide their content: after the tag
/// of any other element, outside a skipped block, plain text (no `<` or
/// `&`) comes out as it is, after the line break that a block element adds.
pub proof fn other_elements_keep_their_text(t: Seq<char>, c: Seq<char>, st: TagScan)
    requires
        plain_tag_text(t),
        element_name(t) != "script"@,
        element_name(t) != "style"@,
        element_name(t) != "noscript"@,
        !st.in_skip,
        forall|x: int| 0 <= x < c.len() ==> #[trigger] c[x] != '<' && c[x] != '&',
    ensures
        scan(tag_text(t) + c, 0, st) == (if is_block_tag(element_name(t)) {
            st.out.push('\n')
        } else {
            st.out
        }) + c,
{
    let x = tag_text(t) + c;
    let n: int = t.len() as int + 2;
    assert(x.subrange(0, n) =~= tag_text(t));
    let name = element_name(t);
    if is_skip_tag(name) {
        let k = choose|k: int| 0 <= k < SKIP_TAG_COUNT && name == skip_tag(k);
        assert(k == 0 || k == 1 || k == 2);
    }
    lemma_scan_tag(x, 0, st, t);
    let s = after_tag(st, t);
    assert forall|y: int| n <= y < x.len() implies #[trigger] x[y] != '<' && x[y] != '&' by {
        assert(x[y] == c[y - n]);
    }
    lemma_scan_plain(x, n, s);
    assert(x.skip(n) =~= c);
}

/// The text a scan outputs from the start of `a + y` does not depend on `y`
/// beyond what the scan outputs from the end of `a`, when `y` starts with a
/// tag: no entity read in `a` can run into it.
proof fn lemma_scan_prefix(a: Seq<char>, y1: Seq<char>, y2: Seq<char>, i: int)
    requires
        0 <= i <= a.len(),
        y1.len() > 0 && y1[0] == '<',
        y2.len() > 0 && y2[0] == '<',
        forall|st: TagScan| #[trigger] scan(y1, 0, st) == scan(y2, 0, st),
    ensures
        forall|st: TagScan| #[trigger] scan(a + y1, i, st) == scan(a + y2, i, st),
    decreases a.len() - i,
{
    let cs1 = a + y1;
    let cs2 = a + y2;
    if i == a.len() {
        scan_depends_on_what_follows(cs1, i, y1, 0);
        scan_depends_on_what_follows(cs2, i, y2, 0);
        assert forall|st: TagScan| #[trigger] scan(cs1, i, st) == scan(cs2, i, st) by {
            assert(scan(cs1, i, st) == scan(y1, 0, st));
            assert(scan(cs2, i, st) == scan(y2, 0, st));
        }
    } else {
        reveal_strlit("&amp;");
        reveal_strlit("&lt;");
        reveal_strlit("&gt;");
        reveal_strlit("&quot;");
        reveal_strlit("&apos;");
        reveal_strlit("&nbsp;");
        assert(cs1[a.len() as int] == '<' && cs2[a.len() as int] == '<');
        assert(forall|k: int| 0 <= k < 5 ==> #[trigger] "&amp;"@[k] != '<');
        assert(forall|k: int| 0 <= k < 4 ==> #[trigger] "&lt;"@[k] != '<');
        assert(forall|k: int| 0 <= k < 4 ==> #[trigger] "&gt;"@[k] != '<');
        assert(forall|k: int| 0 <= k < 6 ==> #[trigger] "&quot;"@[k] != '<');
        assert(forall|k: int| 0 <= k < 6 ==> #[trigger] "&apos;"@[k] != '<');
        assert(forall|k: int| 0 <= k < 6 ==> #[trigger] "&nbsp;"@[k] != '<');
        assert forall|p: Seq<char>|
            (forall|k: int| 0 <= k < p.len() ==> #[trigger] p[k] != '<') implies #[trigger] occurs_at(cs1, p, i)
            == occurs_at(cs2, p, i) by {
            if i + p.len() <= a.len() {
                assert(cs1.subrange(i, i + p.len()) =~= cs2.subrange(i, i + p.len()));
            } else {
                if occurs_at(cs1, p, i) {
                    assert(cs1.subrange(i, i + p.len())[a.len() - i] == p[a.len() - i]);
                }
                if occurs_at(cs2, p, i) {
                    assert(cs2.subrange(i, i + p.len())[a.len() - i] == p[a.len() - i]);
                }
            }
        }
        assert(cs1[i] == cs2[i]);
        lemma_scan_prefix(a, y1, y2, i + 1);
        if i + 4 <= a.len() {
            lemma_scan_prefix(a, y1, y2, i + 4);
        }
        if i + 5 <= a.len() {
            lemma_scan_prefix(a, y1, y2, i + 5);
        }
        if i + 6 <= a.len() {
            lemma_scan_prefix(a, y1, y2, i + 6);
        }
        let ln = a.len() as int;
        if i + 5 > ln {
            if occurs_at(cs1, "&amp;"@, i) {
                assert(cs1.subrange(i, i + 5)[ln - i] == cs1[ln]);
            }
        }
        if i + 4 > ln {
            if occurs_at(cs1, "&lt;"@, i) {
                assert(cs1.subrange(i, i + 4)[ln - i] == cs1[ln]);
            }
            if occurs_at(cs1, "&gt;"@, i) {
                assert(cs1.subrange(i, i + 4)[ln - i] == cs1[ln]);
            }
        }
        if i + 6 > ln {
            if occurs_at(cs1, "&quot;"@, i) {
                assert(cs1.subrange(i, i + 6)[ln - i] == cs1[ln]);
            }
            if occurs_at(cs1, "&apos;"@, i) {
                assert(cs1.subrange(i, i + 6)[ln - i] == cs1[ln]);
            }
            if occurs_at(cs1, "&nbsp;"@, i) {
                assert(cs1.subrange(i, i + 6)[ln - i] == cs1[ln]);
            }
        }
        assert(occurs_at(cs1, "&amp;"@, i) == occurs_at(cs2, "&amp;"@, i));
        assert(occurs_at(cs1, "&lt;"@, i) == occurs_at(cs2, "&lt;"@, i));
        assert(occurs_at(cs1, "&gt;"@, i) == occurs_at(cs2, "&gt;"@, i));
        assert(occurs_at(cs1, "&quot;"@, i) == occurs_at(cs2, "&quot;"@, i));
        assert(occurs_at(cs1, "&apos;"@, i) == occurs_at(cs2, "&apos;"@, i));
        assert(occurs_at(cs1, "&nbsp;"@, i) == occurs_at(cs2, "&nbsp;"@, i));
        assert forall|st: TagScan| #[trigger] scan(cs1, i, st) == scan(cs2, i, st) by {
            let ch = cs1[i];
            if ch == '<' {
                let s2 = TagScan { in_tag: true, in_skip: st.in_skip, tag: Seq::empty(), collecting: true, out: st.out };
                assert(scan(cs1, i, st) == scan(cs1, i + 1, s2));
                assert(scan(cs2, i, st) == scan(cs2, i + 1, s2));
            } else if st.in_tag {
                if ch == '>' {
                    let name = element_name(st.tag);
                    let in_skip = if is_skip_tag(name) { !is_closing(st.tag) } else { st.in_skip };
                    let out = if is_block_tag(name) { st.out.push('\n') } else { st.out };
                    let s2 = TagScan { in_tag: false, in_skip, tag: st.tag, collecting: false, out };
                    assert(scan(cs1, i, st) == scan(cs1, i + 1, s2));
                    assert(scan(cs2, i, st) == scan(cs2, i + 1, s2));
                } else if st.collecting {
                    let collecting = !(ch == ' ' || ch == '\t' || ch == '\n');
                    let s2 = TagScan { in_tag: true, in_skip: st.in_skip, tag: st.tag.push(ch), collecting, out: st.out };
                    assert(scan(cs1, i, st) == scan(cs1, i + 1, s2));
                    assert(scan(cs2, i, st) == scan(cs2, i + 1, s2));
                } else {
                    assert(scan(cs1, i, st) == scan(cs1, i + 1, st));
                }
            } else if st.in_skip {
                assert(scan(cs1, i, st) == scan(cs1, i + 1, st));
            } else if ch == '&' {
                if occurs_at(cs1, "&amp;"@, i) {
                    assert(scan(cs1, i, st) == scan(cs1, i + 5, with_out(st, st.out.push('&'))));
                    assert(occurs_at(cs2, "&amp;"@, i));
                    assert(scan(cs2, i, st) == scan(cs2, i + 5, with_out(st, st.out.push('&'))));
                } else if occurs_at(cs1, "&lt;"@, i) {
                    assert(occurs_at(cs2, "&lt;"@, i));
                    assert(scan(cs1, i, st) == scan(cs1, i + 4, with_out(st, st.out.push('<'))));
                } else if occurs_at(cs1, "&gt;"@, i) {
                    assert(occurs_at(cs2, "&gt;"@, i));
                    assert(scan(cs1, i, st) == scan(cs1, i + 4, with_out(st, st.out.push('>'))));
                } else if occurs_at(cs1, "&quot;"@, i) {
                    assert(occurs_at(cs2, "&quot;"@, i));
                    assert(scan(cs1, i, st) == scan(cs1, i + 6, with_out(st, st.out.push('"'))));
                } else if occurs_at(cs1, "&apos;"@, i) {
                    assert(occurs_at(cs2, "&apos;"@, i));
                    assert(scan(cs1, i, st) == scan(cs1, i + 6, with_out(st, st.out.push('\''))));
                } else if occurs_at(cs1, "&nbsp;"@, i) {
                    assert(occurs_at(cs2, "&nbsp;"@, i));
                    assert(scan(cs1, i, st) == scan(cs1, i + 6, with_out(st, st.out.push(' '))));
                } else {
                    assert(!occurs_at(cs2, "&amp;"@, i));
                    assert(scan(cs1, i, st) == scan(cs1, i + 1, with_out(st, st.out.push('&'))));
                }
            } else {
                assert(scan(cs1, i, st) == scan(cs1, i + 1, with_out(st, st.out.push(ch))));
            }
        }
    }
}

/// Anywhere in a document, the text inside a `script`, `style` or
/// `noscript` element (up to its next tag) does not reach the extracted
/// text: the document reads the same with that content left out.
pub proof fn skipped_elements_leave_no_text(a: Seq<char>, t: Seq<char>, c: Seq<char>, b: Seq<char>)
    requires
        plain_tag_text(t),
        element_name(t) == "script"@ || element_name(t) == "style"@ || element_name(t) == "noscript"@,
        !is_closing(t),
        no_tag_start(c),
    ensures
        html_text(a + (tag_text(t) + c + b)) == html_text(a + (tag_text(t) + b)),
{
    let y1 = tag_text(t) + c + b;
    let y2 = tag_text(t) + b;
    assert(y1[0] == '<' && y2[0] == '<');
    assert forall|st: TagScan| #[trigger] scan(y1, 0, st) == scan(y2, 0, st) by {
        skipped_element_content_is_dropped(t, c, b, st);
    }
    lemma_scan_prefix(a, y1, y2, 0);
}

/// The readable text of an HTML document.
pub open spec fn html_text(html: Seq<char>) -> Seq<char> {
    collapsed(scan(html, 0, scan_start()))
}

/// Trims every line and collapses runs of blank lines to one.
pub fn collapse_whitespace(s: &Vec<char>) -> (r: Vec<char>)
    ensures
        r@ == collapsed(s@),
{
    let ls = lines_of(s);
    let mut out: Vec<char> = Vec::new();
    let mut blank: usize = 0;
    let mut k: usize = 0;
    while k < ls.len()
        invariant
            views(ls@) == lines(s@),
            k <= ls.len(),
            blank <= k,
            collapse_from(lines(s@), 0, Seq::empty(), 0) == collapse_from(
                lines(s@),
                k as int,
                out@,
                blank as nat,
            ),
        decreases ls.len() - k,
    {
        proof {
            assert(views(ls@)[k as int] == ls@[k as int]@);
        }
        let t = trim_chars(&ls[k]);
        if t.len() == 0 {
            blank = blank + 1;
        } else {
            if blank > 0 && out.len() > 0 {
                out.push('\n');
            }
            blank = 0;
            let mut i: usize = 0;
            let ghost o = out@;
            while i < t.len()
                invariant
                    i <= t.len(),
                    out@ == o + t@.take(i as int),
                decreases t.len() - i,
            {
                out.push(t[i]);
                proof {
                    assert(o + t@.take(i + 1) =~= (o + t@.take(i as int)).push(t@[i as int]));
                }
                i += 1;
            }
            out.push('\n');
            proof {
                assert(t@.take(t.len() as int) =~= t@);
                assert(o + t@ + seq!['\n'] =~= (o + t@).push('\n'));
            }
        }
        k += 1;
    }
    trim_chars(&out)
}

/// Removes tags and skipped blocks, decodes entities, and collapses whitespace.
pub fn strip_tags(html: &Vec<char>) -> (r: Vec<char>)
    ensures
        r@ == html_text(html@),
{
    let mut in_tag = false;
    let mut in_skip = false;
    let mut tag: Vec<char> = Vec::new();
    let mut collecting = false;
    let mut out: Vec<char> = Vec::new();
    let amp = chars_of("&amp;");
    let lt = chars_of("&lt;");
    let gt = chars_of("&gt;");
    let quot = chars_of("&quot;");
    let apos = chars_of("&apos;");
    let nbsp = chars_of("&nbsp;");
    proof {
        reveal_strlit("&amp;");
        reveal_strlit("&lt;");
        reveal_strlit("&gt;");
        reveal_strlit("&quot;");
        reveal_strlit("&apos;");
        reveal_strlit("&nbsp;");
    }
    let mut i: usize = 0;
    while i < html.len()
        invariant
            i <= html.len(),
            amp@ == "&amp;"@,
            lt@ == "&lt;"@,
            gt@ == "&gt;"@,
            quot@ == "&quot;"@,
            apos@ == "&apos;"@,
            nbsp@ == "&nbsp;"@,
            "&amp;"@.len() == 5,
            "&lt;"@.len() == 4,
            "&gt;"@.len() == 4,
            "&quot;"@.len() == 6,
            "&apos;"@.len() == 6,
            "&nbsp;"@.len() == 6,
            scan(html@, 0, scan_start()) == scan(
                html@,
                i as int,
                TagScan { in_tag, in_skip, tag: tag@, collecting, out: out@ },
            ),
        decreases html.len() - i,
    {
        let ch = html[i];
        if ch == '<' {
            in_tag = true;
            tag = Vec::new();
            collecting = true;
            i += 1;
        } else if in_tag {
            if ch == '>' {
                let ghost old_tag = tag@;
                in_tag = false;
                collecting = false;
                let tl = lower_chars(&tag);
                let closing = tl.len() > 0 && tl[0] == '/';
                let trimmed = trim_start_matching(&tl, '/');
                let name = first_word_of(&trimmed);
                if skip_tag_test(&name) {
                    in_skip = !closing;
                }
                if block_tag_test(&name) {
                    out.push('\n');
                }
            } else if collecting {
                if ch == ' ' || ch == '\t' || ch == '\n' {
                    collecting = false;
                }
                tag.push(ch);
            }
            i += 1;
        } else if in_skip {
            i += 1;
        } else if ch == '&' {
            if matches_at(html, &amp, i) {
                out.push('&');
                i += 5;
            } else if matches_at(html, &lt, i) {
                out.push('<');
                i += 4;
            } else if matches_at(html, &gt, i) {
                out.push('>');
                i += 4;
            } else if matches_at(html, &quot, i) {
                out.push('"');
                i += 6;
            } else if matches_at(html, &apos, i) {
                out.push('\'');
                i += 6;
            } else if matches_at(html, &nbsp, i) {
                out.push(' ');
                i += 6;
            } else {
                out.push('&');
                i += 1;
            }
        } else {
            out.push(ch);
            i += 1;
        }
    }
    collapse_whitespace(&out)
}

/// The readable text of an HTML document given as bytes.
pub fn extract(bytes: &[u8]) -> (r: String)
    ensures
        r@ == html_text(lossy_text(bytes@)),
{
    let s = from_utf8_lossy(bytes);
    let cs = chars_of(s.as_str());
    let t = strip_tags(&cs);
    string_of(&t)
}

} // verus!
