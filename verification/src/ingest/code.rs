//! Code files split into sections at top-level definitions, by language, and
//! the document/section/chunk nodes built from them.
use vstd::prelude::*;
use crate::graph::{
    ContentKind, ContentType, Edge, EdgeKind, EdgeModel, Node, NodeKind, NodeModel,
    NodeProperties, PropsModel, chunk_name, chunk_node, code_chunk_name, document_node,
    edge_views, make_chunk_node, make_document_node, no_props, node_views, numbered_name, plain,
    plain_edge,
};
use crate::ingest::{file_name_of, path_file_name};
use crate::text::{
    alphanumeric, char_is_alphanumeric, chars_eq, chars_of, concat, decimal, decimal_of, has_prefix,
    join, join_chars, lemma_lines_len, lines, lines_of, slice_chars, starts_with, str_eq,
    string_of, trim, trim_chars, trim_prefix_all, trim_prefix_matching, views,
};

verus! {

broadcast use vstd::string::group_string_axioms;

/// The line starts that mark a top-level definition in a language.
pub open spec fn definition_patterns(language: Seq<char>) -> Seq<Seq<char>> {
    if language == "rust"@ {
        seq!["fn "@, "pub fn "@, "struct "@, "pub struct "@, "enum "@, "pub enum "@, "impl "@, "trait "@, "pub trait "@, "mod "@, "pub mod "@]
    } else if language == "python"@ {
        seq!["def "@, "class "@, "async def "@]
    } else if language == "javascript"@ || language == "typescript"@ {
        seq!["function "@, "class "@, "const "@, "export function "@, "export class "@, "export const "@, "export default "@]
    } else if language == "go"@ {
        seq!["func "@, "type "@]
    } else if language == "solidity"@ {
        seq!["function "@, "contract "@, "library "@, "interface "@]
    } else {
        seq!["fn "@, "def "@, "function "@, "class "@]
    }
}

fn patterns_rust() -> (r: Vec<Vec<char>>)
    ensures
        views(r@) == seq!["fn "@, "pub fn "@, "struct "@, "pub struct "@, "enum "@, "pub enum "@, "impl "@, "trait "@, "pub trait "@, "mod "@, "pub mod "@],
{
    let mut v: Vec<Vec<char>> = Vec::new();
    v.push(chars_of("fn "));
    v.push(chars_of("pub fn "));
    v.push(chars_of("struct "));
    v.push(chars_of("pub struct "));
    v.push(chars_of("enum "));
    v.push(chars_of("pub enum "));
    v.push(chars_of("impl "));
    v.push(chars_of("trait "));
    v.push(chars_of("pub trait "));
    v.push(chars_of("mod "));
    v.push(chars_of("pub mod "));
    proof {
        assert(views(v@) =~= seq!["fn "@, "pub fn "@, "struct "@, "pub struct "@, "enum "@, "pub enum "@, "impl "@, "trait "@, "pub trait "@, "mod "@, "pub mod "@]);
    }
    v
}

fn patterns_python() -> (r: Vec<Vec<char>>)
    ensures
        views(r@) == seq!["def "@, "class "@, "async def "@],
{
    let mut v: Vec<Vec<char>> = Vec::new();
    v.push(chars_of("def "));
    v.push(chars_of("class "));
    v.push(chars_of("async def "));
    proof {
        assert(views(v@) =~= seq!["def "@, "class "@, "async def "@]);
    }
    v
}

fn patterns_js() -> (r: Vec<Vec<char>>)
    ensures
        views(r@) == seq!["function "@, "class "@, "const "@, "export function "@, "export class "@, "export const "@, "export default "@],
{
    let mut v: Vec<Vec<char>> = Vec::new();
    v.push(chars_of("function "));
    v.push(chars_of("class "));
    v.push(chars_of("const "));
    v.push(chars_of("export function "));
    v.push(chars_of("export class "));
    v.push(chars_of("export const "));
    v.push(chars_of("export default "));
    proof {
        assert(views(v@) =~= seq!["function "@, "class "@, "const "@, "export function "@, "export class "@, "export const "@, "export default "@]);
    }
    v
}

fn patterns_go() -> (r: Vec<Vec<char>>)
    ensures
        views(r@) == seq!["func "@, "type "@],
{
    let mut v: Vec<Vec<char>> = Vec::new();
    v.push(chars_of("func "));
    v.push(chars_of("type "));
    proof {
        assert(views(v@) =~= seq!["func "@, "type "@]);
    }
    v
}

fn patterns_solidity() -> (r: Vec<Vec<char>>)
    ensures
        views(r@) == seq!["function "@, "contract "@, "library "@, "interface "@],
{
    let mut v: Vec<Vec<char>> = Vec::new();
    v.push(chars_of("function "));
    v.push(chars_of("contract "));
    v.push(chars_of("library "));
    v.push(chars_of("interface "));
    proof {
        assert(views(v@) =~= seq!["function "@, "contract "@, "library "@, "interface "@]);
    }
    v
}

fn patterns_other() -> (r: Vec<Vec<char>>)
    ensures
        views(r@) == seq!["fn "@, "def "@, "function "@, "class "@],
{
    let mut v: Vec<Vec<char>> = Vec::new();
    v.push(chars_of("fn "));
    v.push(chars_of("def "));
    v.push(chars_of("function "));
    v.push(chars_of("class "));
    proof {
        assert(views(v@) =~= seq!["fn "@, "def "@, "function "@, "class "@]);
    }
    v
}

/// The definition patterns for a language.
pub fn patterns_for(language: &str) -> (r: Vec<Vec<char>>)
    ensures
        views(r@) == definition_patterns(language@),
{
    if str_eq(language, "rust") {
        patterns_rust()
    } else if str_eq(language, "python") {
        patterns_python()
    } else if str_eq(language, "javascript") || str_eq(language, "typescript") {
        patterns_js()
    } else if str_eq(language, "go") {
        patterns_go()
    } else if str_eq(language, "solidity") {
        patterns_solidity()
    } else {
        patterns_other()
    }
}

pub const KEYWORD_COUNT: usize = 15;

/// The keywords after which a definition's name follows, in the order tried.
pub open spec fn definition_keyword(i: int) -> Seq<char> {
    if i == 0 {
        "fn "@
    } else if i == 1 {
        "def "@
    } else if i == 2 {
        "function "@
    } else if i == 3 {
        "class "@
    } else if i == 4 {
        "struct "@
    } else if i == 5 {
        "enum "@
    } else if i == 6 {
        "impl "@
    } else if i == 7 {
        "trait "@
    } else if i == 8 {
        "mod "@
    } else if i == 9 {
        "type "@
    } else if i == 10 {
        "func "@
    } else if i == 11 {
        "const "@
    } else if i == 12 {
        "contract "@
    } else if i == 13 {
        "library "@
    } else if i == 14 {
        "interface "@
    } else {
        Seq::empty()
    }
}

fn definition_keyword_at(i: usize) -> (r: &'static str)
    requires
        i < KEYWORD_COUNT,
    ensures
        r@ == definition_keyword(i as int),
{
    match i {
        0 => "fn ",
        1 => "def ",
        2 => "function ",
        3 => "class ",
        4 => "struct ",
        5 => "enum ",
        6 => "impl ",
        7 => "trait ",
        8 => "mod ",
        9 => "type ",
        10 => "func ",
        11 => "const ",
        12 => "contract ",
        13 => "library ",
        14 => "interface ",
        _ => "interface ",
    }
}

/// The index of the first keyword at or after `i` that `s` starts with.
pub open spec fn first_keyword(s: Seq<char>, i: int) -> Option<int>
    decreases KEYWORD_COUNT - i,
{
    if i < 0 || i >= KEYWORD_COUNT {
        None
    } else if starts_with(s, definition_keyword(i)) {
        Some(i)
    } else {
        first_keyword(s, i + 1)
    }
}

/// The leading run of identifier characters (alphanumeric or `_`) of `s`.
pub open spec fn ident_prefix(s: Seq<char>) -> Seq<char>
    decreases s.len(),
{
    if s.len() > 0 && (alphanumeric(s[0]) || s[0] == '_') {
        seq![s[0]] + ident_prefix(s.drop_first())
    } else {
        Seq::empty()
    }
}

/// The name a definition line declares: after trimming and dropping leading
/// `pub `, `export `, `default ` and `async ` (each repeated, in that order),
/// the identifier that follows the first matching keyword (or the line's own
/// start when none matches); `anonymous_<language>` when there is none.
pub open spec fn definition_name(line: Seq<char>, language: Seq<char>) -> Seq<char> {
    let cleaned = trim_prefix_all(
        trim_prefix_all(
            trim_prefix_all(trim_prefix_all(trim(line), "pub "@), "export "@),
            "default "@,
        ),
        "async "@,
    );
    let after = match first_keyword(cleaned, 0) {
        Some(k) => cleaned.skip(definition_keyword(k).len() as int),
        None => cleaned,
    };
    let name = ident_prefix(after);
    if name.len() == 0 {
        "anonymous_"@ + language
    } else {
        name
    }
}

fn ident_prefix_of(s: &Vec<char>) -> (r: Vec<char>)
    ensures
        r@ == ident_prefix(s@),
{
    let mut k: usize = 0;
    while k < s.len() && (char_is_alphanumeric(s[k]) || s[k] == '_')
        invariant
            k <= s.len(),
            forall|j: int| 0 <= j < k ==> alphanumeric(#[trigger] s@[j]) || s@[j] == '_',
        decreases s.len() - k,
    {
        k += 1;
    }
    proof {
        lemma_ident_prefix(s@, k as int);
    }
    slice_chars(s, 0, k)
}

proof fn lemma_ident_prefix(s: Seq<char>, k: int)
    requires
        0 <= k <= s.len(),
        forall|j: int| 0 <= j < k ==> alphanumeric(#[trigger] s[j]) || s[j] == '_',
        k == s.len() || !(alphanumeric(s[k]) || s[k] == '_'),
    ensures
        ident_prefix(s) == s.subrange(0, k),
    decreases k,
{
    if k > 0 {
        let t = s.drop_first();
        assert forall|j: int| 0 <= j < k - 1 implies alphanumeric(#[trigger] t[j]) || t[j] == '_' by {
            assert(t[j] == s[j + 1]);
        }
        if k - 1 < t.len() {
            assert(t[k - 1] == s[k]);
        }
        lemma_ident_prefix(t, k - 1);
        assert(s.subrange(0, k) =~= seq![s[0]] + t.subrange(0, k - 1));
    } else {
        assert(s.subrange(0, 0) =~= Seq::<char>::empty());
    }
}

proof fn lemma_first_keyword(s: Seq<char>, i: int)
    ensures
        match first_keyword(s, i) {
            Some(k) => i <= k < KEYWORD_COUNT && starts_with(s, definition_keyword(k)),
            None => true,
        },
    decreases KEYWORD_COUNT - i,
{
    if 0 <= i < KEYWORD_COUNT && !starts_with(s, definition_keyword(i)) {
        lemma_first_keyword(s, i + 1);
    }
}

/// The index of the first keyword that `s` starts with.
fn first_keyword_index(s: &Vec<char>) -> (r: Option<usize>)
    ensures
        match first_keyword(s@, 0) {
            Some(k) => r == Some(k as usize) && k < KEYWORD_COUNT,
            None => r is None,
        },
{
    let mut i: usize = 0;
    while i < KEYWORD_COUNT
        invariant
            i <= KEYWORD_COUNT,
            first_keyword(s@, 0) == first_keyword(s@, i as int),
        decreases KEYWORD_COUNT - i,
    {
        let kw = chars_of(definition_keyword_at(i));
        if has_prefix(s, &kw) {
            proof {
                lemma_first_keyword(s@, 0);
            }
            return Some(i);
        }
        i += 1;
    }
    proof {
        lemma_first_keyword(s@, 0);
    }
    None
}

/// The name a definition line declares.
pub fn extract_definition_name(line: &Vec<char>, language: &str) -> (r: Vec<char>)
    ensures
        r@ == definition_name(line@, language@),
{
    let t = trim_chars(line);
    let c1 = trim_prefix_matching(&t, &chars_of("pub "));
    let c2 = trim_prefix_matching(&c1, &chars_of("export "));
    let c3 = trim_prefix_matching(&c2, &chars_of("default "));
    let cleaned = trim_prefix_matching(&c3, &chars_of("async "));
    proof {
        lemma_first_keyword(cleaned@, 0);
    }
    let after = match first_keyword_index(&cleaned) {
        Some(k) => {
            let kw = chars_of(definition_keyword_at(k));
            let rest = slice_chars(&cleaned, kw.len(), cleaned.len());
            proof {
                assert(rest@ =~= cleaned@.skip(kw.len() as int));
            }
            rest
        },
        None => cleaned,
    };
    let name = ident_prefix_of(&after);
    if name.len() == 0 {
        concat(&chars_of("anonymous_"), &chars_of(language))
    } else {
        name
    }
}

/// A section of code: its name, its text, and its first and last line (1-based).
pub ghost struct SectionModel {
    pub name: Seq<char>,
    pub text: Seq<char>,
    pub start: int,
    pub end: int,
}

/// The state of the scan over a file's lines.
pub ghost struct SectionScan {
    pub sections: Seq<SectionModel>,
    pub current: Option<(Seq<char>, int)>,
    pub body: Seq<Seq<char>>,
}

/// `line` starts with one of `patterns`: a definition at the top level (an
/// indented line starts with white space, which no pattern does).
pub open spec fn is_definition(line: Seq<char>, patterns: Seq<Seq<char>>) -> bool {
    exists|k: int| 0 <= k < patterns.len() && starts_with(line, #[trigger] patterns[k])
}

/// The sections with the open one closed, ending at line `end`.
pub open spec fn close_open(st: SectionScan, end: int) -> Seq<SectionModel> {
    match st.current {
        Some((n, s)) => if st.body.len() > 0 {
            st.sections.push(SectionModel { name: n, text: join(st.body, "\n"@), start: s + 1, end })
        } else {
            st.sections
        },
        None => st.sections,
    }
}

/// The scan after the first `k` lines: a top-level definition line closes
/// the open section and opens a new one named after it; other lines,
/// nested definitions among them, join the open section, or are dropped
/// before the first definition.
pub open spec fn scan_sections(ls: Seq<Seq<char>>, language: Seq<char>, k: int) -> SectionScan
    decreases k,
{
    if k <= 0 || k > ls.len() {
        SectionScan { sections: Seq::empty(), current: None, body: Seq::empty() }
    } else {
        let st = scan_sections(ls, language, k - 1);
        let line = ls[k - 1];
        let t = trim(line);
        if is_definition(line, definition_patterns(language)) {
            SectionScan {
                sections: close_open(st, k - 1),
                current: Some((definition_name(t, language), k - 1)),
                body: seq![line],
            }
        } else if st.current is Some {
            SectionScan { sections: st.sections, current: st.current, body: st.body.push(line) }
        } else {
            st
        }
    }
}

/// The sections of a code file in a language.
pub open spec fn code_sections(content: Seq<char>, language: Seq<char>) -> Seq<SectionModel> {
    let ls = lines(content);
    close_open(scan_sections(ls, language, ls.len() as int), ls.len() as int)
}

/// A section of a code file: name, text, first and last line (1-based).
pub struct CodeSection {
    pub name: String,
    pub text: String,
    pub start_line: u32,
    pub end_line: u32,
}

impl View for CodeSection {
    type V = SectionModel;

    open spec fn view(&self) -> SectionModel {
        SectionModel {
            name: self.name@,
            text: self.text@,
            start: self.start_line as int,
            end: self.end_line as int,
        }
    }
}

/// The views of a list of sections.
pub open spec fn section_views(v: Seq<CodeSection>) -> Seq<SectionModel> {
    v.map_values(|c: CodeSection| c@)
}

fn any_prefix(t: &Vec<char>, pats: &Vec<Vec<char>>) -> (r: bool)
    ensures
        r == is_definition(t@, views(pats@)),
{
    let mut k: usize = 0;
    while k < pats.len()
        invariant
            k <= pats.len(),
            forall|j: int| 0 <= j < k ==> !starts_with(t@, #[trigger] views(pats@)[j]),
        decreases pats.len() - k,
    {
        if has_prefix(t, &pats[k]) {
            proof {
                assert(views(pats@)[k as int] == pats@[k as int]@);
            }
            return true;
        }
        proof {
            assert(views(pats@)[k as int] == pats@[k as int]@);
        }
        k += 1;
    }
    false
}

/// Splits a code file into sections at top-level definitions.
pub fn split_code_sections(content: &str, language: &str) -> (r: Vec<CodeSection>)
    requires
        lines(content@).len() < u32::MAX,
    ensures
        section_views(r@) == code_sections(content@, language@),
{
    let cs = chars_of(content);
    let ls = lines_of(&cs);
    let pats = patterns_for(language);
    let ghost lv = lines(content@);
    let mut sections: Vec<CodeSection> = Vec::new();
    let mut current: Option<(Vec<char>, usize)> = None;
    let mut body: Vec<Vec<char>> = Vec::new();
    let mut i: usize = 0;
    while i < ls.len()
        invariant
            views(ls@) == lv,
            lv.len() < u32::MAX,
            views(pats@) == definition_patterns(language@),
            i <= ls.len(),
            ({
                let st = scan_sections(lv, language@, i as int);
                &&& section_views(sections@) == st.sections
                &&& views(body@) == st.body
                &&& match current {
                    Some((n, s)) => st.current == Some((n@, s as int)) && s < i,
                    None => st.current is None,
                }
            }),
        decreases ls.len() - i,
    {
        proof {
            assert(views(ls@)[i as int] == ls@[i as int]@);
        }
        let t = trim_chars(&ls[i]);
        if any_prefix(&ls[i], &pats) {
            match current {
                Some((n, s)) => {
                    if body.len() > 0 {
                        let text = join_chars(&body, &chars_of("\n"));
                        sections.push(
                            CodeSection {
                                name: string_of(&n),
                                text: string_of(&text),
                                start_line: (s as u32) + 1,
                                end_line: i as u32,
                            },
                        );
                    }
                },
                None => {},
            }
            let name = extract_definition_name(&t, language);
            current = Some((name, i));
            body = Vec::new();
            body.push(ls[i].clone());
        } else if current.is_some() {
            body.push(ls[i].clone());
        }
        proof {
            assert(section_views(sections@) =~= scan_sections(lv, language@, i + 1).sections);
            assert(views(body@) =~= scan_sections(lv, language@, i + 1).body);
        }
        i += 1;
    }
    match current {
        Some((n, s)) => {
            if body.len() > 0 {
                let text = join_chars(&body, &chars_of("\n"));
                sections.push(
                    CodeSection {
                        name: string_of(&n),
                        text: string_of(&text),
                        start_line: (s as u32) + 1,
                        end_line: ls.len() as u32,
                    },
                );
            }
        },
        None => {},
    }
    proof {
        assert(section_views(sections@) =~= code_sections(content@, language@));
    }
    sections
}


// ───────────────────────── where sections start ─────────────────────────

/// Some section starts at line `line` (1-based).
pub open spec fn starts_section(secs: Seq<SectionModel>, line: int) -> bool {
    exists|i: int| 0 <= i < secs.len() && (#[trigger] secs[i]).start == line
}

proof fn lemma_scan_starts(ls: Seq<Seq<char>>, language: Seq<char>, k: int)
    requires
        0 <= k <= ls.len(),
    ensures
        forall|i: int|
            0 <= i < scan_sections(ls, language, k).sections.len() ==> 1 <= (
            #[trigger] scan_sections(ls, language, k).sections[i]).start <= k && is_definition(
                ls[scan_sections(ls, language, k).sections[i].start - 1],
                definition_patterns(language),
            ),
        scan_sections(ls, language, k).current matches Some(c) ==> 0 <= c.1 < k && is_definition(
            ls[c.1],
            definition_patterns(language),
        ) && scan_sections(ls, language, k).body.len() > 0,
        forall|j: int|
            0 <= j < k && is_definition(#[trigger] ls[j], definition_patterns(language)) ==> starts_section(
                scan_sections(ls, language, k).sections,
                j + 1,
            ) || (scan_sections(ls, language, k).current matches Some(c) && c.1 == j),
    decreases k,
{
    if k > 0 {
        lemma_scan_starts(ls, language, k - 1);
        let st = scan_sections(ls, language, k - 1);
        let r = scan_sections(ls, language, k);
        let line = ls[k - 1];
        if is_definition(line, definition_patterns(language)) {
            let cl = close_open(st, k - 1);
            assert forall|i: int| 0 <= i < cl.len() implies 1 <= (#[trigger] cl[i]).start <= k && is_definition(
                ls[cl[i].start - 1],
                definition_patterns(language),
            ) by {
                if i < st.sections.len() {
                    assert(cl[i] == st.sections[i]);
                }
            }
            assert forall|j: int|
                0 <= j < k && is_definition(#[trigger] ls[j], definition_patterns(language)) implies starts_section(
                r.sections,
                j + 1,
            ) || (r.current matches Some(c) && c.1 == j) by {
                if j < k - 1 {
                    if starts_section(st.sections, j + 1) {
                        let i = choose|i: int| 0 <= i < st.sections.len() && (#[trigger] st.sections[i]).start == j + 1;
                        assert(cl[i] == st.sections[i]);
                    } else {
                        let c = st.current.unwrap();
                        assert(cl[st.sections.len() as int].start == j + 1);
                    }
                }
            }
        } else if st.current is Some {
            assert forall|j: int|
                0 <= j < k && is_definition(#[trigger] ls[j], definition_patterns(language)) implies starts_section(
                r.sections,
                j + 1,
            ) || (r.current matches Some(c) && c.1 == j) by {
                assert(j < k - 1);
            }
        } else {
            assert forall|j: int|
                0 <= j < k && is_definition(#[trigger] ls[j], definition_patterns(language)) implies starts_section(
                r.sections,
                j + 1,
            ) || (r.current matches Some(c) && c.1 == j) by {
                assert(j < k - 1);
            }
        }
    }
}

/// Sections start exactly at the top-level definition lines: a line that
/// starts with one of the language's definition patterns opens a section
/// there, and no section starts anywhere else.
pub proof fn sections_start_at_definitions(content: Seq<char>, language: Seq<char>)
    ensures
        forall|k: int|
            0 <= k < lines(content).len() ==> (starts_section(code_sections(content, language), k + 1)
                <==> is_definition(#[trigger] lines(content)[k], definition_patterns(language))),
{
    let ls = lines(content);
    let n = ls.len() as int;
    lemma_scan_starts(ls, language, n);
    let st = scan_sections(ls, language, n);
    let secs = code_sections(content, language);
    assert forall|k: int| 0 <= k < n implies (starts_section(secs, k + 1) <==> is_definition(
        #[trigger] ls[k],
        definition_patterns(language),
    )) by {
        if starts_section(secs, k + 1) {
            let i = choose|i: int| 0 <= i < secs.len() && (#[trigger] secs[i]).start == k + 1;
            if i < st.sections.len() {
                assert(secs[i] == st.sections[i]);
            }
        }
        if is_definition(ls[k], definition_patterns(language)) {
            if starts_section(st.sections, k + 1) {
                let i = choose|i: int| 0 <= i < st.sections.len() && (#[trigger] st.sections[i]).start == k + 1;
                assert(secs[i] == st.sections[i]);
            } else {
                assert(secs[st.sections.len() as int].start == k + 1);
            }
        }
    }
}

/// The definition patterns each language is split at, as listed: Rust's
/// items, Python's `def`, `class` and `async def`, the functions, classes
/// and constants of JavaScript and TypeScript, Go's `func` and `type`,
/// Solidity's functions, contracts, libraries and interfaces, and a general
/// list for any other language.
pub proof fn definition_patterns_listed(language: Seq<char>)
    ensures
        language == "go"@ ==> definition_patterns(language) == seq!["func "@, "type "@],
        language == "rust"@ ==> definition_patterns(language) == seq![
            "fn "@,
            "pub fn "@,
            "struct "@,
            "pub struct "@,
            "enum "@,
            "pub enum "@,
            "impl "@,
            "trait "@,
            "pub trait "@,
            "mod "@,
            "pub mod "@,
        ],
        language == "python"@ ==> definition_patterns(language) == seq!["def "@, "class "@, "async def "@],
        language == "javascript"@ || language == "typescript"@ ==> definition_patterns(language) == seq![
            "function "@,
            "class "@,
            "const "@,
            "export function "@,
            "export class "@,
            "export const "@,
            "export default "@,
        ],
        language == "solidity"@ ==> definition_patterns(language) == seq![
            "function "@,
            "contract "@,
            "library "@,
            "interface "@,
        ],
        language != "rust"@ && language != "python"@ && language != "javascript"@ && language != "typescript"@
            && language != "go"@ && language != "solidity"@ ==> definition_patterns(language) == seq![
            "fn "@,
            "def "@,
            "function "@,
            "class "@,
        ],
{
    reveal_strlit("go");
    reveal_strlit("rust");
    reveal_strlit("python");
    reveal_strlit("javascript");
    reveal_strlit("typescript");
    reveal_strlit("solidity");
    assert("go"@.len() == 2 && "rust"@.len() == 4 && "python"@.len() == 6 && "javascript"@.len() == 10
        && "typescript"@.len() == 10 && "solidity"@.len() == 8);
    assert("javascript"@[0] != "typescript"@[0]);
}

/// In a Go file, a line that starts with `func ` or `type ` opens a section
/// there, and no other line does.
pub proof fn go_sections_start_at_func_and_type(content: Seq<char>)
    ensures
        forall|k: int|
            0 <= k < lines(content).len() ==> (starts_section(code_sections(content, "go"@), k + 1) <==> (starts_with(
                #[trigger] lines(content)[k],
                "func "@,
            ) || starts_with(lines(content)[k], "type "@))),
{
    sections_start_at_definitions(content, "go"@);
    definition_patterns_listed("go"@);
    let pats = definition_patterns("go"@);
    assert forall|k: int| 0 <= k < lines(content).len() implies (is_definition(
        #[trigger] lines(content)[k],
        pats,
    ) <==> (starts_with(lines(content)[k], "func "@) || starts_with(lines(content)[k], "type "@))) by {
        let l = lines(content)[k];
        if starts_with(l, "func "@) {
            assert(starts_with(l, pats[0]));
        }
        if starts_with(l, "type "@) {
            assert(starts_with(l, pats[1]));
        }
    }
}

// ───────────────────────── nodes and edges ─────────────────────────

/// The node for a code section.
pub open spec fn section_node(sec: SectionModel, id: u64) -> NodeModel {
    NodeModel {
        id,
        kind: NodeKind::Section,
        name: sec.name,
        props: PropsModel {
            section_kind: Some("function"@),
            start_line: Some(sec.start as u32),
            end_line: Some(sec.end as u32),
            title: Some(sec.name),
            ..no_props()
        },
    }
}

/// The section and chunk nodes of the first `k` sections: section `j`
/// (from 0) gets id `doc_id + 1 + 2j`, its chunk the id after it.
pub open spec fn code_section_nodes(secs: Seq<SectionModel>, doc_id: u64, k: int) -> Seq<NodeModel>
    decreases k,
{
    if k <= 0 {
        Seq::empty()
    } else {
        let sid = (doc_id + 2 * k - 1) as u64;
        let cid = (doc_id + 2 * k) as u64;
        code_section_nodes(secs, doc_id, k - 1) + seq![
            section_node(secs[k - 1], sid),
            chunk_node(cid, code_chunk_name(cid), secs[k - 1].text, sid),
        ]
    }
}

/// The edges of the first `k` sections: the document contains each section,
/// each section contains its chunk, and each section follows the one before.
pub open spec fn code_section_edges(doc_id: u64, k: int) -> Seq<EdgeModel>
    decreases k,
{
    if k <= 0 {
        Seq::empty()
    } else {
        let sid = (doc_id + 2 * k - 1) as u64;
        let cid = (doc_id + 2 * k) as u64;
        let here = seq![plain(doc_id, sid, EdgeKind::Contains), plain(sid, cid, EdgeKind::Contains)];
        let follows = if k > 1 {
            seq![plain((doc_id + 2 * k - 3) as u64, sid, EdgeKind::Follows)]
        } else {
            Seq::empty()
        };
        code_section_edges(doc_id, k - 1) + here + follows
    }
}

/// A code file with no definitions but some non-blank text becomes one chunk.
pub open spec fn code_whole_chunk(content: Seq<char>, language: Seq<char>) -> bool {
    code_sections(content, language).len() == 0 && trim(content).len() > 0
}

/// The number of node ids a code file takes.
pub open spec fn code_ids_used(content: Seq<char>, language: Seq<char>) -> int {
    if code_whole_chunk(content, language) {
        2
    } else {
        1 + 2 * (code_sections(content, language).len() as int)
    }
}

/// The nodes of a code file: the document, then each section and its chunk,
/// or one chunk with the whole text where there are no sections.
pub open spec fn code_nodes(
    name: Seq<char>,
    path: Seq<char>,
    content: Seq<char>,
    language: Seq<char>,
    doc_id: u64,
) -> Seq<NodeModel> {
    let secs = code_sections(content, language);
    let doc = document_node(doc_id, name, path, ContentKind::Code(language), Some(name), content);
    if code_whole_chunk(content, language) {
        let cid = (doc_id + 1) as u64;
        seq![doc, chunk_node(cid, chunk_name(cid), content, doc_id)]
    } else {
        seq![doc] + code_section_nodes(secs, doc_id, secs.len() as int)
    }
}

/// The edges of a code file.
pub open spec fn code_edges(content: Seq<char>, language: Seq<char>, doc_id: u64) -> Seq<EdgeModel> {
    if code_whole_chunk(content, language) {
        seq![plain(doc_id, (doc_id + 1) as u64, EdgeKind::Contains)]
    } else {
        code_section_edges(doc_id, code_sections(content, language).len() as int)
    }
}

fn make_section_node(sec: &CodeSection, id: u64) -> (r: Node)
    ensures
        r@ == section_node(sec@, id),
{
    let mut props = NodeProperties::empty();
    props.section_kind = Some("function".to_string());
    props.start_line = Some(sec.start_line);
    props.end_line = Some(sec.end_line);
    props.title = Some(sec.name.clone());
    Node { id, kind: NodeKind::Section, name: sec.name.clone(), properties: props }
}

/// Extracts a code file into a document node, a section node per top-level
/// definition with a chunk holding its code, and the edges between them.
/// Ids are taken from `next_id` on.
pub fn extract(path: &str, content: &str, language: &str, next_id: &mut u64) -> (r: (
    Vec<Node>,
    Vec<Edge>,
))
    requires
        lines(content@).len() < u32::MAX,
        *old(next_id) + code_ids_used(content@, language@) <= u64::MAX,
    ensures
        node_views(r.0@) == code_nodes(
            path_file_name(path@),
            path@,
            content@,
            language@,
            *old(next_id),
        ),
        edge_views(r.1@) == code_edges(content@, language@, *old(next_id)),
        *final(next_id) == *old(next_id) + code_ids_used(content@, language@),
{
    let doc_id = *next_id;
    let file_name = file_name_of(path);
    let doc = make_document_node(
        doc_id,
        file_name.clone(),
        path,
        ContentType::Code { language: language.to_string() },
        Some(file_name),
        content,
    );
    let sections = split_code_sections(content, language);
    let ghost secs = code_sections(content@, language@);
    let mut nodes: Vec<Node> = Vec::new();
    let mut edges: Vec<Edge> = Vec::new();
    nodes.push(doc);
    if sections.len() == 0 {
        let cs = chars_of(content);
        let t = trim_chars(&cs);
        if t.len() > 0 {
            let cid = doc_id + 1;
            nodes.push(make_chunk_node(cid, numbered_name("chunk_", cid), content.to_string(), doc_id));
            edges.push(plain_edge(doc_id, cid, EdgeKind::Contains));
            *next_id = doc_id + 2;
        } else {
            *next_id = doc_id + 1;
        }
        proof {
            assert(node_views(nodes@) =~= code_nodes(path_file_name(path@), path@, content@, language@, doc_id));
            assert(edge_views(edges@) =~= code_edges(content@, language@, doc_id));
        }
        return (nodes, edges);
    }
    assert(section_views(sections@).len() == sections@.len());
    let mut i: usize = 0;
    while i < sections.len()
        invariant
            section_views(sections@) == secs,
            secs == code_sections(content@, language@),
            sections.len() > 0,
            i <= sections.len(),
            doc_id + 1 + 2 * sections.len() <= u64::MAX,
            node_views(nodes@) == seq![
                document_node(doc_id, path_file_name(path@), path@, ContentKind::Code(language@), Some(path_file_name(path@)), content@),
            ] + code_section_nodes(secs, doc_id, i as int),
            edge_views(edges@) == code_section_edges(doc_id, i as int),
        decreases sections.len() - i,
    {
        let sid = doc_id + 1 + 2 * (i as u64);
        let cid = sid + 1;
        proof {
            assert(secs[i as int] == sections@[i as int]@);
        }
        let ghost before = nodes@;
        let sn = make_section_node(&sections[i], sid);
        let cn = make_chunk_node(cid, numbered_name("code_chunk_", cid), sections[i].text.clone(), sid);
        assert(sn@ == section_node(secs[i as int], sid));
        assert(cn@ == chunk_node(cid, code_chunk_name(cid), secs[i as int].text, sid));
        nodes.push(sn);
        nodes.push(cn);
        assert(node_views(nodes@) =~= node_views(before) + seq![sn@, cn@]);
        edges.push(plain_edge(doc_id, sid, EdgeKind::Contains));
        edges.push(plain_edge(sid, cid, EdgeKind::Contains));
        if i > 0 {
            edges.push(plain_edge(sid - 2, sid, EdgeKind::Follows));
        }
        proof {
            assert(node_views(nodes@) =~= seq![
                document_node(doc_id, path_file_name(path@), path@, ContentKind::Code(language@), Some(path_file_name(path@)), content@),
            ] + code_section_nodes(secs, doc_id, i + 1));
            assert(edge_views(edges@) =~= code_section_edges(doc_id, i + 1));
        }
        i += 1;
    }
    *next_id = doc_id + 1 + 2 * (sections.len() as u64);
    (nodes, edges)
}


/// The nodes, edges and next free id of a code file, or `None` where it
/// cannot be built: it has too many lines to number, or the ids run out.
pub open spec fn code_graph(path: Seq<char>, content: Seq<char>, language: Seq<char>, doc_id: u64) -> Option<
    (Seq<NodeModel>, Seq<EdgeModel>, int),
> {
    if lines(content).len() < u32::MAX && doc_id + code_ids_used(content, language) <= u64::MAX {
        Some(
            (
                code_nodes(path_file_name(path), path, content, language, doc_id),
                code_edges(content, language, doc_id),
                doc_id + code_ids_used(content, language),
            ),
        )
    } else {
        None
    }
}

/// Extracts a code file (see `extract`), or `None` (with `next_id`
/// unchanged) where it cannot be built.
pub fn try_extract(path: &str, content: &str, language: &str, next_id: &mut u64) -> (r: Option<
    (Vec<Node>, Vec<Edge>),
>)
    ensures
        match code_graph(path@, content@, language@, *old(next_id)) {
            Some((n, e, next)) => r matches Some((a, b)) && node_views(a@) == n && edge_views(b@)
                == e && *final(next_id) == next,
            None => r is None && *final(next_id) == *old(next_id),
        },
{
    let cs = chars_of(content);
    let ls = lines_of(&cs);
    if ls.len() as u64 >= u32::MAX as u64 {
        assert(views(ls@).len() == ls.len());
        return None;
    }
    assert(views(ls@).len() == ls.len());
    let sections = split_code_sections(content, language);
    assert(section_views(sections@).len() == sections.len());
    let used: u128 = if sections.len() == 0 {
        if trim_chars(&cs).len() > 0 {
            2
        } else {
            1
        }
    } else {
        1 + 2 * (sections.len() as u128)
    };
    if *next_id as u128 + used > u64::MAX as u128 {
        return None;
    }
    Some(extract(path, content, language, next_id))
}

} // verus!
