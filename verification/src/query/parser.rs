//! Natural-language queries read into a plan: negated terms, a path scope, a
//! content-type filter, a date window, entities, keywords, a confidence and a
//! suggested keyword/semantic balance.
//!
//! Scores are kept in hundredths: a confidence of 70 is 0.7, an alpha of 35
//! is 0.35.
//!
//! Detection works on the lowercased query, but cuts are made at the same
//! byte offsets of the query itself; where lowercasing changes byte lengths
//! such a cut can fall inside a character, and the query cannot be read
//! (`None`).
use vstd::prelude::*;
use crate::entity::regex::{extract_entities_from_text, match_views, text_entities, MatchModel};
use crate::query::range::{range_step, split_range};
use crate::text::{
    byte_len, char_index_at_byte, char_index_of_byte, char_is_lowercase, char_is_uppercase,
    char_width, chars_of, contains, contains_chars, find_byte, find_byte_of, has_char, join,
    lemma_char_index_in_range, lowercase, replace_all, replace_text, slice_chars, split_str,
    str_bytes, str_eq, string_of, to_lowercase, trim, trim_chars, views, words, words_of,
};

verus! {

broadcast use vstd::string::group_string_axioms;

// ───────────────────────── times ─────────────────────────

/// A UTC time: whole seconds since the Unix epoch and the nanoseconds past them.
#[derive(Debug, Clone, Copy, PartialEq, Eq, Structural)]
pub struct UtcTime {
    pub secs: i64,
    pub nanos: u32,
}

/// The seconds in a day.
pub const DAY_SECS: i64 = 86400;

/// How far from the epoch times are handled: far beyond the calendar range
/// of `chrono`, whose times these are.
pub const TIME_LIMIT: i64 = 3039929748475084800;

/// A time the date arithmetic handles.
pub open spec fn in_time_range(t: UtcTime) -> bool {
    -TIME_LIMIT <= t.secs <= TIME_LIMIT
}

/// The start (midnight UTC) of the day of `t`.
pub open spec fn day_start(t: UtcTime) -> UtcTime {
    UtcTime { secs: (t.secs / DAY_SECS * DAY_SECS) as i64, nanos: 0 }
}

/// `t` moved back by `days` whole days.
pub open spec fn days_before(t: UtcTime, days: int) -> UtcTime {
    UtcTime { secs: (t.secs - days * DAY_SECS) as i64, nanos: t.nanos }
}

/// The number of days since the last Monday (0 on a Monday): the epoch fell
/// on a Thursday.
pub open spec fn days_from_monday(t: UtcTime) -> int {
    (t.secs / DAY_SECS + 3) % 7
}

/// A window of modification times; either end may be open.
pub struct DateRange {
    pub after: Option<UtcTime>,
    pub before: Option<UtcTime>,
}

impl Default for DateRange {
    fn default() -> (r: Self)
        ensures
            r.after is None,
            r.before is None,
    {
        DateRange { after: None, before: None }
    }
}

// ───────────────────────── the plan ─────────────────────────

/// What a query asks for.
pub struct QueryPlan {
    pub keywords: Vec<String>,
    pub negations: Vec<String>,
    pub entities: Vec<String>,
    pub type_filter: Option<String>,
    pub scope_filter: Option<String>,
    pub date_filter: Option<DateRange>,
    /// In hundredths.
    pub confidence: u32,
    /// In hundredths.
    pub suggested_alpha: Option<u32>,
}

/// The mathematical value of a plan.
pub ghost struct PlanModel {
    pub keywords: Seq<Seq<char>>,
    pub negations: Seq<Seq<char>>,
    pub entities: Seq<Seq<char>>,
    pub type_filter: Option<Seq<char>>,
    pub scope_filter: Option<Seq<char>>,
    pub date_filter: Option<(Option<UtcTime>, Option<UtcTime>)>,
    pub confidence: u32,
    pub suggested_alpha: Option<u32>,
}

/// The texts of a list of strings.
pub open spec fn texts(v: Seq<String>) -> Seq<Seq<char>> {
    v.map_values(|s: String| s@)
}

/// The text of an optional string.
pub open spec fn opt_text(o: Option<String>) -> Option<Seq<char>> {
    match o {
        Some(s) => Some(s@),
        None => None,
    }
}

impl View for QueryPlan {
    type V = PlanModel;

    open spec fn view(&self) -> PlanModel {
        PlanModel {
            keywords: texts(self.keywords@),
            negations: texts(self.negations@),
            entities: texts(self.entities@),
            type_filter: opt_text(self.type_filter),
            scope_filter: opt_text(self.scope_filter),
            date_filter: match self.date_filter {
                Some(d) => Some((d.after, d.before)),
                None => None,
            },
            confidence: self.confidence,
            suggested_alpha: self.suggested_alpha,
        }
    }
}

// ───────────────────────── 1. negation ─────────────────────────

/// The words that start a negation, in the order tried.
pub open spec fn negation_keyword(k: int) -> Seq<char> {
    if k == 0 {
        "not "@
    } else if k == 1 {
        "except "@
    } else if k == 2 {
        "excluding "@
    } else if k == 3 {
        "without "@
    } else {
        "but not "@
    }
}

/// The negated words and the rest of the query: at the first negation word
/// (tried in order) found in the lowercased query, the words after it are
/// negated and the query is cut before it. `None` where a cut falls inside a
/// character.
pub open spec fn split_negation(rem: Seq<char>, k: int) -> Option<(Seq<Seq<char>>, Seq<char>)>
    decreases 5 - k,
{
    if k < 0 || k >= 5 {
        Some((Seq::empty(), rem))
    } else {
        match find_byte(lowercase(rem), negation_keyword(k)) {
            None => split_negation(rem, k + 1),
            Some(idx) => match (
                char_index_at_byte(rem, idx + negation_keyword(k).len()),
                char_index_at_byte(rem, idx),
            ) {
                (Some(a), Some(b)) => Some((words(rem.skip(a)), rem.take(b))),
                _ => None,
            },
        }
    }
}

/// The words that start a negation, as the query language lists them, in the
/// order they are tried.
pub open spec fn listed_negation_words() -> Seq<Seq<char>> {
    seq!["not "@, "except "@, "excluding "@, "without "@, "but not "@]
}

/// The query cut at a negation word of `n` characters found at byte `idx` of
/// its lowercase: the words after the negation word, and the query before it.
pub open spec fn cut_at_negation(rem: Seq<char>, idx: int, n: int) -> Option<(Seq<Seq<char>>, Seq<char>)> {
    match (char_index_at_byte(rem, idx + n), char_index_at_byte(rem, idx)) {
        (Some(a), Some(b)) => Some((words(rem.skip(a)), rem.take(b))),
        _ => None,
    }
}

proof fn lemma_negation_from(rem: Seq<char>, k0: int, k: int)
    requires
        0 <= k0 <= k <= 5,
        forall|j: int| k0 <= j < k ==> find_byte(lowercase(rem), #[trigger] listed_negation_words()[j]) is None,
    ensures
        split_negation(rem, k0) == split_negation(rem, k),
    decreases k - k0,
{
    if k0 < k {
        assert(negation_keyword(k0) == listed_negation_words()[k0]);
        lemma_negation_from(rem, k0 + 1, k);
    }
}

/// Negations are read at the first of the words `not `, `except `,
/// `excluding `, `without `, `but not ` (tried in that order) that the
/// lowercased query holds: the words after that word are the negations and
/// the query is cut before it, so they are not read again as keywords. A
/// query holding none of them has no negations and is kept whole.
pub proof fn negation_words_tried_in_order(rem: Seq<char>, k: int)
    requires
        0 <= k <= 5,
        forall|j: int| 0 <= j < k ==> find_byte(lowercase(rem), #[trigger] listed_negation_words()[j]) is None,
    ensures
        k == 5 ==> split_negation(rem, 0) == Some((Seq::<Seq<char>>::empty(), rem)),
        k < 5 ==> (find_byte(lowercase(rem), listed_negation_words()[k]) matches Some(idx) ==> split_negation(rem, 0)
            == cut_at_negation(rem, idx, listed_negation_words()[k].len() as int)),
{
    lemma_negation_from(rem, 0, k);
    if k < 5 {
        assert(negation_keyword(k) == listed_negation_words()[k]);
    }
}

/// The plan's negations are those read from the query once its
/// `--from`/`--to` bounds are taken out, and the rest of the plan is read
/// from the query cut before the negation word.
pub proof fn plan_negations_come_from_the_negation_word(query: Seq<char>, now: UtcTime)
    ensures
        query_plan(query, now) matches Some(p) ==> (split_negation(split_range(query).2, 0) matches Some(
            (ns, rest),
        ) && p.negations == ns && split_scope(rest, 0) is Some),
{
}

// ───────────────────────── 2. scope ─────────────────────────

/// The phrases that introduce a path, in the order tried.
pub open spec fn scope_pattern(k: int) -> Seq<char> {
    if k == 0 {
        "in ~/"@
    } else if k == 1 {
        "in /"@
    } else if k == 2 {
        "under ~/"@
    } else if k == 3 {
        "under /"@
    } else {
        "in ./"@
    }
}

/// How many characters of the phrase belong to the path.
pub open spec fn scope_back(k: int) -> int {
    if k == 0 || k == 2 {
        2
    } else {
        1
    }
}

/// The path scope and the rest of the query: at the first phrase found (in
/// order), the first word from the path's start is the scope, and is cut out
/// together with the phrase; a phrase with no word after it ends the search
/// with no scope. `None` where a cut falls inside a character.
pub open spec fn split_scope(rem: Seq<char>, k: int) -> Option<(Option<Seq<char>>, Seq<char>)>
    decreases 5 - k,
{
    if k < 0 || k >= 5 {
        Some((None, rem))
    } else {
        match find_byte(lowercase(rem), scope_pattern(k)) {
            None => split_scope(rem, k + 1),
            Some(idx) => {
                let ps = idx + scope_pattern(k).len() - scope_back(k);
                match char_index_at_byte(rem, ps) {
                    None => None,
                    Some(c) => {
                        let ws = words(rem.skip(c));
                        if ws.len() == 0 {
                            Some((None, rem))
                        } else {
                            let end = ps + byte_len(ws[0]);
                            match (char_index_at_byte(rem, end), char_index_at_byte(rem, idx)) {
                                (Some(e), Some(i)) => Some(
                                    (Some(rem.subrange(c, e)), rem.take(i) + rem.skip(e)),
                                ),
                                _ => None,
                            }
                        }
                    },
                }
            },
        }
    }
}

// ───────────────────────── 3. type ─────────────────────────

/// The number of type keywords.
pub const TYPE_KEYWORD_COUNT: usize = 17;

/// The type keywords, in the order tried.
pub open spec fn type_keyword(t: int) -> Seq<char> {
    if t == 0 {
        "blog post"@
    } else if t == 1 {
        "blog posts"@
    } else if t == 2 {
        "markdown"@
    } else if t == 3 {
        " md "@
    } else if t == 4 {
        "code"@
    } else if t == 5 {
        "script"@
    } else if t == 6 {
        "function"@
    } else if t == 7 {
        "source"@
    } else if t == 8 {
        "config"@
    } else if t == 9 {
        "configuration"@
    } else if t == 10 {
        " json "@
    } else if t == 11 {
        " yaml "@
    } else if t == 12 {
        " yml "@
    } else if t == 13 {
        "notes"@
    } else if t == 14 {
        "text"@
    } else if t == 15 {
        "plain text"@
    } else {
        "pdf"@
    }
}

/// The content type a type keyword selects.
pub open spec fn keyword_type(t: int) -> Seq<char> {
    if t < 4 {
        "markdown"@
    } else if t < 8 {
        "code"@
    } else if t < 13 {
        "yaml"@
    } else if t < 16 {
        "plaintext"@
    } else {
        "pdf"@
    }
}

/// The type filter and the rest of the query: the first keyword (in order)
/// found in the lowercased query padded with a space each side selects its
/// type, and every occurrence of the keyword (trimmed) is removed from the
/// query, which is then trimmed.
pub open spec fn split_type(rem: Seq<char>, lower: Seq<char>, t: int) -> (Option<Seq<char>>, Seq<char>)
    decreases TYPE_KEYWORD_COUNT - t,
{
    if t < 0 || t >= TYPE_KEYWORD_COUNT {
        (None, rem)
    } else if contains(lower, type_keyword(t)) {
        (Some(keyword_type(t)), trim(replace_all(rem, trim(type_keyword(t)), Seq::empty())))
    } else {
        split_type(rem, lower, t + 1)
    }
}

/// The lowercased query with a space each side.
pub open spec fn padded_lower(rem: Seq<char>) -> Seq<char> {
    seq![' '] + lowercase(rem) + seq![' ']
}

// ───────────────────────── 4. dates ─────────────────────────

/// `rem` without the two phrases (in that order), trimmed.
pub open spec fn without2(rem: Seq<char>, a: Seq<char>, b: Seq<char>) -> Seq<char> {
    trim(replace_all(replace_all(rem, a, Seq::empty()), b, Seq::empty()))
}

/// The date window and the rest of the query: from midnight today; from
/// the same time on Monday this week; from midnight on the first of this
/// month (none where the calendar cannot place the time); the 30 or the 7
/// days up to now for last month and last week; the last 7 days for recent
/// changes.
pub open spec fn split_date(rem: Seq<char>, now: UtcTime) -> (Option<(Option<UtcTime>, Option<UtcTime>)>, Seq<char>) {
    let l = lowercase(rem);
    if contains(l, "modified today"@) || contains(l, "from today"@) {
        (Some((Some(day_start(now)), None)), without2(rem, "modified today"@, "from today"@))
    } else if contains(l, "this week"@) || contains(l, "modified this week"@) {
        (
            Some((Some(days_before(now, days_from_monday(now))), None)),
            without2(rem, "modified this week"@, "this week"@),
        )
    } else if contains(l, "this month"@) || contains(l, "modified this month"@) {
        (
            match utc_day_of_month(now.secs) {
                Some(d) => Some((Some(days_before(day_start(now), d - 1)), None)),
                None => None,
            },
            without2(rem, "modified this month"@, "this month"@),
        )
    } else if contains(l, "last month"@) || contains(l, "modified last month"@) {
        (
            Some((Some(days_before(now, 30)), Some(now))),
            without2(rem, "modified last month"@, "last month"@),
        )
    } else if contains(l, "last week"@) || contains(l, "modified last week"@) {
        (
            Some((Some(days_before(now, 7)), Some(now))),
            without2(rem, "modified last week"@, "last week"@),
        )
    } else if contains(l, "recent"@) || contains(l, "recently"@) {
        (Some((Some(days_before(now, 7)), None)), without2(rem, "recently"@, "recent"@))
    } else {
        (None, rem)
    }
}

// ───────────────────────── 6. keywords ─────────────────────────

/// The words dropped from keywords (compared lowercased).
pub open spec fn is_query_stopword(w: Seq<char>) -> bool {
    w == "the"@ || w == "a"@ || w == "an"@ || w == "about"@ || w == "that"@ || w == "which"@
        || w == "where"@ || w == "files"@ || w == "documents"@ || w == "find"@ || w == "show"@
        || w == "get"@ || w == "me"@ || w == "all"@ || w == "related"@ || w == "to"@ || w
        == "of"@ || w == "for"@ || w == "with"@
}

/// The keywords of the first `k` words: each lowercased, kept when it is not
/// a stop word and is longer than one byte.
pub open spec fn keywords_of(ws: Seq<Seq<char>>, k: int) -> Seq<Seq<char>>
    decreases k,
{
    if k <= 0 {
        Seq::empty()
    } else {
        let prev = keywords_of(ws, k - 1);
        let w = lowercase(ws[k - 1]);
        if !is_query_stopword(w) && byte_len(w) > 1 {
            prev.push(w)
        } else {
            prev
        }
    }
}

/// The values of a list of entity matches.
pub open spec fn match_values(ms: Seq<MatchModel>) -> Seq<Seq<char>> {
    ms.map_values(|m: MatchModel| m.value)
}

// ───────────────────────── 7. confidence ─────────────────────────

/// The confidence in a plan, in hundredths: 50, plus 20 for two or more
/// keywords and 10 each for a type filter, entities and a scope, at most 100.
pub open spec fn plan_confidence(nkeywords: int, has_type: bool, has_entities: bool, has_scope: bool) -> u32 {
    let c = 50 + (if nkeywords >= 2 {
        20int
    } else {
        0
    }) + (if has_type {
        10int
    } else {
        0
    }) + (if has_entities {
        10int
    } else {
        0
    }) + (if has_scope {
        10int
    } else {
        0
    });
    if c > 100 {
        100
    } else {
        c as u32
    }
}

// ───────────────────────── alpha ─────────────────────────

/// The code of `c` with ASCII capitals folded to small letters.
pub open spec fn ascii_fold(c: char) -> u32 {
    if 'A' <= c && c <= 'Z' {
        ((c as u32) + 32) as u32
    } else {
        c as u32
    }
}

/// Equal ignoring ASCII case (`str::eq_ignore_ascii_case`).
pub open spec fn eq_ignore_ascii_case(a: Seq<char>, b: Seq<char>) -> bool {
    a.len() == b.len() && forall|i: int| 0 <= i < a.len() ==> ascii_fold(#[trigger] a[i]) == ascii_fold(b[i])
}

/// The question words, in order.
pub open spec fn question_words() -> Seq<Seq<char>> {
    seq!["what"@, "how"@, "why"@, "when"@, "where"@, "who"@, "which"@, "does"@, "can"@, "should"@]
}

/// The word equals some question word ignoring ASCII case.
pub open spec fn starts_question(ws: Seq<Seq<char>>) -> bool {
    ws.len() > 0 && exists|q: int| 0 <= q < 10 && eq_ignore_ascii_case(ws[0], #[trigger] question_words()[q])
}

/// Whether a word mixes cases beyond a leading capital: it has both cases,
/// and some character after the first is not lowercase. (Always known; the
/// `Option` is that of the checks built on it.)
pub open spec fn mixed_case(w: Seq<char>) -> Option<bool> {
    let has_upper = exists|i: int| 0 <= i < w.len() && crate::text::uppercase_char(#[trigger] w[i]);
    let has_lower = exists|i: int| 0 <= i < w.len() && crate::text::lowercase_char(#[trigger] w[i]);
    if !(has_upper && has_lower) {
        Some(false)
    } else {
        Some(!(forall|i: int| 1 <= i < w.len() ==> crate::text::lowercase_char(#[trigger] w[i])))
    }
}

/// A word that looks like a code identifier: it holds `_`, `::` or `.`, or
/// mixes cases.
pub open spec fn technical(w: Seq<char>) -> Option<bool> {
    if w.contains('_') || contains(w, "::"@) || w.contains('.') {
        Some(true)
    } else {
        mixed_case(w)
    }
}

/// Whether any of the words from `i` on is technical, checked in order and
/// stopping at the first that is; `None` where a check cannot be made.
pub open spec fn any_technical(ws: Seq<Seq<char>>, i: int) -> Option<bool>
    decreases ws.len() - i,
{
    if i < 0 || i >= ws.len() {
        Some(false)
    } else {
        match technical(ws[i]) {
            None => None,
            Some(true) => Some(true),
            Some(false) => any_technical(ws, i + 1),
        }
    }
}

/// The number of the first `k` words that are stop words, lowercased.
pub open spec fn stop_count(ws: Seq<Seq<char>>, k: int) -> int
    decreases k,
{
    if k <= 0 {
        0
    } else {
        stop_count(ws, k - 1) + if is_query_stopword(lowercase(ws[k - 1])) {
            1int
        } else {
            0
        }
    }
}

/// The suggested balance between keyword (low) and semantic (high) search,
/// in hundredths: 50, plus 15 for a leading question word, minus 15 for at
/// most two keywords, plus 10 for five or more words, minus 25 for a quote,
/// minus 20 for a technical word, plus 10 when more than 40% of the words
/// are stop words; kept within 5 and 95. `None` where the technical check
/// cannot be made.
pub open spec fn dynamic_alpha(query: Seq<char>, nkeywords: int) -> Option<u32> {
    let ws = words(query);
    match any_technical(ws, 0) {
        None => None,
        Some(tech) => {
            let a = 50 + (if starts_question(ws) {
                15int
            } else {
                0
            }) - (if nkeywords <= 2 {
                15int
            } else {
                0
            }) + (if ws.len() >= 5 {
                10int
            } else {
                0
            }) - (if query.contains('"') {
                25int
            } else {
                0
            }) - (if tech {
                20int
            } else {
                0
            }) + (if ws.len() > 0 && 5 * stop_count(ws, ws.len() as int) > 2 * ws.len() {
                10int
            } else {
                0
            });
            Some(
                if a < 5 {
                    5
                } else if a > 95 {
                    95
                } else {
                    a as u32
                },
            )
        },
    }
}

// ───────────────────────── the whole ─────────────────────────

/// A date window with explicit bounds laid over it: each bound given
/// replaces that end of the window; with no bound given the window is kept.
pub open spec fn with_bounds(
    window: Option<(Option<UtcTime>, Option<UtcTime>)>,
    from: Option<UtcTime>,
    to: Option<UtcTime>,
) -> Option<(Option<UtcTime>, Option<UtcTime>)> {
    if from is None && to is None {
        window
    } else {
        let (a, b) = match window {
            Some(w) => w,
            None => (None, None),
        };
        Some((if from is Some { from } else { a }, if to is Some { to } else { b }))
    }
}

fn bounded(window: Option<DateRange>, from: Option<UtcTime>, to: Option<UtcTime>) -> (r: Option<DateRange>)
    ensures
        (match r {
            Some(d) => Some((d.after, d.before)),
            None => None,
        }) == with_bounds(
            match window {
                Some(d) => Some((d.after, d.before)),
                None => None,
            },
            from,
            to,
        ),
{
    if from.is_none() && to.is_none() {
        window
    } else {
        let (a, b) = match window {
            Some(d) => (d.after, d.before),
            None => (None, None),
        };
        Some(DateRange { after: if from.is_some() { from } else { a }, before: if to.is_some() { to } else { b } })
    }
}

/// The plan for a query at time `now`, or `None` where the query cannot be
/// read (a cut would fall inside a character). Explicit `--from` and `--to`
/// bounds are taken out first; the rest is read for negations, a scope, a
/// type, a date phrase, entities and keywords, in that order.
pub open spec fn query_plan(query: Seq<char>, now: UtcTime) -> Option<PlanModel> {
    let (from, to, q0) = split_range(query);
    match split_negation(q0, 0) {
        None => None,
        Some((negations, r1)) => match split_scope(r1, 0) {
            None => None,
            Some((scope, r2)) => {
                let (type_filter, r3) = split_type(r2, padded_lower(r2), 0);
                let (date_filter, r4) = split_date(r3, now);
                let entities = match_values(text_entities(r4));
                let ws = words(r4);
                let keywords = keywords_of(ws, ws.len() as int);
                match dynamic_alpha(query, keywords.len() as int) {
                    None => None,
                    Some(alpha) => Some(
                        PlanModel {
                            keywords,
                            negations,
                            entities,
                            type_filter,
                            scope_filter: scope,
                            date_filter: with_bounds(date_filter, from, to),
                            confidence: plan_confidence(
                                keywords.len() as int,
                                type_filter is Some,
                                entities.len() > 0,
                                scope is Some,
                            ),
                            suggested_alpha: Some(alpha),
                        },
                    ),
                }
            },
        },
    }
}


// ───────────────────────── executable steps ─────────────────────────

/// The UTF-8 length of a character vector.
fn bytes_of(v: &Vec<char>) -> (r: usize)
    ensures
        r == byte_len(v@),
{
    let s = string_of(v);
    str_bytes(s.as_str())
}

/// The lowercase of a character vector and its UTF-8 length.
fn lower_of(v: &Vec<char>) -> (r: (Vec<char>, usize))
    ensures
        r.0@ == lowercase(v@),
        r.1 == byte_len(r.0@),
{
    let s = string_of(v);
    let l = to_lowercase(s.as_str());
    let n = str_bytes(l.as_str());
    (chars_of(l.as_str()), n)
}

/// The character index at byte offset `a + b` of `s`, if that is a boundary.
fn index_at_sum(s: &Vec<char>, a: usize, b: usize) -> (r: Option<usize>)
    requires
        byte_len(s@) <= usize::MAX,
    ensures
        match char_index_at_byte(s@, a + b) {
            Some(k) => r == Some(k as usize),
            None => r is None,
        },
{
    proof {
        lemma_char_index_in_range(s@, a + b);
    }
    match a.checked_add(b) {
        Some(x) => {
            let r = char_index_of_byte(s, x);
            proof {
                crate::ingest::plaintext::lemma_char_index_at_byte(s@, x as int);
            }
            r
        },
        None => None,
    }
}

fn index_at(s: &Vec<char>, b: usize) -> (r: Option<usize>)
    ensures
        match char_index_at_byte(s@, b as int) {
            Some(k) => r == Some(k as usize),
            None => r is None,
        },
{
    let r = char_index_of_byte(s, b);
    proof {
        crate::ingest::plaintext::lemma_char_index_at_byte(s@, b as int);
    }
    r
}

fn negation_keyword_at(k: usize) -> (r: &'static str)
    ensures
        r@ == negation_keyword(k as int),
{
    if k == 0 {
        "not "
    } else if k == 1 {
        "except "
    } else if k == 2 {
        "excluding "
    } else if k == 3 {
        "without "
    } else {
        "but not "
    }
}

fn negation_step(rem: &Vec<char>) -> (r: Option<(Vec<Vec<char>>, Vec<char>)>)
    ensures
        match split_negation(rem@, 0) {
            Some((ns, rest)) => r matches Some((a, b)) && views(a@) == ns && b@ == rest,
            None => r is None,
        },
{
    let rb = bytes_of(rem);
    let (lower, lb) = lower_of(rem);
    let mut k: usize = 0;
    while k < 5
        invariant
            k <= 5,
            lower@ == lowercase(rem@),
            lb == byte_len(lower@),
            rb == byte_len(rem@),
            split_negation(rem@, 0) == split_negation(rem@, k as int),
        decreases 5 - k,
    {
        let kw = chars_of(negation_keyword_at(k));
        match find_byte_of(&lower, &kw) {
            Some(idx) => {
                let a = index_at_sum(rem, idx, kw.len());
                let b = index_at(rem, idx);
                match (a, b) {
                    (Some(a), Some(b)) => {
                        proof {
                            lemma_char_index_in_range(rem@, idx + kw.len());
                            lemma_char_index_in_range(rem@, idx as int);
                        }
                        let after = slice_chars(rem, a, rem.len());
                        let before = slice_chars(rem, 0, b);
                        proof {
                            assert(after@ =~= rem@.skip(a as int));
                            assert(before@ =~= rem@.take(b as int));
                        }
                        return Some((words_of(&after), before));
                    },
                    _ => {
                        return None;
                    },
                }
            },
            None => {},
        }
        k += 1;
    }
    Some((Vec::new(), rem.clone()))
}

fn scope_pattern_at(k: usize) -> (r: &'static str)
    ensures
        r@ == scope_pattern(k as int),
{
    if k == 0 {
        "in ~/"
    } else if k == 1 {
        "in /"
    } else if k == 2 {
        "under ~/"
    } else if k == 3 {
        "under /"
    } else {
        "in ./"
    }
}

fn scope_step(rem: &Vec<char>) -> (r: Option<(Option<Vec<char>>, Vec<char>)>)
    ensures
        match split_scope(rem@, 0) {
            Some((sc, rest)) => r matches Some((a, b)) && b@ == rest && match sc {
                Some(x) => a matches Some(y) && y@ == x,
                None => a is None,
            },
            None => r is None,
        },
{
    let rb = bytes_of(rem);
    let (lower, lb) = lower_of(rem);
    let mut k: usize = 0;
    while k < 5
        invariant
            k <= 5,
            lower@ == lowercase(rem@),
            lb == byte_len(lower@),
            rb == byte_len(rem@),
            split_scope(rem@, 0) == split_scope(rem@, k as int),
        decreases 5 - k,
    {
        let pat = chars_of(scope_pattern_at(k));
        match find_byte_of(&lower, &pat) {
            Some(idx) => {
                proof {
                    reveal_strlit("in ~/");
                    reveal_strlit("in /");
                    reveal_strlit("under ~/");
                    reveal_strlit("under /");
                    reveal_strlit("in ./");
                }
                let back: usize = if k == 0 || k == 2 {
                    2
                } else {
                    1
                };
                let c = index_at_sum(rem, idx, pat.len() - back);
                match c {
                    None => {
                        return None;
                    },
                    Some(c) => {
                        proof {
                            lemma_char_index_in_range(rem@, idx + pat.len() - back);
                        }
                        let tail = slice_chars(rem, c, rem.len());
                        proof {
                            assert(tail@ =~= rem@.skip(c as int));
                        }
                        let ws = words_of(&tail);
                        if ws.len() == 0 {
                            let same = rem.clone();
                            assert(same@ == rem@);
                            return Some((None, same));
                        }
                        proof {
                            assert(views(ws@)[0] == ws@[0]@);
                        }
                        let wl = bytes_of(&ws[0]);
                        let ps = idx + (pat.len() - back);
                        let e = index_at_sum(rem, ps, wl);
                        let i = index_at(rem, idx);
                        match (e, i) {
                            (Some(e), Some(i)) => {
                                proof {
                                    lemma_char_index_in_range(rem@, ps + wl);
                                    lemma_char_index_in_range(rem@, idx as int);
                                    if e < c {
                                        crate::text::lemma_byte_len_mono(rem@, e as int, c as int);
                                    }
                                }
                                let sc = slice_chars(rem, c, e);
                                let front = slice_chars(rem, 0, i);
                                let back_part = slice_chars(rem, e, rem.len());
                                let rest = crate::text::concat(&front, &back_part);
                                proof {
                                    assert(front@ =~= rem@.take(i as int));
                                    assert(back_part@ =~= rem@.skip(e as int));
                                }
                                return Some((Some(sc), rest));
                            },
                            _ => {
                                return None;
                            },
                        }
                    },
                }
            },
            None => {},
        }
        k += 1;
    }
    Some((None, rem.clone()))
}

fn type_keyword_at(t: usize) -> (r: &'static str)
    ensures
        r@ == type_keyword(t as int),
{
    if t == 0 {
        "blog post"
    } else if t == 1 {
        "blog posts"
    } else if t == 2 {
        "markdown"
    } else if t == 3 {
        " md "
    } else if t == 4 {
        "code"
    } else if t == 5 {
        "script"
    } else if t == 6 {
        "function"
    } else if t == 7 {
        "source"
    } else if t == 8 {
        "config"
    } else if t == 9 {
        "configuration"
    } else if t == 10 {
        " json "
    } else if t == 11 {
        " yaml "
    } else if t == 12 {
        " yml "
    } else if t == 13 {
        "notes"
    } else if t == 14 {
        "text"
    } else if t == 15 {
        "plain text"
    } else {
        "pdf"
    }
}

fn keyword_type_at(t: usize) -> (r: &'static str)
    ensures
        r@ == keyword_type(t as int),
{
    if t < 4 {
        "markdown"
    } else if t < 8 {
        "code"
    } else if t < 13 {
        "yaml"
    } else if t < 16 {
        "plaintext"
    } else {
        "pdf"
    }
}

fn type_step(rem: &Vec<char>) -> (r: (Option<String>, Vec<char>))
    ensures
        ({
            let (tf, rest) = split_type(rem@, padded_lower(rem@), 0);
            opt_text(r.0) == tf && r.1@ == rest
        }),
{
    let (l, _n) = lower_of(rem);
    let mut lower: Vec<char> = Vec::new();
    lower.push(' ');
    let mut lower = crate::text::concat(&lower, &l);
    lower.push(' ');
    proof {
        assert(lower@ =~= padded_lower(rem@));
    }
    let mut t: usize = 0;
    while t < TYPE_KEYWORD_COUNT
        invariant
            t <= TYPE_KEYWORD_COUNT,
            lower@ == padded_lower(rem@),
            split_type(rem@, padded_lower(rem@), 0) == split_type(rem@, padded_lower(rem@), t as int),
        decreases TYPE_KEYWORD_COUNT - t,
    {
        let kw = chars_of(type_keyword_at(t));
        if contains_chars(&lower, &kw) {
            let tk = trim_chars(&kw);
            proof {
                reveal_strlit("blog post");
                reveal_strlit("blog posts");
                reveal_strlit("markdown");
                reveal_strlit(" md ");
                reveal_strlit("code");
                reveal_strlit("script");
                reveal_strlit("function");
                reveal_strlit("source");
                reveal_strlit("config");
                reveal_strlit("configuration");
                reveal_strlit(" json ");
                reveal_strlit(" yaml ");
                reveal_strlit(" yml ");
                reveal_strlit("notes");
                reveal_strlit("text");
                reveal_strlit("plain text");
                reveal_strlit("pdf");
                crate::text::lemma_trim_nonempty(kw@, 1);
            }
            let replaced = replace_text(rem, &tk, &Vec::new());
            let rest = trim_chars(&replaced);
            return (Some(keyword_type_at(t).to_string()), rest);
        }
        t += 1;
    }
    (None, rem.clone())
}


// ───────────────────────── date arithmetic ─────────────────────────

proof fn lemma_day_offset(secs: int)
    ensures
        (secs + 3039929748475084800) / 86400 == secs / 86400 + 35184372088832,
        (secs / 86400 + 3) % 7 == ((secs + 3039929748475084800) / 86400 + 2) % 7,
{
    let q = secs / 86400;
    let r = secs % 86400;
    vstd::arithmetic::div_mod::lemma_fundamental_div_mod(secs, 86400);
    assert(secs + 3039929748475084800 == 86400 * (q + 35184372088832) + r) by (nonlinear_arith)
        requires
            secs == 86400 * q + r,
    ;
    vstd::arithmetic::div_mod::lemma_div_multiples_vanish_fancy(q + 35184372088832, r, 86400);
    vstd::arithmetic::div_mod::lemma_mod_multiples_vanish(5026338869833, q + 3, 7);
}

/// The start of the day of `t`.
pub fn start_of_day(t: UtcTime) -> (r: UtcTime)
    requires
        in_time_range(t),
    ensures
        r == day_start(t),
{
    proof {
        lemma_day_offset(t.secs as int);
    }
    let off = t.secs + TIME_LIMIT;
    let d = off / DAY_SECS;
    assert(d * DAY_SECS <= off) by (nonlinear_arith)
        requires
            d == off / DAY_SECS,
            off >= 0,
    ;
    UtcTime { secs: d * DAY_SECS - TIME_LIMIT, nanos: 0 }
}

/// The days since the last Monday at `t`.
pub fn weekday_from_monday(t: UtcTime) -> (r: i64)
    requires
        in_time_range(t),
    ensures
        r == days_from_monday(t),
        0 <= r < 7,
{
    proof {
        lemma_day_offset(t.secs as int);
    }
    let off = t.secs + TIME_LIMIT;
    let d = off / DAY_SECS;
    (d + 2) % 7
}

/// `t` moved back by `days` whole days.
pub fn minus_days(t: UtcTime, days: i64) -> (r: UtcTime)
    requires
        in_time_range(t),
        0 <= days <= 30,
    ensures
        r == days_before(t, days as int),
{
    UtcTime { secs: t.secs - days * DAY_SECS, nanos: t.nanos }
}

/// The day of the month, in UTC, at `secs` seconds after the epoch, as
/// chrono's calendar gives it.
pub uninterp spec fn utc_day_of_month(secs: i64) -> Option<u32>;

/// Calls `chrono::DateTime::from_timestamp` and `chrono::Datelike::day`.
/// Trusted: the result is the named `utc_day_of_month` of `secs`; it is
/// `None` where chrono refuses the timestamp (outside its calendar), and a
/// day is from 1 to 31, as `Datelike::day` documents.
#[verifier::external_body]
fn day_of_month(secs: i64) -> (r: Option<u32>)
    ensures
        r == utc_day_of_month(secs),
        r matches Some(d) ==> 1 <= d <= 31,
{
    match chrono::DateTime::from_timestamp(secs, 0) {
        Some(t) => Some(chrono::Datelike::day(&t)),
        None => None,
    }
}

/// Midnight on the first of the month of `t`, which is day `day` of it.
fn month_start(t: UtcTime, day: u32) -> (r: UtcTime)
    requires
        in_time_range(t),
        1 <= day <= 31,
    ensures
        r == days_before(day_start(t), day - 1),
{
    let start = start_of_day(t);
    let back = (day - 1) as i64;
    UtcTime { secs: start.secs - back * DAY_SECS, nanos: 0 }
}

fn without_both(rem: &Vec<char>, a: &str, b: &str) -> (r: Vec<char>)
    requires
        a@.len() > 0,
        b@.len() > 0,
    ensures
        r@ == without2(rem@, a@, b@),
{
    let r1 = replace_text(rem, &chars_of(a), &Vec::new());
    let r2 = replace_text(&r1, &chars_of(b), &Vec::new());
    trim_chars(&r2)
}

fn date_step(rem: &Vec<char>, now: UtcTime) -> (r: (Option<DateRange>, Vec<char>))
    requires
        in_time_range(now),
    ensures
        ({
            let (df, rest) = split_date(rem@, now);
            r.1@ == rest && match df {
                Some((a, b)) => r.0 matches Some(d) && d.after == a && d.before == b,
                None => r.0 is None,
            }
        }),
{
    proof {
        reveal_strlit("modified today");
        reveal_strlit("from today");
        reveal_strlit("modified this week");
        reveal_strlit("this week");
        reveal_strlit("modified this month");
        reveal_strlit("this month");
        reveal_strlit("modified last month");
        reveal_strlit("last month");
        reveal_strlit("modified last week");
        reveal_strlit("last week");
        reveal_strlit("recently");
        reveal_strlit("recent");
    }
    let (l, _n) = lower_of(rem);
    if contains_chars(&l, &chars_of("modified today")) || contains_chars(&l, &chars_of("from today")) {
        let d = DateRange { after: Some(start_of_day(now)), before: None };
        (Some(d), without_both(rem, "modified today", "from today"))
    } else if contains_chars(&l, &chars_of("this week")) || contains_chars(&l, &chars_of("modified this week")) {
        let days = weekday_from_monday(now);
        let d = DateRange { after: Some(minus_days(now, days)), before: None };
        (Some(d), without_both(rem, "modified this week", "this week"))
    } else if contains_chars(&l, &chars_of("this month")) || contains_chars(&l, &chars_of("modified this month")) {
        let d = match day_of_month(now.secs) {
            Some(day) => Some(DateRange { after: Some(month_start(now, day)), before: None }),
            None => None,
        };
        (d, without_both(rem, "modified this month", "this month"))
    } else if contains_chars(&l, &chars_of("last month")) || contains_chars(&l, &chars_of("modified last month")) {
        let d = DateRange { after: Some(minus_days(now, 30)), before: Some(now) };
        (Some(d), without_both(rem, "modified last month", "last month"))
    } else if contains_chars(&l, &chars_of("last week")) || contains_chars(&l, &chars_of("modified last week")) {
        let d = DateRange { after: Some(minus_days(now, 7)), before: Some(now) };
        (Some(d), without_both(rem, "modified last week", "last week"))
    } else if contains_chars(&l, &chars_of("recent")) || contains_chars(&l, &chars_of("recently")) {
        let d = DateRange { after: Some(minus_days(now, 7)), before: None };
        (Some(d), without_both(rem, "recently", "recent"))
    } else {
        let same = rem.clone();
        assert(same@ == rem@);
        (None, same)
    }
}


// ───────────────────────── keywords and scores ─────────────────────────

fn query_stopword(w: &str) -> (r: bool)
    ensures
        r == is_query_stopword(w@),
{
    str_eq(w, "the") || str_eq(w, "a") || str_eq(w, "an") || str_eq(w, "about") || str_eq(w, "that")
        || str_eq(w, "which") || str_eq(w, "where") || str_eq(w, "files") || str_eq(w, "documents")
        || str_eq(w, "find") || str_eq(w, "show") || str_eq(w, "get") || str_eq(w, "me") || str_eq(
        w,
        "all",
    ) || str_eq(w, "related") || str_eq(w, "to") || str_eq(w, "of") || str_eq(w, "for") || str_eq(
        w,
        "with",
    )
}

fn keywords_step(rem: &Vec<char>) -> (r: Vec<String>)
    ensures
        texts(r@) == keywords_of(words(rem@), words(rem@).len() as int),
        forall|j: int| 0 <= j < r.len() ==> lowercase(#[trigger] r@[j]@) == r@[j]@,
{
    let ws = words_of(rem);
    let mut out: Vec<String> = Vec::new();
    let mut i: usize = 0;
    while i < ws.len()
        invariant
            i <= ws.len(),
            views(ws@) == words(rem@),
            texts(out@) == keywords_of(words(rem@), i as int),
            forall|j: int| 0 <= j < out.len() ==> lowercase(#[trigger] out@[j]@) == out@[j]@,
        decreases ws.len() - i,
    {
        proof {
            assert(views(ws@)[i as int] == ws@[i as int]@);
        }
        let w = string_of(&ws[i]);
        let l = to_lowercase(w.as_str());
        let n = str_bytes(l.as_str());
        if !query_stopword(l.as_str()) && n > 1 {
            let ghost before = texts(out@);
            out.push(l);
            proof {
                assert(texts(out@) =~= before.push(lowercase(ws@[i as int]@)));
            }
        }
        i += 1;
    }
    out
}

fn mixed_case_of(w: &Vec<char>) -> (r: Option<bool>)
    ensures
        r == mixed_case(w@),
{
    let mut has_upper = false;
    let mut has_lower = false;
    let mut i: usize = 0;
    while i < w.len()
        invariant
            i <= w.len(),
            has_upper == exists|j: int| 0 <= j < i && crate::text::uppercase_char(#[trigger] w@[j]),
            has_lower == exists|j: int| 0 <= j < i && crate::text::lowercase_char(#[trigger] w@[j]),
        decreases w.len() - i,
    {
        if char_is_uppercase(w[i]) {
            has_upper = true;
        }
        if char_is_lowercase(w[i]) {
            has_lower = true;
        }
        i += 1;
    }
    if !(has_upper && has_lower) {
        return Some(false);
    }
    let mut all = true;
    let mut k: usize = 1;
    while k < w.len()
        invariant
            1 <= k <= w.len(),
            all == forall|j: int| 1 <= j < k ==> crate::text::lowercase_char(#[trigger] w@[j]),
        decreases w.len() - k,
    {
        if !char_is_lowercase(w[k]) {
            all = false;
        }
        k += 1;
    }
    Some(!all)
}

/// Whether a word has mixed case beyond a capitalised first letter (as in
/// `CamelCase` or `getElementById`).
pub fn has_mixed_case(word: &str) -> (r: bool)
    ensures
        Some(r) == mixed_case(word@),
{
    match mixed_case_of(&chars_of(word)) {
        Some(b) => b,
        None => false,
    }
}

fn technical_of(w: &Vec<char>) -> (r: Option<bool>)
    ensures
        r == technical(w@),
{
    if has_char(w, '_') || contains_chars(w, &chars_of("::")) || has_char(w, '.') {
        Some(true)
    } else {
        mixed_case_of(w)
    }
}

fn question_word_at(q: usize) -> (r: &'static str)
    requires
        q < 10,
    ensures
        r@ == question_words()[q as int],
{
    if q == 0 {
        "what"
    } else if q == 1 {
        "how"
    } else if q == 2 {
        "why"
    } else if q == 3 {
        "when"
    } else if q == 4 {
        "where"
    } else if q == 5 {
        "who"
    } else if q == 6 {
        "which"
    } else if q == 7 {
        "does"
    } else if q == 8 {
        "can"
    } else {
        "should"
    }
}

fn fold_code(c: char) -> (r: u32)
    ensures
        r == ascii_fold(c),
{
    if 'A' <= c && c <= 'Z' {
        (c as u32) + 32
    } else {
        c as u32
    }
}

fn eq_ignoring_ascii_case(a: &Vec<char>, b: &Vec<char>) -> (r: bool)
    ensures
        r == eq_ignore_ascii_case(a@, b@),
{
    if a.len() != b.len() {
        return false;
    }
    let mut i: usize = 0;
    while i < a.len()
        invariant
            a.len() == b.len(),
            i <= a.len(),
            forall|j: int| 0 <= j < i ==> ascii_fold(#[trigger] a@[j]) == ascii_fold(b@[j]),
        decreases a.len() - i,
    {
        if fold_code(a[i]) != fold_code(b[i]) {
            return false;
        }
        i += 1;
    }
    true
}

/// The suggested keyword/semantic balance for a query with `keywords`, in
/// hundredths (see `dynamic_alpha`); `None` where a word's case cannot be
/// checked.
pub fn compute_dynamic_alpha(query: &str, keywords: &Vec<String>) -> (r: Option<u32>)
    ensures
        r == dynamic_alpha(query@, keywords.len() as int),
{
    let qc = chars_of(query);
    let ws = words_of(&qc);
    let ghost wv = words(query@);
    let mut tech = false;
    let mut i: usize = 0;
    while i < ws.len() && !tech
        invariant
            i <= ws.len(),
            views(ws@) == wv,
            wv == words(query@),
            any_technical(wv, 0) == if tech {
                Some(true)
            } else {
                any_technical(wv, i as int)
            },
        decreases ws.len() - i,
    {
        proof {
            assert(wv[i as int] == ws@[i as int]@);
        }
        match technical_of(&ws[i]) {
            None => {
                return None;
            },
            Some(true) => {
                tech = true;
            },
            Some(false) => {},
        }
        i += 1;
    }
    let mut question = false;
    if ws.len() > 0 {
        let mut q: usize = 0;
        proof {
            assert(wv[0] == ws@[0]@);
        }
        while q < 10
            invariant
                q <= 10,
                ws.len() > 0,
                wv[0] == ws@[0]@,
                question == exists|j: int| 0 <= j < q && eq_ignore_ascii_case(wv[0], #[trigger] question_words()[j]),
            decreases 10 - q,
        {
            let qw = chars_of(question_word_at(q));
            if eq_ignoring_ascii_case(&ws[0], &qw) {
                question = true;
            }
            q += 1;
        }
    }
    let mut stops: usize = 0;
    let mut k: usize = 0;
    while k < ws.len()
        invariant
            k <= ws.len(),
            views(ws@) == wv,
            stops == stop_count(wv, k as int),
            stops <= k,
        decreases ws.len() - k,
    {
        proof {
            assert(wv[k as int] == ws@[k as int]@);
        }
        let w = string_of(&ws[k]);
        let l = to_lowercase(w.as_str());
        if query_stopword(l.as_str()) {
            stops = stops + 1;
        }
        k += 1;
    }
    let mut a: i64 = 50;
    if question {
        a = a + 15;
    }
    if keywords.len() <= 2 {
        a = a - 15;
    }
    if ws.len() >= 5 {
        a = a + 10;
    }
    if has_char(&qc, '"') {
        a = a - 25;
    }
    if tech {
        a = a - 20;
    }
    if ws.len() > 0 && (stops as u128) * 5 > (ws.len() as u128) * 2 {
        a = a + 10;
    }
    let r: u32 = if a < 5 {
        5
    } else if a > 95 {
        95
    } else {
        a as u32
    };
    Some(r)
}


// ───────────────────────── the parse ─────────────────────────

/// Reads a query into a plan, dating relative windows from `now`; `None`
/// exactly where the query cannot be read (see `query_plan`).
pub fn parse_query_at(query: &str, now: UtcTime) -> (r: Option<QueryPlan>)
    requires
        in_time_range(now),
    ensures
        match query_plan(query@, now) {
            Some(p) => r matches Some(q) && q@ == p,
            None => r is None,
        },
        r matches Some(q) ==> forall|j: int|
            0 <= j < q.keywords.len() ==> lowercase(#[trigger] q.keywords@[j]@) == q.keywords@[j]@,
{
    let qc = chars_of(query);
    let (from, to, q0) = range_step(&qc);
    let (negations, r1) = match negation_step(&q0) {
        Some(x) => x,
        None => {
            return None;
        },
    };
    let (scope, r2) = match scope_step(&r1) {
        Some(x) => x,
        None => {
            return None;
        },
    };
    let (type_filter, r3) = type_step(&r2);
    let (phrase_window, r4) = date_step(&r3, now);
    let date_filter = bounded(phrase_window, from, to);
    let r4s = string_of(&r4);
    let ms = extract_entities_from_text(r4s.as_str());
    let mut entities: Vec<String> = Vec::new();
    let mut i: usize = 0;
    while i < ms.len()
        invariant
            i <= ms.len(),
            texts(entities@) == match_values(match_views(ms@)).take(i as int),
        decreases ms.len() - i,
    {
        let ghost before = texts(entities@);
        let v = ms[i].value.clone();
        assert(v@ == ms@[i as int].value@);
        entities.push(v);
        proof {
            assert(texts(entities@) =~= before.push(v@));
            assert(match_values(match_views(ms@))[i as int] == ms@[i as int].value@);
            assert(texts(entities@) =~= match_values(match_views(ms@)).take(i + 1));
        }
        i += 1;
    }
    proof {
        assert(match_values(match_views(ms@)).take(ms.len() as int) =~= match_values(match_views(ms@)));
    }
    let keywords = keywords_step(&r4);
    let alpha = match compute_dynamic_alpha(query, &keywords) {
        Some(a) => a,
        None => {
            return None;
        },
    };
    let mut c: u32 = 50;
    if keywords.len() >= 2 {
        c = c + 20;
    }
    if type_filter.is_some() {
        c = c + 10;
    }
    if entities.len() > 0 {
        c = c + 10;
    }
    if scope.is_some() {
        c = c + 10;
    }
    if c > 100 {
        c = 100;
    }
    let mut negs: Vec<String> = Vec::new();
    let mut j: usize = 0;
    while j < negations.len()
        invariant
            j <= negations.len(),
            texts(negs@) == views(negations@).take(j as int),
        decreases negations.len() - j,
    {
        let ghost before = texts(negs@);
        let n = string_of(&negations[j]);
        negs.push(n);
        proof {
            assert(views(negations@)[j as int] == negations@[j as int]@);
            assert(texts(negs@) =~= before.push(n@));
            assert(texts(negs@) =~= views(negations@).take(j + 1));
        }
        j += 1;
    }
    proof {
        assert(views(negations@).take(negations.len() as int) =~= views(negations@));
    }
    let scope_filter = match scope {
        Some(sc) => Some(string_of(&sc)),
        None => None,
    };
    let plan = QueryPlan {
        keywords,
        negations: negs,
        entities,
        type_filter,
        scope_filter,
        date_filter,
        confidence: c,
        suggested_alpha: Some(alpha),
    };
    proof {
        assert(plan@ =~= query_plan(query@, now).unwrap());
    }
    Some(plan)
}

/// Reads the system clock through `std::time::UNIX_EPOCH.elapsed()`: the
/// whole seconds and the nanoseconds past them since the Unix epoch, or
/// `None` where the clock reads before the epoch (`elapsed` returns an
/// error then). Trusted: the nanoseconds are a `Duration`'s sub-second part,
/// under one second as `Duration::subsec_nanos` documents. Nothing else is
/// said of the reading: it is the clock's.
#[verifier::external_body]
fn since_epoch() -> (r: Option<(u64, u32)>)
    ensures
        r matches Some(d) ==> d.1 < 1_000_000_000,
{
    match std::time::UNIX_EPOCH.elapsed() {
        Ok(d) => Some((d.as_secs(), d.subsec_nanos())),
        Err(_) => None,
    }
}

/// What `chrono::DateTime::from_timestamp` gives for seconds and nanoseconds
/// since the epoch, read back as seconds and nanoseconds.
pub uninterp spec fn utc_timestamp(secs: i64, nanos: u32) -> Option<UtcTime>;

/// `chrono::DateTime::from_timestamp`: the UTC time `secs` seconds and
/// `nanos` nanoseconds after the epoch, `None` where the seconds are out of
/// `chrono`'s range or the nanoseconds are invalid. Trusted: the result is
/// named; where there is one it reads back as the same seconds and
/// nanoseconds (the round trip `from_timestamp` documents), and its days fit
/// an `i32` (the source refuses others), so it lies within `TIME_LIMIT`.
/// Which seconds `chrono`'s calendar accepts is left to the name.
#[verifier::external_body]
fn utc_from_timestamp(secs: i64, nanos: u32) -> (r: Option<UtcTime>)
    ensures
        r == utc_timestamp(secs, nanos),
        r matches Some(t) ==> t.secs == secs && t.nanos == nanos && in_time_range(t),
{
    match chrono::DateTime::from_timestamp(secs, nanos) {
        Some(t) => Some(UtcTime { secs: t.timestamp(), nanos: t.timestamp_subsec_nanos() }),
        None => None,
    }
}

/// The time of a clock reading `secs` seconds and `nanos` nanoseconds after
/// the epoch, as `chrono` makes it; `None` where it makes none.
pub open spec fn reading_time(secs: u64, nanos: u32) -> Option<UtcTime> {
    if secs <= i64::MAX {
        utc_timestamp(secs as i64, nanos)
    } else {
        None
    }
}

/// Reads a query into a plan, dating relative windows from a clock reading
/// `secs` seconds and `nanos` nanoseconds after the epoch; `None` where the
/// reading gives no time or the query cannot be read.
pub fn parse_query_at_reading(query: &str, secs: u64, nanos: u32) -> (r: Option<QueryPlan>)
    ensures
        match reading_time(secs, nanos) {
            Some(t) => match query_plan(query@, t) {
                Some(p) => r matches Some(q) && q@ == p,
                None => r is None,
            },
            None => r is None,
        },
        r is Some ==> (reading_time(secs, nanos) matches Some(t) && in_time_range(t)),
        r matches Some(q) ==> forall|j: int|
            0 <= j < q.keywords.len() ==> lowercase(#[trigger] q.keywords@[j]@) == q.keywords@[j]@,
{
    if secs > i64::MAX as u64 {
        return None;
    }
    match utc_from_timestamp(secs as i64, nanos) {
        Some(now) => parse_query_at(query, now),
        None => None,
    }
}

/// Whether a query can be read does not depend on the time.
pub proof fn readable_at_any_time(query: Seq<char>, a: UtcTime, b: UtcTime)
    ensures
        (query_plan(query, a) is Some) == (query_plan(query, b) is Some),
{
}

/// Reads a query into a plan, dating relative windows from the current time
/// of the system clock. `None` where the clock gives no time (it reads
/// before the epoch or past `chrono`'s range) or where the query cannot be
/// read at that time; whether a query can be read does not depend on the
/// time (`readable_at_any_time`), so an unreadable query always gives `None`.
pub fn parse_query(query: &str) -> (r: Option<QueryPlan>)
    ensures
        r matches Some(p) ==> exists|now: UtcTime| in_time_range(now) && query_plan(query@, now) == Some(p@),
        r matches Some(p) ==> forall|j: int|
            0 <= j < p.keywords.len() ==> lowercase(#[trigger] p.keywords@[j]@) == p.keywords@[j]@,
        (forall|now: UtcTime| #[trigger] query_plan(query@, now) is None) ==> r is None,
{
    match since_epoch() {
        None => None,
        Some(d) => {
            let r = parse_query_at_reading(query, d.0, d.1);
            proof {
                if r is Some {
                    let now = reading_time(d.0, d.1).unwrap();
                    assert(in_time_range(now) && query_plan(query@, now) == Some(r.unwrap()@));
                }
            }
            r
        },
    }
}

} // verus!
