//! Explicit date ranges in a query: `--from 2024-01` and `--to 2024-06`
//! (a month, or a day as `2024-01-15`). `--from` opens the window at the
//! first instant of its period, `--to` closes it at the last.
use vstd::prelude::*;
use crate::config::{all_digits, digit_value, digits_value, is_digit};
use crate::query::parser::{UtcTime, DAY_SECS};
use crate::text::{chars_eq, chars_of, join, join_chars, views, words, words_of};

verus! {

broadcast use vstd::string::group_string_axioms;

// ───────────────────────── the calendar ─────────────────────────

/// Midnight UTC at the start of day `d` of month `m` of year `y`, in seconds
/// since the epoch, as chrono's calendar gives it; `None` where there is no
/// such day.
pub uninterp spec fn utc_midnight(y: i32, m: u32, d: u32) -> Option<i64>;

/// Calls `chrono::NaiveDate::from_ymd_opt` and takes the UTC timestamp of
/// that day's midnight. Trusted: the result is the named `utc_midnight` of
/// the three numbers (`None` where chrono has no such day).
#[verifier::external_body]
fn midnight_of(y: i32, m: u32, d: u32) -> (r: Option<i64>)
    ensures
        r == utc_midnight(y, m, d),
{
    match chrono::NaiveDate::from_ymd_opt(y, m, d) {
        Some(date) => Some(date.and_time(chrono::NaiveTime::MIN).and_utc().timestamp()),
        None => None,
    }
}

// ───────────────────────── date words ─────────────────────────

/// The year, month and day (when given) a word `YYYY-MM` or `YYYY-MM-DD`
/// spells: four digits, a hyphen, two digits, and optionally a hyphen and
/// two more.
pub open spec fn date_parts(w: Seq<char>) -> Option<(int, int, Option<int>)> {
    if (w.len() == 7 || w.len() == 10) && all_digits(w.subrange(0, 4)) && w[4] == '-' && all_digits(
        w.subrange(5, 7),
    ) && (w.len() == 10 ==> w[7] == '-' && all_digits(w.subrange(8, 10))) {
        Some(
            (
                digits_value(w.subrange(0, 4)),
                digits_value(w.subrange(5, 7)),
                if w.len() == 10 {
                    Some(digits_value(w.subrange(8, 10)))
                } else {
                    None
                },
            ),
        )
    } else {
        None
    }
}

/// The first instant of the month or day a date word names.
pub open spec fn period_start(w: Seq<char>) -> Option<UtcTime> {
    match date_parts(w) {
        None => None,
        Some((y, m, d)) => match utc_midnight(
            y as i32,
            m as u32,
            match d {
                Some(x) => x as u32,
                None => 1u32,
            },
        ) {
            None => None,
            Some(s) => Some(UtcTime { secs: s, nanos: 0 }),
        },
    }
}

/// The midnight that ends the month or day a date word names.
pub open spec fn period_next(w: Seq<char>) -> Option<i64> {
    match date_parts(w) {
        None => None,
        Some((y, m, d)) => match d {
            Some(x) => match utc_midnight(y as i32, m as u32, x as u32) {
                Some(s) => if s <= i64::MAX - DAY_SECS {
                    Some((s + DAY_SECS) as i64)
                } else {
                    None
                },
                None => None,
            },
            None => if utc_midnight(y as i32, m as u32, 1) is None {
                None
            } else if m == 12 {
                utc_midnight((y + 1) as i32, 1, 1)
            } else {
                utc_midnight(y as i32, (m + 1) as u32, 1)
            },
        },
    }
}

/// The last instant, to the nanosecond, of the month or day a date word names.
pub open spec fn period_end(w: Seq<char>) -> Option<UtcTime> {
    match period_next(w) {
        Some(n) => if n > i64::MIN {
            Some(UtcTime { secs: (n - 1) as i64, nanos: 999_999_999 })
        } else {
            None
        },
        None => None,
    }
}

fn digit_of(c: char) -> (r: Option<u32>)
    ensures
        r is Some <==> is_digit(c),
        r matches Some(v) ==> v == digit_value(c) && v <= 9,
{
    if '0' <= c && c <= '9' {
        Some((c as u32) - ('0' as u32))
    } else {
        None
    }
}

/// The number two ASCII digits at `i` spell.
fn two_digits(w: &Vec<char>, i: usize) -> (r: Option<u32>)
    requires
        i + 2 <= w.len(),
    ensures
        r is Some <==> all_digits(w@.subrange(i as int, i + 2)),
        r matches Some(v) ==> v == digits_value(w@.subrange(i as int, i + 2)) && v <= 99,
{
    let ghost s = w@.subrange(i as int, i + 2);
    proof {
        reveal_with_fuel(digits_value, 3);
        assert(s.drop_last().drop_last() =~= Seq::<char>::empty());
        assert(s.drop_last() =~= seq![s[0]]);
    }
    match (digit_of(w[i]), digit_of(w[i + 1])) {
        (Some(a), Some(b)) => Some(a * 10 + b),
        _ => {
            proof {
                if all_digits(s) {
                    assert(is_digit(s[0]) && is_digit(s[1]));
                }
            }
            None
        },
    }
}

/// The number four ASCII digits at `0` spell.
fn four_digits(w: &Vec<char>) -> (r: Option<u32>)
    requires
        4 <= w.len(),
    ensures
        r is Some <==> all_digits(w@.subrange(0, 4)),
        r matches Some(v) ==> v == digits_value(w@.subrange(0, 4)) && v <= 9999,
{
    let ghost s = w@.subrange(0, 4);
    proof {
        reveal_with_fuel(digits_value, 5);
        assert(s.drop_last() =~= w@.subrange(0, 3));
        assert(s.drop_last().drop_last() =~= w@.subrange(0, 2));
        assert(s.drop_last().drop_last().drop_last() =~= seq![w@[0]]);
        assert(seq![w@[0]].drop_last() =~= Seq::<char>::empty());
    }
    match (digit_of(w[0]), digit_of(w[1]), digit_of(w[2]), digit_of(w[3])) {
        (Some(a), Some(b), Some(c), Some(d)) => Some(a * 1000 + b * 100 + c * 10 + d),
        _ => {
            proof {
                if all_digits(s) {
                    assert(is_digit(s[0]) && is_digit(s[1]) && is_digit(s[2]) && is_digit(s[3]));
                }
            }
            None
        },
    }
}

/// The year, month and day (when given) of a date word.
fn date_parts_of(w: &Vec<char>) -> (r: Option<(u32, u32, Option<u32>)>)
    ensures
        match date_parts(w@) {
            Some((y, m, d)) => r matches Some((ry, rm, rd)) && ry == y && rm == m && ry <= 9999 && rm <= 99
                && match d {
                Some(x) => rd matches Some(v) && v == x && v <= 99,
                None => rd is None,
            },
            None => r is None,
        },
{
    if w.len() != 7 && w.len() != 10 {
        return None;
    }
    if w[4] != '-' {
        return None;
    }
    let y = match four_digits(w) {
        Some(y) => y,
        None => {
            return None;
        },
    };
    let m = match two_digits(w, 5) {
        Some(m) => m,
        None => {
            return None;
        },
    };
    if w.len() == 7 {
        return Some((y, m, None));
    }
    if w[7] != '-' {
        return None;
    }
    match two_digits(w, 8) {
        Some(d) => Some((y, m, Some(d))),
        None => None,
    }
}

/// The first instant of the period a date word names.
fn start_of_period(w: &Vec<char>) -> (r: Option<UtcTime>)
    ensures
        r == period_start(w@),
{
    match date_parts_of(w) {
        None => None,
        Some((y, m, d)) => {
            let day = match d {
                Some(x) => x,
                None => 1,
            };
            match midnight_of(y as i32, m, day) {
                None => None,
                Some(s) => Some(UtcTime { secs: s, nanos: 0 }),
            }
        },
    }
}

/// The last instant of the period a date word names.
fn end_of_period(w: &Vec<char>) -> (r: Option<UtcTime>)
    ensures
        r == period_end(w@),
{
    let next = match date_parts_of(w) {
        None => None,
        Some((y, m, d)) => match d {
            Some(x) => match midnight_of(y as i32, m, x) {
                Some(s) => if s <= i64::MAX - DAY_SECS {
                    Some(s + DAY_SECS)
                } else {
                    None
                },
                None => None,
            },
            None => if midnight_of(y as i32, m, 1).is_none() {
                None
            } else if m == 12 {
                midnight_of((y + 1) as i32, 1, 1)
            } else {
                midnight_of(y as i32, m + 1, 1)
            },
        },
    };
    assert(next == period_next(w@));
    match next {
        Some(n) => if n > i64::MIN {
            Some(UtcTime { secs: n - 1, nanos: 999_999_999 })
        } else {
            None
        },
        None => None,
    }
}

// ───────────────────────── the words of a query ─────────────────────────

/// The bounds that `--from <date>` and `--to <date>` set among the words from
/// position `i` on (the first of each counts), and the other words, in order.
pub open spec fn range_words(ws: Seq<Seq<char>>, i: int) -> (Option<UtcTime>, Option<UtcTime>, Seq<Seq<char>>)
    decreases ws.len() - i,
{
    if i < 0 || i >= ws.len() {
        (None, None, Seq::empty())
    } else if i + 1 < ws.len() && ws[i] == "--from"@ && period_start(ws[i + 1]) is Some {
        let (f, t, rest) = range_words(ws, i + 2);
        (period_start(ws[i + 1]), t, rest)
    } else if i + 1 < ws.len() && ws[i] == "--to"@ && period_end(ws[i + 1]) is Some {
        let (f, t, rest) = range_words(ws, i + 2);
        (f, period_end(ws[i + 1]), rest)
    } else {
        let (f, t, rest) = range_words(ws, i + 1);
        (f, t, seq![ws[i]] + rest)
    }
}

/// The explicit bounds of a query and the query without them: where none is
/// given the query is kept as it is, else its other words are joined by
/// single spaces.
pub open spec fn split_range(query: Seq<char>) -> (Option<UtcTime>, Option<UtcTime>, Seq<char>) {
    let (f, t, rest) = range_words(words(query), 0);
    if f is None && t is None {
        (None, None, query)
    } else {
        (f, t, join(rest, seq![' ']))
    }
}

fn range_from(ws: &Vec<Vec<char>>, i: usize) -> (r: (Option<UtcTime>, Option<UtcTime>, Vec<Vec<char>>))
    requires
        i <= ws.len(),
    ensures
        ({
            let (f, t, rest) = range_words(views(ws@), i as int);
            r.0 == f && r.1 == t && views(r.2@) == rest
        }),
    decreases ws.len() - i,
{
    let ghost vs = views(ws@);
    if i >= ws.len() {
        return (None, None, Vec::new());
    }
    proof {
        reveal_strlit("--from");
        reveal_strlit("--to");
        assert(vs[i as int] == ws@[i as int]@);
    }
    if i + 1 < ws.len() {
        proof {
            assert(vs[i + 1] == ws@[i + 1]@);
        }
        if chars_eq(&ws[i], &chars_of("--from")) {
            let s = start_of_period(&ws[i + 1]);
            if s.is_some() {
                let (_f, t, rest) = range_from(ws, i + 2);
                return (s, t, rest);
            }
        }
        if chars_eq(&ws[i], &chars_of("--to")) {
            let e = end_of_period(&ws[i + 1]);
            if e.is_some() {
                let (f, _t, rest) = range_from(ws, i + 2);
                return (f, e, rest);
            }
        }
    }
    let (f, t, mut rest) = range_from(ws, i + 1);
    let ghost before = views(rest@);
    rest.insert(0, ws[i].clone());
    proof {
        assert(views(rest@) =~= seq![vs[i as int]] + before);
    }
    (f, t, rest)
}

/// The explicit bounds of a query and the query without them (see
/// `split_range`).
pub fn range_step(query: &Vec<char>) -> (r: (Option<UtcTime>, Option<UtcTime>, Vec<char>))
    ensures
        ({
            let (f, t, rest) = split_range(query@);
            r.0 == f && r.1 == t && r.2@ == rest
        }),
{
    let ws = words_of(query);
    let (f, t, rest) = range_from(&ws, 0);
    if f.is_none() && t.is_none() {
        (None, None, query.clone())
    } else {
        let mut sep: Vec<char> = Vec::new();
        sep.push(' ');
        proof {
            assert(sep@ =~= seq![' ']);
        }
        (f, t, join_chars(&rest, &sep))
    }
}

} // verus!
