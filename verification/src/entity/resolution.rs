//! Rule-based entity resolution: deciding whether two names of the same
//! entity type denote one entity (an alias and its canonical form).
use vstd::prelude::*;
use crate::text::{
    byte_len, bytes_len, char_index_at_byte, char_index_of_byte, chars_of, chars_eq, chars_within, chars_within_bytes,
    contains, contains_chars, ends_with, has_prefix, has_suffix, is_ascii_seq,
    lemma_ascii_byte_len, lower_chars, lowercase, slice_chars, starts_with, str_eq,
    trim_end_char, trim_end_matching, utf8_width, views, words, words_of,
};

verus! {

broadcast use vstd::string::group_string_axioms;

/// The number of title prefixes that are stripped from person names.
pub const TITLE_PREFIX_COUNT: usize = 44;

/// The title prefixes, in the order they are tried.
pub open spec fn title_prefix(i: int) -> Seq<char> {
    if i == 0 {
        "president "@
    } else if i == 1 {
        "vice president "@
    } else if i == 2 {
        "attorney general "@
    } else if i == 3 {
        "general "@
    } else if i == 4 {
        "senator "@
    } else if i == 5 {
        "representative "@
    } else if i == 6 {
        "secretary "@
    } else if i == 7 {
        "minister "@
    } else if i == 8 {
        "prime minister "@
    } else if i == 9 {
        "prince "@
    } else if i == 10 {
        "princess "@
    } else if i == 11 {
        "king "@
    } else if i == 12 {
        "queen "@
    } else if i == 13 {
        "lord "@
    } else if i == 14 {
        "lady "@
    } else if i == 15 {
        "sir "@
    } else if i == 16 {
        "dame "@
    } else if i == 17 {
        "dr. "@
    } else if i == 18 {
        "dr "@
    } else if i == 19 {
        "prof. "@
    } else if i == 20 {
        "prof "@
    } else if i == 21 {
        "mr. "@
    } else if i == 22 {
        "mr "@
    } else if i == 23 {
        "mrs. "@
    } else if i == 24 {
        "mrs "@
    } else if i == 25 {
        "ms. "@
    } else if i == 26 {
        "ms "@
    } else if i == 27 {
        "miss "@
    } else if i == 28 {
        "ceo "@
    } else if i == 29 {
        "cfo "@
    } else if i == 30 {
        "coo "@
    } else if i == 31 {
        "cto "@
    } else if i == 32 {
        "judge "@
    } else if i == 33 {
        "justice "@
    } else if i == 34 {
        "chief justice "@
    } else if i == 35 {
        "director "@
    } else if i == 36 {
        "commissioner "@
    } else if i == 37 {
        "captain "@
    } else if i == 38 {
        "colonel "@
    } else if i == 39 {
        "major "@
    } else if i == 40 {
        "lieutenant "@
    } else if i == 41 {
        "sergeant "@
    } else if i == 42 {
        "officer "@
    } else if i == 43 {
        "agent "@
    } else {
        Seq::empty()
    }
}

/// The `i`-th title prefix.
fn title_prefix_at(i: usize) -> (r: &'static str)
    requires
        i < TITLE_PREFIX_COUNT,
    ensures
        r@ == title_prefix(i as int),
        is_ascii_seq(r@),
{
    match i {
        0 => {
            proof {
                reveal_strlit("president ");
            }
            "president "
        },
        1 => {
            proof {
                reveal_strlit("vice president ");
            }
            "vice president "
        },
        2 => {
            proof {
                reveal_strlit("attorney general ");
            }
            "attorney general "
        },
        3 => {
            proof {
                reveal_strlit("general ");
            }
            "general "
        },
        4 => {
            proof {
                reveal_strlit("senator ");
            }
            "senator "
        },
        5 => {
            proof {
                reveal_strlit("representative ");
            }
            "representative "
        },
        6 => {
            proof {
                reveal_strlit("secretary ");
            }
            "secretary "
        },
        7 => {
            proof {
                reveal_strlit("minister ");
            }
            "minister "
        },
        8 => {
            proof {
                reveal_strlit("prime minister ");
            }
            "prime minister "
        },
        9 => {
            proof {
                reveal_strlit("prince ");
            }
            "prince "
        },
        10 => {
            proof {
                reveal_strlit("princess ");
            }
            "princess "
        },
        11 => {
            proof {
                reveal_strlit("king ");
            }
            "king "
        },
        12 => {
            proof {
                reveal_strlit("queen ");
            }
            "queen "
        },
        13 => {
            proof {
                reveal_strlit("lord ");
            }
            "lord "
        },
        14 => {
            proof {
                reveal_strlit("lady ");
            }
            "lady "
        },
        15 => {
            proof {
                reveal_strlit("sir ");
            }
            "sir "
        },
        16 => {
            proof {
                reveal_strlit("dame ");
            }
            "dame "
        },
        17 => {
            proof {
                reveal_strlit("dr. ");
            }
            "dr. "
        },
        18 => {
            proof {
                reveal_strlit("dr ");
            }
            "dr "
        },
        19 => {
            proof {
                reveal_strlit("prof. ");
            }
            "prof. "
        },
        20 => {
            proof {
                reveal_strlit("prof ");
            }
            "prof "
        },
        21 => {
            proof {
                reveal_strlit("mr. ");
            }
            "mr. "
        },
        22 => {
            proof {
                reveal_strlit("mr ");
            }
            "mr "
        },
        23 => {
            proof {
                reveal_strlit("mrs. ");
            }
            "mrs. "
        },
        24 => {
            proof {
                reveal_strlit("mrs ");
            }
            "mrs "
        },
        25 => {
            proof {
                reveal_strlit("ms. ");
            }
            "ms. "
        },
        26 => {
            proof {
                reveal_strlit("ms ");
            }
            "ms "
        },
        27 => {
            proof {
                reveal_strlit("miss ");
            }
            "miss "
        },
        28 => {
            proof {
                reveal_strlit("ceo ");
            }
            "ceo "
        },
        29 => {
            proof {
                reveal_strlit("cfo ");
            }
            "cfo "
        },
        30 => {
            proof {
                reveal_strlit("coo ");
            }
            "coo "
        },
        31 => {
            proof {
                reveal_strlit("cto ");
            }
            "cto "
        },
        32 => {
            proof {
                reveal_strlit("judge ");
            }
            "judge "
        },
        33 => {
            proof {
                reveal_strlit("justice ");
            }
            "justice "
        },
        34 => {
            proof {
                reveal_strlit("chief justice ");
            }
            "chief justice "
        },
        35 => {
            proof {
                reveal_strlit("director ");
            }
            "director "
        },
        36 => {
            proof {
                reveal_strlit("commissioner ");
            }
            "commissioner "
        },
        37 => {
            proof {
                reveal_strlit("captain ");
            }
            "captain "
        },
        38 => {
            proof {
                reveal_strlit("colonel ");
            }
            "colonel "
        },
        39 => {
            proof {
                reveal_strlit("major ");
            }
            "major "
        },
        40 => {
            proof {
                reveal_strlit("lieutenant ");
            }
            "lieutenant "
        },
        41 => {
            proof {
                reveal_strlit("sergeant ");
            }
            "sergeant "
        },
        42 => {
            proof {
                reveal_strlit("officer ");
            }
            "officer "
        },
        43 => {
            proof {
                reveal_strlit("agent ");
            }
            "agent "
        },
        _ => {
            proof {
                reveal_strlit("agent ");
            }
            "agent "
        },
    }
}

/// The number of organization suffixes that are stripped before comparing.
pub const ORG_SUFFIX_COUNT: usize = 23;

/// The organization suffixes, in the order they are tried.
pub open spec fn org_suffix(i: int) -> Seq<char> {
    if i == 0 {
        ", inc."@
    } else if i == 1 {
        ", inc"@
    } else if i == 2 {
        " inc."@
    } else if i == 3 {
        " inc"@
    } else if i == 4 {
        ", corp."@
    } else if i == 5 {
        ", corp"@
    } else if i == 6 {
        " corp."@
    } else if i == 7 {
        " corp"@
    } else if i == 8 {
        ", llc"@
    } else if i == 9 {
        " llc"@
    } else if i == 10 {
        ", ltd."@
    } else if i == 11 {
        ", ltd"@
    } else if i == 12 {
        " ltd."@
    } else if i == 13 {
        " ltd"@
    } else if i == 14 {
        ", co."@
    } else if i == 15 {
        ", co"@
    } else if i == 16 {
        " co."@
    } else if i == 17 {
        " co"@
    } else if i == 18 {
        " corporation"@
    } else if i == 19 {
        " incorporated"@
    } else if i == 20 {
        " company"@
    } else if i == 21 {
        " group"@
    } else if i == 22 {
        " holdings"@
    } else {
        Seq::empty()
    }
}

/// The `i`-th organization suffix.
fn org_suffix_at(i: usize) -> (r: &'static str)
    requires
        i < ORG_SUFFIX_COUNT,
    ensures
        r@ == org_suffix(i as int),
{
    match i {
        0 => {
            proof {
                reveal_strlit(", inc.");
            }
            ", inc."
        },
        1 => {
            proof {
                reveal_strlit(", inc");
            }
            ", inc"
        },
        2 => {
            proof {
                reveal_strlit(" inc.");
            }
            " inc."
        },
        3 => {
            proof {
                reveal_strlit(" inc");
            }
            " inc"
        },
        4 => {
            proof {
                reveal_strlit(", corp.");
            }
            ", corp."
        },
        5 => {
            proof {
                reveal_strlit(", corp");
            }
            ", corp"
        },
        6 => {
            proof {
                reveal_strlit(" corp.");
            }
            " corp."
        },
        7 => {
            proof {
                reveal_strlit(" corp");
            }
            " corp"
        },
        8 => {
            proof {
                reveal_strlit(", llc");
            }
            ", llc"
        },
        9 => {
            proof {
                reveal_strlit(" llc");
            }
            " llc"
        },
        10 => {
            proof {
                reveal_strlit(", ltd.");
            }
            ", ltd."
        },
        11 => {
            proof {
                reveal_strlit(", ltd");
            }
            ", ltd"
        },
        12 => {
            proof {
                reveal_strlit(" ltd.");
            }
            " ltd."
        },
        13 => {
            proof {
                reveal_strlit(" ltd");
            }
            " ltd"
        },
        14 => {
            proof {
                reveal_strlit(", co.");
            }
            ", co."
        },
        15 => {
            proof {
                reveal_strlit(", co");
            }
            ", co"
        },
        16 => {
            proof {
                reveal_strlit(" co.");
            }
            " co."
        },
        17 => {
            proof {
                reveal_strlit(" co");
            }
            " co"
        },
        18 => {
            proof {
                reveal_strlit(" corporation");
            }
            " corporation"
        },
        19 => {
            proof {
                reveal_strlit(" incorporated");
            }
            " incorporated"
        },
        20 => {
            proof {
                reveal_strlit(" company");
            }
            " company"
        },
        21 => {
            proof {
                reveal_strlit(" group");
            }
            " group"
        },
        22 => {
            proof {
                reveal_strlit(" holdings");
            }
            " holdings"
        },
        _ => {
            proof {
                reveal_strlit(" holdings");
            }
            " holdings"
        },
    }
}

/// The index of the first title prefix at or after `i` that `lower` starts with.
pub open spec fn first_title(lower: Seq<char>, i: int) -> Option<int>
    decreases TITLE_PREFIX_COUNT - i,
{
    if i < 0 || i >= TITLE_PREFIX_COUNT {
        None
    } else if starts_with(lower, title_prefix(i)) {
        Some(i)
    } else {
        first_title(lower, i + 1)
    }
}

/// A name without its leading title (`"Dr. Jane Doe"` gives `"Jane Doe"`):
/// the first title prefix that the lowercased name starts with is cut from the
/// name as many bytes as the prefix has, the cut moved back to a character
/// boundary of the name. (Always `Some`; the `Option` is that of the checks
/// built on it.)
pub open spec fn stripped_title(name: Seq<char>) -> Option<Seq<char>> {
    match first_title(lowercase(name), 0) {
        None => Some(name),
        Some(i) => Some(name.skip(chars_within(name, byte_len(title_prefix(i)) as int))),
    }
}

/// `name` without its leading title (see `stripped_title`); never `None`.
pub fn strip_title(name: &Vec<char>) -> (r: Option<Vec<char>>)
    ensures
        r is Some,
        r matches Some(v) ==> stripped_title(name@) == Some(v@),
        r is None ==> stripped_title(name@) is None,
{
    let lower = lower_chars(name);
    let mut i: usize = 0;
    while i < TITLE_PREFIX_COUNT
        invariant
            lower@ == lowercase(name@),
            i <= TITLE_PREFIX_COUNT,
            first_title(lower@, 0) == first_title(lower@, i as int),
        decreases TITLE_PREFIX_COUNT - i,
    {
        let p = chars_of(title_prefix_at(i));
        if has_prefix(&lower, &p) {
            proof {
                lemma_ascii_byte_len(p@);
            }
            let k = chars_within_bytes(name, p.len());
            proof {
                assert(name@.subrange(k as int, name.len() as int) =~= name@.skip(k as int));
            }
            return Some(slice_chars(name, k, name.len()));
        }
        i += 1;
    }
    Some(name.clone())
}

/// `name` without the first organization suffix (at or after `i`) that it ends with.
pub open spec fn strip_org_suffix_from(name: Seq<char>, i: int) -> Seq<char>
    decreases ORG_SUFFIX_COUNT - i,
{
    if i < 0 || i >= ORG_SUFFIX_COUNT {
        name
    } else if ends_with(name, org_suffix(i)) {
        name.take(name.len() - org_suffix(i).len())
    } else {
        strip_org_suffix_from(name, i + 1)
    }
}

/// `name` without a common organization suffix such as `" inc."` or `" group"`.
pub open spec fn stripped_org_suffix(name: Seq<char>) -> Seq<char> {
    strip_org_suffix_from(name, 0)
}

/// `name` without the first common organization suffix that it ends with.
pub fn strip_org_suffix(name: &Vec<char>) -> (r: Vec<char>)
    ensures
        r@ == stripped_org_suffix(name@),
{
    let mut i: usize = 0;
    while i < ORG_SUFFIX_COUNT
        invariant
            i <= ORG_SUFFIX_COUNT,
            stripped_org_suffix(name@) == strip_org_suffix_from(name@, i as int),
        decreases ORG_SUFFIX_COUNT - i,
    {
        let s = chars_of(org_suffix_at(i));
        if has_suffix(name, &s) {
            return slice_chars(name, 0, name.len() - s.len());
        }
        i += 1;
    }
    name.clone()
}

/// The whitespace-separated parts of a name.
pub fn split_name(name: &Vec<char>) -> (r: Vec<Vec<char>>)
    ensures
        views(r@) == words(name@),
{
    words_of(name)
}

/// Whether two person names denote one person, `None` where stripping a title
/// would cut a name inside a character. Titles are stripped first; then the
/// names merge when equal ignoring case, when the shorter is the longer's last
/// name alone, when the shorter's first part is an initial of the longer's
/// first name and their last names agree, or when the shorter has two or more
/// parts, at least four bytes, and occurs in the longer.
pub open spec fn person_names_merge(longer: Seq<char>, shorter: Seq<char>) -> Option<bool> {
    match (stripped_title(longer), stripped_title(shorter)) {
        (Some(ln), Some(sn)) => {
            let ll = lowercase(ln);
            let sl = lowercase(sn);
            let lp = words(ll);
            let sp = words(sl);
            Some(
                {
                    ||| ll == sl
                    ||| (sp.len() == 1 && lp.len() > 1 && lp.last() == sp[0])
                    ||| (sp.len() >= 2 && lp.len() >= 2 && sp.last() == lp.last() && {
                        let initial = trim_end_char(sp[0], '.');
                        byte_len(initial) == 1 && starts_with(lp[0], initial)
                    })
                    ||| (sp.len() >= 2 && contains(ll, sl) && byte_len(sl) >= 4)
                },
            )
        },
        _ => None,
    }
}

/// Whether two organization names denote one organization: one occurs in the
/// other (the contained one having at least four bytes), or they agree once a
/// common suffix such as `" inc."` is removed and something is left.
pub open spec fn org_names_merge(longer: Seq<char>, shorter: Seq<char>) -> bool {
    let ll = lowercase(longer);
    let sl = lowercase(shorter);
    ||| (contains(ll, sl) && byte_len(sl) >= 4)
    ||| (contains(sl, ll) && byte_len(ll) >= 4)
    ||| (stripped_org_suffix(ll) == stripped_org_suffix(sl) && stripped_org_suffix(ll).len() > 0)
}

/// Whether two location names denote one place: the shorter, of at least
/// four bytes, occurs in the longer.
pub open spec fn location_names_merge(longer: Seq<char>, shorter: Seq<char>) -> bool {
    let ll = lowercase(longer);
    let sl = lowercase(shorter);
    contains(ll, sl) && byte_len(sl) >= 4
}

/// Names of any other type merge only when they are equal ignoring case.
pub open spec fn generic_names_merge(longer: Seq<char>, shorter: Seq<char>) -> bool {
    lowercase(longer) == lowercase(shorter)
}

/// Whether two entities of type `entity_type` should merge, `longer` being the
/// more specific name and `shorter` the candidate alias. `None` where the
/// person rule would cut a name inside a character.
pub open spec fn names_merge(longer: Seq<char>, shorter: Seq<char>, entity_type: Seq<char>) -> Option<bool> {
    if lowercase(longer) == lowercase(shorter) {
        Some(true)
    } else if entity_type == "person"@ {
        person_names_merge(longer, shorter)
    } else if entity_type == "organization"@ {
        Some(org_names_merge(longer, shorter))
    } else if entity_type == "location"@ {
        Some(location_names_merge(longer, shorter))
    } else {
        Some(generic_names_merge(longer, shorter))
    }
}

fn try_should_merge_person(longer: &Vec<char>, shorter: &Vec<char>) -> (r: Option<bool>)
    ensures
        r == person_names_merge(longer@, shorter@),
{
    let ln = match strip_title(longer) {
        Some(v) => v,
        None => return None,
    };
    let sn = match strip_title(shorter) {
        Some(v) => v,
        None => return None,
    };
    let ll = lower_chars(&ln);
    let sl = lower_chars(&sn);
    if chars_eq(&ll, &sl) {
        return Some(true);
    }
    let lp = split_name(&ll);
    let sp = split_name(&sl);
    proof {
        assert(views(lp@).len() == lp.len());
        assert(views(sp@).len() == sp.len());
    }
    if sp.len() == 1 && lp.len() > 1 {
        proof {
            assert(views(lp@)[lp.len() - 1] == lp@[lp.len() - 1]@);
            assert(views(sp@)[0] == sp@[0]@);
        }
        if chars_eq(&lp[lp.len() - 1], &sp[0]) {
            return Some(true);
        }
    }
    if sp.len() >= 2 && lp.len() >= 2 {
        proof {
            assert(views(lp@)[lp.len() - 1] == lp@[lp.len() - 1]@);
            assert(views(sp@)[sp.len() - 1] == sp@[sp.len() - 1]@);
            assert(views(lp@)[0] == lp@[0]@);
            assert(views(sp@)[0] == sp@[0]@);
        }
        if chars_eq(&sp[sp.len() - 1], &lp[lp.len() - 1]) {
            let initial = trim_end_matching(&sp[0], '.');
            if bytes_len(&initial) == 1 && has_prefix(&lp[0], &initial) {
                return Some(true);
            }
        }
    }
    if sp.len() >= 2 && contains_chars(&ll, &sl) && bytes_len(&sl) >= 4 {
        return Some(true);
    }
    Some(false)
}

fn should_merge_org(longer: &Vec<char>, shorter: &Vec<char>) -> (r: bool)
    ensures
        r == org_names_merge(longer@, shorter@),
{
    let ll = lower_chars(longer);
    let sl = lower_chars(shorter);
    if contains_chars(&ll, &sl) && bytes_len(&sl) >= 4 {
        return true;
    }
    if contains_chars(&sl, &ll) && bytes_len(&ll) >= 4 {
        return true;
    }
    let ls = strip_org_suffix(&ll);
    let ss = strip_org_suffix(&sl);
    chars_eq(&ls, &ss) && ls.len() > 0
}

fn should_merge_location(longer: &Vec<char>, shorter: &Vec<char>) -> (r: bool)
    ensures
        r == location_names_merge(longer@, shorter@),
{
    let ll = lower_chars(longer);
    let sl = lower_chars(shorter);
    contains_chars(&ll, &sl) && bytes_len(&sl) >= 4
}

fn should_merge_generic(longer: &Vec<char>, shorter: &Vec<char>) -> (r: bool)
    ensures
        r == generic_names_merge(longer@, shorter@),
{
    let ll = lower_chars(longer);
    let sl = lower_chars(shorter);
    chars_eq(&ll, &sl)
}

/// Whether two entities of one type should merge; `None` exactly where the
/// person rule would cut a name inside a character.
pub fn try_should_merge(longer: &str, shorter: &str, entity_type: &str) -> (r: Option<bool>)
    ensures
        r == names_merge(longer@, shorter@, entity_type@),
{
    let lv = chars_of(longer);
    let sv = chars_of(shorter);
    let ll = lower_chars(&lv);
    let sl = lower_chars(&sv);
    if chars_eq(&ll, &sl) {
        return Some(true);
    }
    if str_eq(entity_type, "person") {
        try_should_merge_person(&lv, &sv)
    } else if str_eq(entity_type, "organization") {
        Some(should_merge_org(&lv, &sv))
    } else if str_eq(entity_type, "location") {
        Some(should_merge_location(&lv, &sv))
    } else {
        Some(should_merge_generic(&lv, &sv))
    }
}

/// Whether two entities of one type should merge: `longer` is the more specific
/// name, `shorter` the candidate alias.
pub fn should_merge(longer: &str, shorter: &str, entity_type: &str) -> (r: bool)
    ensures
        Some(r) == names_merge(longer@, shorter@, entity_type@),
{
    match try_should_merge(longer, shorter, entity_type) {
        Some(b) => b,
        None => false,
    }
}

/// The lowercased parts of a person name once its title is stripped.
pub open spec fn person_parts(name: Seq<char>) -> Seq<Seq<char>> {
    words(lowercase(stripped_title(name).unwrap()))
}

/// `part`, without trailing dots, is a single ASCII letter or sign that the
/// first name `first` begins with: `j.` or `j` for `john`.
pub open spec fn is_initial_of(part: Seq<char>, first: Seq<char>) -> bool {
    let i = trim_end_char(part, '.');
    i.len() == 1 && (i[0] as u32) < 0x80 && first.len() > 0 && first[0] == i[0]
}

proof fn lemma_byte_len_at_least_len(s: Seq<char>)
    ensures
        byte_len(s) >= s.len(),
    decreases s.len(),
{
    if s.len() > 0 {
        lemma_byte_len_at_least_len(s.drop_last());
    }
}

proof fn lemma_one_byte(x: Seq<char>, first: Seq<char>)
    ensures
        (byte_len(x) == 1 && starts_with(first, x)) == (x.len() == 1 && (x[0] as u32) < 0x80 && first.len() > 0
            && first[0] == x[0]),
{
    lemma_byte_len_at_least_len(x);
    if x.len() == 1 {
        assert(x.drop_last().len() == 0);
        assert(byte_len(x.drop_last()) == 0);
        assert(x.last() == x[0]);
        assert(byte_len(x) == utf8_width(x[0]));
        if first.len() > 0 && first[0] == x[0] {
            assert(first.subrange(0, 1) =~= x);
        }
        if starts_with(first, x) {
            assert(first.subrange(0, 1)[0] == first[0]);
        }
    }
}

/// Two person names of two or more parts each, different ignoring case and
/// neither contained in the other as the substring rule needs, merge only as
/// a first name and its initial: they merge exactly when their last parts
/// agree and the shorter's first part, without trailing dots, is a single
/// ASCII character that begins the longer's first part. So `R. Epstein`
/// never merges with `Jeffrey Epstein`, while `J. Epstein` does.
pub proof fn initial_must_begin_the_first_name(longer: Seq<char>, shorter: Seq<char>)
    requires
        lowercase(longer) != lowercase(shorter),
        stripped_title(longer) is Some,
        stripped_title(shorter) is Some,
        lowercase(stripped_title(longer).unwrap()) != lowercase(stripped_title(shorter).unwrap()),
        person_parts(longer).len() >= 2,
        person_parts(shorter).len() >= 2,
        !(contains(lowercase(stripped_title(longer).unwrap()), lowercase(stripped_title(shorter).unwrap()))
            && byte_len(lowercase(stripped_title(shorter).unwrap())) >= 4),
    ensures
        names_merge(longer, shorter, "person"@) == Some(
            person_parts(shorter).last() == person_parts(longer).last() && is_initial_of(
                person_parts(shorter)[0],
                person_parts(longer)[0],
            ),
        ),
{
    lemma_one_byte(trim_end_char(person_parts(shorter)[0], '.'), person_parts(longer)[0]);
}

/// A one-part person name merges with a different, longer name only as its
/// last name: `Smith` merges with `Jane Smith`, never with `Smith Jones` or
/// with `Jane`.
pub proof fn single_name_merges_only_as_last_name(longer: Seq<char>, shorter: Seq<char>)
    requires
        lowercase(longer) != lowercase(shorter),
        stripped_title(longer) is Some,
        stripped_title(shorter) is Some,
        lowercase(stripped_title(longer).unwrap()) != lowercase(stripped_title(shorter).unwrap()),
        person_parts(shorter).len() == 1,
    ensures
        names_merge(longer, shorter, "person"@) == Some(
            person_parts(longer).len() > 1 && person_parts(longer).last() == person_parts(shorter)[0],
        ),
{
}

/// Two names that are equal ignoring case always merge, whatever their type.
pub proof fn same_name_ignoring_case_merges(longer: Seq<char>, shorter: Seq<char>, entity_type: Seq<char>)
    requires
        lowercase(longer) == lowercase(shorter),
    ensures
        names_merge(longer, shorter, entity_type) == Some(true),
{
}

/// A name always merges with itself.
pub proof fn name_merges_with_itself(name: Seq<char>, entity_type: Seq<char>)
    ensures
        names_merge(name, name, entity_type) == Some(true),
{
}

/// Entities of a type without a rule of its own merge only on equal names
/// ignoring case.
pub proof fn other_types_merge_only_on_equal_names(longer: Seq<char>, shorter: Seq<char>, entity_type: Seq<char>)
    requires
        entity_type != "person"@,
        entity_type != "organization"@,
        entity_type != "location"@,
    ensures
        names_merge(longer, shorter, entity_type) == Some(lowercase(longer) == lowercase(shorter)),
{
}

/// A location never merges with a shorter name of fewer than four bytes
/// unless the two are equal ignoring case.
pub proof fn short_locations_do_not_merge(longer: Seq<char>, shorter: Seq<char>)
    requires
        lowercase(longer) != lowercase(shorter),
        byte_len(lowercase(shorter)) < 4,
    ensures
        names_merge(longer, shorter, "location"@) == Some(false),
{
    reveal_strlit("location");
    reveal_strlit("person");
    reveal_strlit("organization");
    assert("location"@ != "person"@) by {
        assert("location"@.len() != "person"@.len());
    }
    assert("location"@ != "organization"@) by {
        assert("location"@.len() != "organization"@.len());
    }
}


// ───────────────────────── the resolution pass ─────────────────────────

/// A recognised entity as stored: id, name, type, and the entity it was
/// merged into, if any.
pub struct NerEntity {
    pub id: i64,
    pub name: String,
    pub entity_type: String,
    pub canonical_id: Option<i64>,
}

/// The mathematical value of a stored entity.
pub ghost struct EntityRow {
    pub id: i64,
    pub name: Seq<char>,
    pub entity_type: Seq<char>,
    pub canonical_id: Option<i64>,
}

impl View for NerEntity {
    type V = EntityRow;

    open spec fn view(&self) -> EntityRow {
        EntityRow {
            id: self.id,
            name: self.name@,
            entity_type: self.entity_type@,
            canonical_id: self.canonical_id,
        }
    }
}

/// The views of a list of stored entities.
pub open spec fn row_views(v: Seq<NerEntity>) -> Seq<EntityRow> {
    v.map_values(|e: NerEntity| e@)
}

/// One merge: the alias, the entity it now stands for, and their names.
pub struct MergeStep {
    pub alias_id: i64,
    pub canonical_id: i64,
    pub alias_name: String,
    pub canonical_name: String,
}

/// The mathematical value of a merge.
pub ghost struct MergeModel {
    pub alias_id: i64,
    pub canonical_id: i64,
    pub alias_name: Seq<char>,
    pub canonical_name: Seq<char>,
}

impl View for MergeStep {
    type V = MergeModel;

    open spec fn view(&self) -> MergeModel {
        MergeModel {
            alias_id: self.alias_id,
            canonical_id: self.canonical_id,
            alias_name: self.alias_name@,
            canonical_name: self.canonical_name@,
        }
    }
}

/// The views of a list of merges.
pub open spec fn merge_views(v: Seq<MergeStep>) -> Seq<MergeModel> {
    v.map_values(|m: MergeStep| m@)
}

/// Where a co-occurrence edge `(a, b)` of an alias goes once the alias is
/// merged into `canonical`: `None` where its other end is the canonical
/// entity itself (the edge is dropped), else the pair of the canonical
/// entity and the other end, smaller id first.
pub open spec fn rewired(alias: i64, canonical: i64, a: i64, b: i64) -> Option<(i64, i64)> {
    let other = if a == alias { b } else { a };
    if other == canonical {
        None
    } else if canonical < other {
        Some((canonical, other))
    } else {
        Some((other, canonical))
    }
}

/// Where a co-occurrence edge of a merged-away alias goes (see `rewired`).
pub fn rewired_pair(alias: i64, canonical: i64, a: i64, b: i64) -> (r: Option<(i64, i64)>)
    ensures
        r == rewired(alias, canonical, a, b),
        r matches Some(p) ==> p.0 < p.1 && (p.0 == canonical || p.1 == canonical),
        (a == alias || b == alias) && alias != canonical && a != b ==> (r matches Some(p) ==> p.0 != alias && p.1 != alias),
{
    let other = if a == alias {
        b
    } else {
        a
    };
    if other == canonical {
        None
    } else if canonical < other {
        Some((canonical, other))
    } else {
        Some((other, canonical))
    }
}

/// The outcome of a resolution pass: how many merges, and each as
/// (alias name, canonical name).
pub struct ResolutionResult {
    pub merges: u64,
    pub details: Vec<(String, String)>,
}

/// The unresolved entities of type `t` among the first `k` rows, in order.
pub open spec fn group_of(rows: Seq<EntityRow>, t: Seq<char>, k: int) -> Seq<(i64, Seq<char>)>
    decreases k,
{
    if k <= 0 {
        Seq::empty()
    } else {
        let prev = group_of(rows, t, k - 1);
        let r = rows[k - 1];
        if r.canonical_id is None && r.entity_type == t {
            prev.push((r.id, r.name))
        } else {
            prev
        }
    }
}

/// The types of the unresolved entities among the first `k` rows, each once,
/// in order of first appearance.
pub open spec fn types_of(rows: Seq<EntityRow>, k: int) -> Seq<Seq<char>>
    decreases k,
{
    if k <= 0 {
        Seq::empty()
    } else {
        let prev = types_of(rows, k - 1);
        let r = rows[k - 1];
        if r.canonical_id is None && !prev.contains(r.entity_type) {
            prev.push(r.entity_type)
        } else {
            prev
        }
    }
}

/// The number of leading entries of `s` whose names are at least `n` bytes.
pub open spec fn longer_prefix(s: Seq<(i64, Seq<char>)>, n: nat) -> int
    decreases s.len(),
{
    if s.len() == 0 || byte_len(s[0].1) < n {
        0
    } else {
        1 + longer_prefix(s.drop_first(), n)
    }
}

/// `x` placed after every entry whose name is at least as long.
pub open spec fn insert_by_len(s: Seq<(i64, Seq<char>)>, x: (i64, Seq<char>)) -> Seq<(i64, Seq<char>)> {
    let p = longer_prefix(s, byte_len(x.1));
    s.take(p).push(x) + s.skip(p)
}

/// The entries ordered by name length in bytes, longest first, entries of
/// equal length kept in their order (a stable sort).
pub open spec fn sort_by_len(s: Seq<(i64, Seq<char>)>) -> Seq<(i64, Seq<char>)>
    decreases s.len(),
{
    if s.len() == 0 {
        Seq::empty()
    } else {
        insert_by_len(sort_by_len(s.drop_last()), s.last())
    }
}

/// The merges made so far and the entities merged away.
#[verifier::ext_equal]
pub ghost struct PassState {
    pub merged: Seq<i64>,
    pub merges: Seq<MergeModel>,
}

/// The state after a merge of `alias` into `canonical`.
pub open spec fn with_merge(st: PassState, canonical: (i64, Seq<char>), alias: (i64, Seq<char>)) -> PassState {
    PassState {
        merged: st.merged.push(alias.0),
        merges: st.merges.push(
            MergeModel {
                alias_id: alias.0,
                canonical_id: canonical.0,
                alias_name: alias.1,
                canonical_name: canonical.1,
            },
        ),
    }
}

/// Entry `i` of a sorted group against the entries from `j` on: each not yet
/// merged away that should merge with it becomes its alias. `None` where a
/// name comparison cannot be made.
pub open spec fn merge_later(g: Seq<(i64, Seq<char>)>, t: Seq<char>, i: int, j: int, st: PassState) -> Option<PassState>
    decreases g.len() - j,
{
    if j < 0 || j >= g.len() || i < 0 || i >= g.len() {
        Some(st)
    } else if st.merged.contains(g[j].0) {
        merge_later(g, t, i, j + 1, st)
    } else {
        match names_merge(g[i].1, g[j].1, t) {
            None => None,
            Some(true) => merge_later(g, t, i, j + 1, with_merge(st, g[i], g[j])),
            Some(false) => merge_later(g, t, i, j + 1, st),
        }
    }
}

/// The entries of a sorted group from `i` on, each not yet merged away
/// taking the later ones as aliases.
pub open spec fn merge_group(g: Seq<(i64, Seq<char>)>, t: Seq<char>, i: int, st: PassState) -> Option<PassState>
    decreases g.len() - i,
{
    if i < 0 || i >= g.len() {
        Some(st)
    } else if st.merged.contains(g[i].0) {
        merge_group(g, t, i + 1, st)
    } else {
        match merge_later(g, t, i, i + 1, st) {
            None => None,
            Some(st2) => merge_group(g, t, i + 1, st2),
        }
    }
}

/// The pass over the first `k` types.
pub open spec fn merge_types(rows: Seq<EntityRow>, types: Seq<Seq<char>>, k: int) -> Option<PassState>
    decreases k,
{
    if k <= 0 {
        Some(PassState { merged: Seq::empty(), merges: Seq::empty() })
    } else {
        match merge_types(rows, types, k - 1) {
            None => None,
            Some(st) => {
                let g = sort_by_len(group_of(rows, types[k - 1], rows.len() as int));
                merge_group(g, types[k - 1], 0, st)
            },
        }
    }
}

/// The merges of a resolution pass over the stored entities, in the order
/// they are made: the unresolved entities are grouped by type; each group
/// is ordered longest name first; each entry not yet merged away takes as
/// aliases the later entries that should merge with it. `None` where a name
/// comparison cannot be made.
pub open spec fn resolution_merges(rows: Seq<EntityRow>) -> Option<Seq<MergeModel>> {
    let types = types_of(rows, rows.len() as int);
    match merge_types(rows, types, types.len() as int) {
        Some(st) => Some(st.merges),
        None => None,
    }
}


/// The texts of a list of (id, name) entries.
pub open spec fn entry_texts(v: Seq<(i64, String)>) -> Seq<(i64, Seq<char>)> {
    v.map_values(|e: (i64, String)| (e.0, e.1@))
}

fn group_entities(rows: &Vec<NerEntity>, t: &str) -> (r: Vec<(i64, String)>)
    ensures
        entry_texts(r@) == group_of(row_views(rows@), t@, rows.len() as int),
{
    let mut out: Vec<(i64, String)> = Vec::new();
    let mut i: usize = 0;
    while i < rows.len()
        invariant
            i <= rows.len(),
            entry_texts(out@) == group_of(row_views(rows@), t@, i as int),
        decreases rows.len() - i,
    {
        proof {
            assert(row_views(rows@)[i as int] == rows@[i as int]@);
        }
        if rows[i].canonical_id.is_none() && str_eq(rows[i].entity_type.as_str(), t) {
            let ghost before = entry_texts(out@);
            let e = (rows[i].id, rows[i].name.clone());
            out.push(e);
            proof {
                assert(entry_texts(out@) =~= before.push((e.0, e.1@)));
            }
        }
        i += 1;
    }
    out
}

fn seq_has(v: &Vec<String>, x: &str) -> (r: bool)
    ensures
        r == crate::query::parser::texts(v@).contains(x@),
{
    let mut i: usize = 0;
    while i < v.len()
        invariant
            i <= v.len(),
            forall|j: int| 0 <= j < i ==> v@[j]@ != x@,
        decreases v.len() - i,
    {
        if str_eq(v[i].as_str(), x) {
            proof {
                assert(crate::query::parser::texts(v@)[i as int] == x@);
            }
            return true;
        }
        i += 1;
    }
    proof {
        if crate::query::parser::texts(v@).contains(x@) {
            let j = choose|j: int| 0 <= j < v.len() && crate::query::parser::texts(v@)[j] == x@;
            assert(v@[j]@ == x@);
        }
    }
    false
}

fn entity_types(rows: &Vec<NerEntity>) -> (r: Vec<String>)
    ensures
        crate::query::parser::texts(r@) == types_of(row_views(rows@), rows.len() as int),
{
    let mut out: Vec<String> = Vec::new();
    let mut i: usize = 0;
    while i < rows.len()
        invariant
            i <= rows.len(),
            crate::query::parser::texts(out@) == types_of(row_views(rows@), i as int),
        decreases rows.len() - i,
    {
        proof {
            assert(row_views(rows@)[i as int] == rows@[i as int]@);
        }
        if rows[i].canonical_id.is_none() && !seq_has(&out, rows[i].entity_type.as_str()) {
            let ghost before = crate::query::parser::texts(out@);
            let t = rows[i].entity_type.clone();
            out.push(t);
            proof {
                assert(crate::query::parser::texts(out@) =~= before.push(t@));
            }
        }
        i += 1;
    }
    out
}

proof fn lemma_longer_prefix(s: Seq<(i64, Seq<char>)>, n: nat, k: int)
    requires
        0 <= k <= s.len(),
        forall|j: int| 0 <= j < k ==> byte_len(#[trigger] s[j].1) >= n,
        k == s.len() || byte_len(s[k].1) < n,
    ensures
        longer_prefix(s, n) == k,
    decreases k,
{
    if k > 0 {
        let t = s.drop_first();
        assert forall|j: int| 0 <= j < k - 1 implies byte_len(#[trigger] t[j].1) >= n by {
            assert(t[j] == s[j + 1]);
        }
        if k < s.len() {
            assert(t[k - 1] == s[k]);
        }
        lemma_longer_prefix(t, n, k - 1);
    }
}

fn insert_sorted(v: &mut Vec<(i64, String)>, lens: &mut Vec<usize>, x: (i64, String), xl: usize)
    requires
        old(lens).len() == old(v).len(),
        forall|j: int| 0 <= j < old(v).len() ==> old(lens)@[j] == byte_len(#[trigger] old(v)@[j].1@),
        xl == byte_len(x.1@),
    ensures
        entry_texts(final(v)@) == insert_by_len(entry_texts(old(v)@), (x.0, x.1@)),
        final(lens).len() == final(v).len(),
        forall|j: int| 0 <= j < final(v).len() ==> final(lens)@[j] == byte_len(#[trigger] final(v)@[j].1@),
{
    let ghost s = entry_texts(v@);
    let mut p: usize = 0;
    while p < v.len() && lens[p] >= xl
        invariant
            p <= v.len(),
            lens.len() == v.len(),
            v@ == old(v)@,
            lens@ == old(lens)@,
            s == entry_texts(v@),
            forall|j: int| 0 <= j < v.len() ==> lens@[j] == byte_len(#[trigger] v@[j].1@),
            forall|j: int| 0 <= j < p ==> byte_len(#[trigger] s[j].1) >= xl,
        decreases v.len() - p,
    {
        proof {
            assert(s[p as int].1 == v@[p as int].1@);
        }
        p += 1;
    }
    proof {
        if p < v.len() {
            assert(s[p as int].1 == v@[p as int].1@);
        }
        lemma_longer_prefix(s, xl as nat, p as int);
    }
    let ghost xv = (x.0, x.1@);
    v.insert(p, x);
    lens.insert(p, xl);
    proof {
        assert(entry_texts(v@) =~= s.take(p as int).push(xv) + s.skip(p as int));
        assert forall|j: int| 0 <= j < v.len() implies lens@[j] == byte_len(#[trigger] v@[j].1@) by {
            if j < p {
                assert(v@[j] == old(v)@[j]);
            } else if j > p {
                assert(v@[j] == old(v)@[j - 1]);
            }
        }
    }
}

pub(crate) fn sort_entries(g: &Vec<(i64, String)>) -> (r: Vec<(i64, String)>)
    ensures
        entry_texts(r@) == sort_by_len(entry_texts(g@)),
{
    let mut out: Vec<(i64, String)> = Vec::new();
    let mut lens: Vec<usize> = Vec::new();
    let mut i: usize = 0;
    while i < g.len()
        invariant
            i <= g.len(),
            lens.len() == out.len(),
            forall|j: int| 0 <= j < out.len() ==> lens@[j] == byte_len(#[trigger] out@[j].1@),
            entry_texts(out@) == sort_by_len(entry_texts(g@).take(i as int)),
        decreases g.len() - i,
    {
        proof {
            assert(entry_texts(g@).take(i + 1).drop_last() =~= entry_texts(g@).take(i as int));
            assert(entry_texts(g@).take(i + 1).last() == (g@[i as int].0, g@[i as int].1@));
        }
        let x = (g[i].0, g[i].1.clone());
        let xl = crate::text::str_bytes(x.1.as_str());
        insert_sorted(&mut out, &mut lens, x, xl);
        i += 1;
    }
    proof {
        assert(entry_texts(g@).take(g.len() as int) =~= entry_texts(g@));
    }
    out
}

pub(crate) fn merged_contains(merged: &Vec<i64>, id: i64) -> (r: bool)
    ensures
        r == merged@.contains(id),
{
    let mut i: usize = 0;
    while i < merged.len()
        invariant
            i <= merged.len(),
            forall|j: int| 0 <= j < i ==> merged@[j] != id,
        decreases merged.len() - i,
    {
        if merged[i] == id {
            return true;
        }
        i += 1;
    }
    false
}

/// The state of a pass held by the executable code.
pub open spec fn pass_view(merged: Seq<i64>, merges: Seq<MergeStep>) -> PassState {
    PassState { merged, merges: merge_views(merges) }
}

fn merge_group_exec(g: &Vec<(i64, String)>, t: &str, merged: &mut Vec<i64>, merges: &mut Vec<MergeStep>) -> (ok: bool)
    ensures
        match merge_group(entry_texts(g@), t@, 0, pass_view(old(merged)@, old(merges)@)) {
            Some(st) => ok && pass_view(final(merged)@, final(merges)@) == st,
            None => !ok,
        },
{
    let ghost gv = entry_texts(g@);
    let mut i: usize = 0;
    while i < g.len()
        invariant
            i <= g.len(),
            gv == entry_texts(g@),
            merge_group(gv, t@, 0, pass_view(old(merged)@, old(merges)@)) == merge_group(
                gv,
                t@,
                i as int,
                pass_view(merged@, merges@),
            ),
        decreases g.len() - i,
    {
        if !merged_contains(merged, g[i].0) {
            let ghost st_i = pass_view(merged@, merges@);
            let mut j: usize = i + 1;
            while j < g.len()
                invariant
                    i < g.len(),
                    i + 1 <= j <= g.len(),
                    gv == entry_texts(g@),
                    !st_i.merged.contains(gv[i as int].0),
                    merge_group(gv, t@, 0, pass_view(old(merged)@, old(merges)@)) == match merge_later(
                        gv,
                        t@,
                        i as int,
                        j as int,
                        pass_view(merged@, merges@),
                    ) {
                        None => None,
                        Some(st2) => merge_group(gv, t@, i + 1, st2),
                    },
                decreases g.len() - j,
            {
                proof {
                    assert(gv[j as int] == (g@[j as int].0, g@[j as int].1@));
                    assert(gv[i as int] == (g@[i as int].0, g@[i as int].1@));
                }
                if !merged_contains(merged, g[j].0) {
                    match try_should_merge(g[i].1.as_str(), g[j].1.as_str(), t) {
                        None => {
                            return false;
                        },
                        Some(true) => {
                            let ghost before = pass_view(merged@, merges@);
                            merged.push(g[j].0);
                            let m = MergeStep {
                                alias_id: g[j].0,
                                canonical_id: g[i].0,
                                alias_name: g[j].1.clone(),
                                canonical_name: g[i].1.clone(),
                            };
                            merges.push(m);
                            proof {
                                assert(merge_views(merges@) =~= before.merges.push(m@));
                                assert(pass_view(merged@, merges@) =~= with_merge(before, gv[i as int], gv[j as int]));
                            }
                        },
                        Some(false) => {},
                    }
                }
                j += 1;
            }
        }
        i += 1;
    }
    true
}

/// The merges of a resolution pass over the stored entities (see
/// `resolution_merges`), or `None` exactly where a name comparison cannot be
/// made.
pub fn resolve_entities(rows: &Vec<NerEntity>) -> (r: Option<Vec<MergeStep>>)
    ensures
        r is Some,
        match resolution_merges(row_views(rows@)) {
            Some(ms) => r matches Some(v) && merge_views(v@) == ms,
            None => r is None,
        },
{
    proof {
        resolution_always_made(row_views(rows@));
    }
    let types = entity_types(rows);
    let ghost tv = crate::query::parser::texts(types@);
    let mut merged: Vec<i64> = Vec::new();
    let mut merges: Vec<MergeStep> = Vec::new();
    let mut k: usize = 0;
    proof {
        assert(merge_views(merges@) =~= Seq::<MergeModel>::empty());
        assert(pass_view(merged@, merges@) =~= PassState { merged: Seq::empty(), merges: Seq::empty() });
    }
    while k < types.len()
        invariant
            k <= types.len(),
            tv == crate::query::parser::texts(types@),
            tv == types_of(row_views(rows@), rows.len() as int),
            merge_types(row_views(rows@), tv, k as int) == Some(pass_view(merged@, merges@)),
        decreases types.len() - k,
    {
        let g = group_entities(rows, types[k].as_str());
        let sorted = sort_entries(&g);
        proof {
            assert(tv[k as int] == types@[k as int]@);
        }
        if !merge_group_exec(&sorted, types[k].as_str(), &mut merged, &mut merges) {
            proof {
                lemma_merge_types_none(row_views(rows@), tv, k + 1, tv.len() as int);
                resolution_always_made(row_views(rows@));
            }
            return None;
        }
        k += 1;
    }
    Some(merges)
}

proof fn lemma_merge_types_none(rows: Seq<EntityRow>, types: Seq<Seq<char>>, k: int, n: int)
    requires
        0 < k <= n,
        merge_types(rows, types, k) is None,
    ensures
        merge_types(rows, types, n) is None,
    decreases n - k,
{
    if k < n {
        lemma_merge_types_none(rows, types, k + 1, n);
    }
}

impl ResolutionResult {
    /// The count and names of a list of merges.
    pub fn of(steps: &Vec<MergeStep>) -> (r: Self)
        ensures
            r.merges == steps.len(),
            r.details@.len() == steps.len(),
            forall|i: int|
                0 <= i < steps.len() ==> (#[trigger] r.details@[i]).0@ == steps@[i].alias_name@
                    && r.details@[i].1@ == steps@[i].canonical_name@,
    {
        let mut details: Vec<(String, String)> = Vec::new();
        let mut i: usize = 0;
        while i < steps.len()
            invariant
                i <= steps.len(),
                details.len() == i,
                forall|j: int|
                    0 <= j < i ==> (#[trigger] details@[j]).0@ == steps@[j].alias_name@
                        && details@[j].1@ == steps@[j].canonical_name@,
            decreases steps.len() - i,
        {
            details.push((steps[i].alias_name.clone(), steps[i].canonical_name.clone()));
            i += 1;
        }
        ResolutionResult { merges: steps.len() as u64, details }
    }
}


// ───────────────────────── the once-only law ─────────────────────────

/// The merged-away entities are exactly the merges' aliases, each once.
pub open spec fn pass_consistent(st: PassState) -> bool {
    &&& st.merged.len() == st.merges.len()
    &&& forall|i: int| 0 <= i < st.merged.len() ==> #[trigger] st.merged[i] == st.merges[i].alias_id
    &&& forall|i: int, j: int| 0 <= i < j < st.merged.len() ==> st.merged[i] != st.merged[j]
}

pub(crate) proof fn lemma_with_merge(st: PassState, c: (i64, Seq<char>), a: (i64, Seq<char>))
    requires
        pass_consistent(st),
        !st.merged.contains(a.0),
    ensures
        pass_consistent(with_merge(st, c, a)),
{
    let st2 = with_merge(st, c, a);
    assert forall|i: int, j: int| 0 <= i < j < st2.merged.len() implies st2.merged[i] != st2.merged[j] by {
        if j == st.merged.len() {
            assert(st2.merged[i] == st.merged[i]);
            assert(st.merged.contains(st.merged[i]));
        }
    }
}

proof fn lemma_merge_later(g: Seq<(i64, Seq<char>)>, t: Seq<char>, i: int, j: int, st: PassState)
    requires
        pass_consistent(st),
    ensures
        merge_later(g, t, i, j, st) matches Some(st2) ==> pass_consistent(st2),
    decreases g.len() - j,
{
    if 0 <= j < g.len() && 0 <= i < g.len() {
        if st.merged.contains(g[j].0) {
            lemma_merge_later(g, t, i, j + 1, st);
        } else {
            match names_merge(g[i].1, g[j].1, t) {
                None => {},
                Some(true) => {
                    lemma_with_merge(st, g[i], g[j]);
                    lemma_merge_later(g, t, i, j + 1, with_merge(st, g[i], g[j]));
                },
                Some(false) => {
                    lemma_merge_later(g, t, i, j + 1, st);
                },
            }
        }
    }
}

proof fn lemma_merge_group(g: Seq<(i64, Seq<char>)>, t: Seq<char>, i: int, st: PassState)
    requires
        pass_consistent(st),
    ensures
        merge_group(g, t, i, st) matches Some(st2) ==> pass_consistent(st2),
    decreases g.len() - i,
{
    if 0 <= i < g.len() {
        if st.merged.contains(g[i].0) {
            lemma_merge_group(g, t, i + 1, st);
        } else {
            lemma_merge_later(g, t, i, i + 1, st);
            match merge_later(g, t, i, i + 1, st) {
                None => {},
                Some(st2) => {
                    lemma_merge_group(g, t, i + 1, st2);
                },
            }
        }
    }
}

proof fn lemma_merge_types(rows: Seq<EntityRow>, types: Seq<Seq<char>>, k: int)
    ensures
        merge_types(rows, types, k) matches Some(st) ==> pass_consistent(st),
    decreases k,
{
    if k > 0 {
        lemma_merge_types(rows, types, k - 1);
        match merge_types(rows, types, k - 1) {
            None => {},
            Some(st) => {
                let g = sort_by_len(group_of(rows, types[k - 1], rows.len() as int));
                lemma_merge_group(g, types[k - 1], 0, st);
            },
        }
    }
}

proof fn lemma_merge_later_some(g: Seq<(i64, Seq<char>)>, t: Seq<char>, i: int, j: int, st: PassState)
    ensures
        merge_later(g, t, i, j, st) is Some,
    decreases g.len() - j,
{
    if 0 <= j < g.len() && 0 <= i < g.len() {
        if st.merged.contains(g[j].0) {
            lemma_merge_later_some(g, t, i, j + 1, st);
        } else {
            lemma_merge_later_some(g, t, i, j + 1, with_merge(st, g[i], g[j]));
            lemma_merge_later_some(g, t, i, j + 1, st);
        }
    }
}

proof fn lemma_merge_group_some(g: Seq<(i64, Seq<char>)>, t: Seq<char>, i: int, st: PassState)
    ensures
        merge_group(g, t, i, st) is Some,
    decreases g.len() - i,
{
    if 0 <= i < g.len() {
        if st.merged.contains(g[i].0) {
            lemma_merge_group_some(g, t, i + 1, st);
        } else {
            lemma_merge_later_some(g, t, i, i + 1, st);
            lemma_merge_group_some(g, t, i + 1, merge_later(g, t, i, i + 1, st).unwrap());
        }
    }
}

proof fn lemma_merge_types_some(rows: Seq<EntityRow>, types: Seq<Seq<char>>, k: int)
    ensures
        merge_types(rows, types, k) is Some,
    decreases k,
{
    if k > 0 {
        lemma_merge_types_some(rows, types, k - 1);
        let st = merge_types(rows, types, k - 1).unwrap();
        lemma_merge_group_some(sort_by_len(group_of(rows, types[k - 1], rows.len() as int)), types[k - 1], 0, st);
    }
}

/// Every set of stored entities can be resolved: titles are cut at
/// character boundaries, so every name comparison can be made.
pub proof fn resolution_always_made(rows: Seq<EntityRow>)
    ensures
        resolution_merges(rows) is Some,
{
    let types = types_of(rows, rows.len() as int);
    lemma_merge_types_some(rows, types, types.len() as int);
}

/// A resolution pass merges each entity away at most once: no two merges
/// share an alias.
pub proof fn each_alias_merged_once(rows: Seq<EntityRow>)
    ensures
        forall|i: int, j: int|
            0 <= i < j < resolution_merges(rows).unwrap().len() ==> (#[trigger] resolution_merges(
                rows,
            ).unwrap()[i]).alias_id != (#[trigger] resolution_merges(rows).unwrap()[j]).alias_id,
{
    resolution_always_made(rows);
    let types = types_of(rows, rows.len() as int);
    lemma_merge_types(rows, types, types.len() as int);
    let st = merge_types(rows, types, types.len() as int).unwrap();
    assert forall|i: int, j: int| 0 <= i < j < st.merges.len() implies (#[trigger] st.merges[i]).alias_id
        != (#[trigger] st.merges[j]).alias_id by {
        assert(st.merged[i] == st.merges[i].alias_id);
        assert(st.merged[j] == st.merges[j].alias_id);
    }
}


// ───────────────────────── the one-level law ─────────────────────────

/// Entry `e` is the id and name of an unresolved row of type `t` among the
/// first `k` rows.
pub open spec fn unresolved_below(rows: Seq<EntityRow>, e: (i64, Seq<char>), t: Seq<char>, k: int) -> bool {
    exists|r: int|
        0 <= r < k && r < rows.len() && #[trigger] rows[r].id == e.0 && rows[r].name == e.1 && rows[r].canonical_id is None
            && rows[r].entity_type == t
}

/// A merge joins two unresolved rows of one type, among types `ts`, whose
/// names merge by that type's rule, the canonical name being at least as
/// long in bytes as the alias.
pub open spec fn sound_merge(rows: Seq<EntityRow>, m: MergeModel, ts: Seq<Seq<char>>) -> bool {
    &&& byte_len(m.canonical_name) >= byte_len(m.alias_name)
    &&& exists|t: Seq<char>|
        #[trigger] ts.contains(t) && unresolved_below(rows, (m.alias_id, m.alias_name), t, rows.len() as int)
            && unresolved_below(rows, (m.canonical_id, m.canonical_name), t, rows.len() as int) && names_merge(
            m.canonical_name,
            m.alias_name,
            t,
        ) == Some(true)
}

/// No merge's canonical entity is itself merged away.
pub open spec fn one_level(ms: Seq<MergeModel>) -> bool {
    forall|a: int, b: int| 0 <= a < ms.len() && 0 <= b < ms.len() ==> (#[trigger] ms[a]).canonical_id != (#[trigger] ms[b]).alias_id
}

/// The rows' ids are distinct.
pub open spec fn distinct_row_ids(rows: Seq<EntityRow>) -> bool {
    forall|i: int, j: int| 0 <= i < j < rows.len() ==> rows[i].id != rows[j].id
}

/// The entries are ordered by name length in bytes, longest first.
pub open spec fn len_sorted(g: Seq<(i64, Seq<char>)>) -> bool {
    forall|i: int, j: int| 0 <= i < j < g.len() ==> byte_len(g[i].1) >= byte_len(g[j].1)
}

/// The entries before `longer_prefix(s, n)` have names of at least `n`
/// bytes; the entry there, if any, has a shorter one.
proof fn lemma_longer_prefix_split(s: Seq<(i64, Seq<char>)>, n: nat)
    ensures
        forall|q: int| 0 <= q < longer_prefix(s, n) ==> byte_len(#[trigger] s[q].1) >= n,
        0 <= longer_prefix(s, n) < s.len() ==> byte_len(s[longer_prefix(s, n)].1) < n,
    decreases s.len(),
{
    lemma_longer_prefix_range(s, n);
    if s.len() > 0 && byte_len(s[0].1) >= n {
        let d = s.drop_first();
        lemma_longer_prefix_split(d, n);
        lemma_longer_prefix_range(d, n);
        let p = longer_prefix(s, n);
        assert(p == 1 + longer_prefix(d, n));
        assert forall|q: int| 0 <= q < p implies byte_len(#[trigger] s[q].1) >= n by {
            if q > 0 {
                assert(s[q] == d[q - 1]);
            }
        }
        if p < s.len() {
            assert(s[p] == d[p - 1]);
        }
    }
}

/// The entries' ids are distinct.
pub open spec fn distinct_entry_ids(g: Seq<(i64, Seq<char>)>) -> bool {
    forall|i: int, j: int| 0 <= i < j < g.len() ==> g[i].0 != g[j].0
}

/// Every entry is an unresolved row of type `t`.
pub open spec fn entries_of_type(rows: Seq<EntityRow>, g: Seq<(i64, Seq<char>)>, t: Seq<char>) -> bool {
    forall|x: int| 0 <= x < g.len() ==> unresolved_below(rows, #[trigger] g[x], t, rows.len() as int)
}

proof fn lemma_group_of(rows: Seq<EntityRow>, t: Seq<char>, k: int)
    requires
        0 <= k <= rows.len(),
        distinct_row_ids(rows),
    ensures
        distinct_entry_ids(group_of(rows, t, k)),
        forall|x: int| 0 <= x < group_of(rows, t, k).len() ==> unresolved_below(rows, #[trigger] group_of(rows, t, k)[x], t, k),
    decreases k,
{
    if k > 0 {
        lemma_group_of(rows, t, k - 1);
        let prev = group_of(rows, t, k - 1);
        let g = group_of(rows, t, k);
        let r = rows[k - 1];
        assert forall|x: int| 0 <= x < g.len() implies unresolved_below(rows, #[trigger] g[x], t, k) by {
            if x < prev.len() {
                assert(g[x] == prev[x]);
                assert(unresolved_below(rows, prev[x], t, k - 1));
                let w = choose|w: int|
                    0 <= w < k - 1 && w < rows.len() && #[trigger] rows[w].id == prev[x].0 && rows[w].name == prev[x].1
                        && rows[w].canonical_id is None && rows[w].entity_type == t;
                assert(rows[w].id == g[x].0);
            } else {
                assert(rows[k - 1].id == g[x].0);
            }
        }
        if r.canonical_id is None && r.entity_type == t {
            assert forall|i: int, j: int| 0 <= i < j < g.len() implies g[i].0 != g[j].0 by {
                if j == prev.len() {
                    assert(unresolved_below(rows, prev[i], t, k - 1));
                    let w = choose|w: int|
                        0 <= w < k - 1 && w < rows.len() && #[trigger] rows[w].id == prev[i].0 && rows[w].name
                            == prev[i].1 && rows[w].canonical_id is None && rows[w].entity_type == t;
                    assert(rows[w].id != rows[k - 1].id);
                } else {
                    assert(g[i] == prev[i] && g[j] == prev[j]);
                }
            }
        }
    }
}

proof fn lemma_longer_prefix_range(s: Seq<(i64, Seq<char>)>, n: nat)
    ensures
        0 <= longer_prefix(s, n) <= s.len(),
    decreases s.len(),
{
    if s.len() > 0 && byte_len(s[0].1) >= n {
        lemma_longer_prefix_range(s.drop_first(), n);
    }
}

proof fn lemma_sort_by_len(rows: Seq<EntityRow>, s: Seq<(i64, Seq<char>)>, t: Seq<char>)
    requires
        distinct_entry_ids(s),
        entries_of_type(rows, s, t),
    ensures
        distinct_entry_ids(sort_by_len(s)),
        entries_of_type(rows, sort_by_len(s), t),
        forall|y: (i64, Seq<char>)| sort_by_len(s).contains(y) ==> s.contains(y),
        len_sorted(sort_by_len(s)),
    decreases s.len(),
{
    if s.len() > 0 {
        let d = s.drop_last();
        assert(distinct_entry_ids(d));
        assert forall|x: int| 0 <= x < d.len() implies unresolved_below(rows, #[trigger] d[x], t, rows.len() as int) by {
            assert(d[x] == s[x]);
        }
        lemma_sort_by_len(rows, d, t);
        let so = sort_by_len(d);
        let x = s.last();
        lemma_longer_prefix_range(so, byte_len(x.1));
        let p = longer_prefix(so, byte_len(x.1));
        let r = sort_by_len(s);
        assert(r == so.take(p).push(x) + so.skip(p));
        assert(r.len() == so.len() + 1);
        assert forall|q: int| 0 <= q < r.len() implies (#[trigger] r[q] == x && q == p) || (q < p && r[q] == so[q]) || (q > p
            && r[q] == so[q - 1]) by {
            if q < p {
                assert(r[q] == so.take(p).push(x)[q]);
            } else if q == p {
                assert(r[q] == so.take(p).push(x)[q]);
            } else {
                assert(r[q] == so.skip(p)[q - p - 1]);
            }
        }
        assert forall|y: (i64, Seq<char>)| so.contains(y) implies s.contains(y) by {
            assert(d.contains(y));
            let w = choose|w: int| 0 <= w < d.len() && d[w] == y;
            assert(s[w] == y);
        }
        assert(!so.contains(x) ==> true);
        assert forall|y: (i64, Seq<char>)| r.contains(y) implies s.contains(y) by {
            let q = choose|q: int| 0 <= q < r.len() && r[q] == y;
            if q == p {
                assert(s[s.len() - 1] == y);
            } else if q < p {
                assert(so.contains(so[q]));
            } else {
                assert(so.contains(so[q - 1]));
            }
        }
        assert forall|y: int| 0 <= y < r.len() implies unresolved_below(rows, #[trigger] r[y], t, rows.len() as int) by {
            assert(s.contains(r[y]));
            let w = choose|w: int| 0 <= w < s.len() && s[w] == r[y];
            assert(unresolved_below(rows, s[w], t, rows.len() as int));
        }
        // x's id differs from every id in `so`, which come from the rest of `s`
        assert forall|q: int| 0 <= q < so.len() implies so[q].0 != x.0 by {
            assert(so.contains(so[q]));
            assert(d.contains(so[q]));
            let w = choose|w: int| 0 <= w < d.len() && d[w] == so[q];
            assert(d[w] == s[w]);
            assert(s[w].0 != s[s.len() - 1].0);
        }
        lemma_longer_prefix_split(so, byte_len(x.1));
        assert forall|i: int, j: int| 0 <= i < j < r.len() implies byte_len(r[i].1) >= byte_len(r[j].1) by {
            if j < p {
                assert(r[i] == so[i] && r[j] == so[j]);
            } else if j == p {
                assert(r[i] == so[i]);
            } else if i < p {
                assert(r[i] == so[i] && r[j] == so[j - 1]);
            } else if i == p {
                assert(r[j] == so[j - 1]);
                assert(byte_len(so[p].1) >= byte_len(so[j - 1].1));
            } else {
                assert(r[i] == so[i - 1] && r[j] == so[j - 1]);
            }
        }
        assert forall|i: int, j: int| 0 <= i < j < r.len() implies r[i].0 != r[j].0 by {
            if i == p {
                assert(r[j] == so[j - 1]);
            } else if j == p {
                assert(r[i] == so[i]);
            } else {
                let ii = if i < p { i } else { i - 1 };
                let jj = if j < p { j } else { j - 1 };
                assert(r[i] == so[ii]);
                assert(r[j] == so[jj]);
                assert(ii < jj);
            }
        }
    }
}

proof fn lemma_types_distinct(rows: Seq<EntityRow>, k: int)
    ensures
        types_of(rows, k).no_duplicates(),
    decreases k,
{
    if k > 0 {
        lemma_types_distinct(rows, k - 1);
        let prev = types_of(rows, k - 1);
        let r = rows[k - 1];
        if r.canonical_id is None && !prev.contains(r.entity_type) {
            assert forall|i: int, j: int| 0 <= i < prev.len() + 1 && 0 <= j < prev.len() + 1 && i != j implies prev.push(
                r.entity_type,
            )[i] != prev.push(r.entity_type)[j] by {
                if i == prev.len() {
                    assert(prev.contains(prev[j]));
                } else if j == prev.len() {
                    assert(prev.contains(prev[i]));
                }
            }
        }
    }
}

/// What holds of a pass state while group `g` of type `t` is worked
/// through, earlier groups having had types `ts`.
pub open spec fn pass_ok(rows: Seq<EntityRow>, st: PassState, ts: Seq<Seq<char>>) -> bool {
    &&& pass_consistent(st)
    &&& one_level(st.merges)
    &&& forall|a: int| 0 <= a < st.merges.len() ==> sound_merge(rows, #[trigger] st.merges[a], ts)
}

proof fn lemma_merge_later_ok(
    rows: Seq<EntityRow>,
    g: Seq<(i64, Seq<char>)>,
    t: Seq<char>,
    ts: Seq<Seq<char>>,
    i: int,
    j: int,
    st: PassState,
)
    requires
        pass_ok(rows, st, ts),
        ts.contains(t),
        distinct_entry_ids(g),
        entries_of_type(rows, g, t),
        len_sorted(g),
        0 <= i < g.len(),
        i < j <= g.len(),
        !st.merged.contains(g[i].0),
        forall|a: int, y: int| 0 <= a < st.merges.len() && i < y < g.len() ==> (#[trigger] st.merges[a]).canonical_id != (#[trigger] g[y]).0,
    ensures
        merge_later(g, t, i, j, st) matches Some(st2) && pass_ok(rows, st2, ts) && !st2.merged.contains(g[i].0) && (forall|a: int, y: int|
            0 <= a < st2.merges.len() && i < y < g.len() ==> (#[trigger] st2.merges[a]).canonical_id != (#[trigger] g[y]).0),
    decreases g.len() - j,
{
    lemma_merge_later_some(g, t, i, j, st);
    if j < g.len() {
        if st.merged.contains(g[j].0) {
            lemma_merge_later_ok(rows, g, t, ts, i, j + 1, st);
        } else {
            match names_merge(g[i].1, g[j].1, t) {
                Some(true) => {
                    let st2 = with_merge(st, g[i], g[j]);
                    lemma_with_merge(st, g[i], g[j]);
                    let m = st2.merges[st.merges.len() as int];
                    assert(unresolved_below(rows, g[j], t, rows.len() as int));
                    assert(unresolved_below(rows, g[i], t, rows.len() as int));
                    assert(sound_merge(rows, m, ts));
                    assert forall|a: int| 0 <= a < st2.merges.len() implies sound_merge(rows, #[trigger] st2.merges[a], ts) by {
                        if a < st.merges.len() {
                            assert(st2.merges[a] == st.merges[a]);
                        }
                    }
                    assert forall|a: int, b: int| 0 <= a < st2.merges.len() && 0 <= b < st2.merges.len() implies (#[trigger] st2.merges[a]).canonical_id
                        != (#[trigger] st2.merges[b]).alias_id by {
                        let n = st.merges.len() as int;
                        if a < n && b < n {
                            assert(st2.merges[a] == st.merges[a] && st2.merges[b] == st.merges[b]);
                        } else if a < n {
                            assert(st2.merges[a] == st.merges[a]);
                            assert(st.merges[a].canonical_id != g[j].0);
                        } else if b < n {
                            assert(st2.merges[b] == st.merges[b]);
                            assert(st.merged[b] == st.merges[b].alias_id);
                            assert(st.merged.contains(st.merged[b]));
                        } else {
                            assert(g[i].0 != g[j].0);
                        }
                    }
                    assert(!st2.merged.contains(g[i].0)) by {
                        if st2.merged.contains(g[i].0) {
                            let w = choose|w: int| 0 <= w < st2.merged.len() && st2.merged[w] == g[i].0;
                            if w < st.merged.len() {
                                assert(st.merged[w] == st2.merged[w]);
                            } else {
                                assert(g[i].0 != g[j].0);
                            }
                        }
                    }
                    assert forall|a: int, y: int| 0 <= a < st2.merges.len() && i < y < g.len() implies (#[trigger] st2.merges[a]).canonical_id
                        != (#[trigger] g[y]).0 by {
                        if a < st.merges.len() {
                            assert(st2.merges[a] == st.merges[a]);
                        } else {
                            assert(g[i].0 != g[y].0);
                        }
                    }
                    lemma_merge_later_ok(rows, g, t, ts, i, j + 1, st2);
                },
                _ => {
                    lemma_merge_later_ok(rows, g, t, ts, i, j + 1, st);
                },
            }
        }
    }
}


proof fn lemma_merge_group_ok(
    rows: Seq<EntityRow>,
    g: Seq<(i64, Seq<char>)>,
    t: Seq<char>,
    ts: Seq<Seq<char>>,
    i: int,
    st: PassState,
)
    requires
        pass_ok(rows, st, ts),
        ts.contains(t),
        distinct_entry_ids(g),
        entries_of_type(rows, g, t),
        len_sorted(g),
        0 <= i <= g.len(),
        forall|a: int, y: int| 0 <= a < st.merges.len() && i <= y < g.len() ==> (#[trigger] st.merges[a]).canonical_id != (#[trigger] g[y]).0,
    ensures
        merge_group(g, t, i, st) matches Some(st2) && pass_ok(rows, st2, ts),
    decreases g.len() - i,
{
    lemma_merge_group_some(g, t, i, st);
    if i < g.len() {
        if st.merged.contains(g[i].0) {
            lemma_merge_group_ok(rows, g, t, ts, i + 1, st);
        } else {
            lemma_merge_later_ok(rows, g, t, ts, i, i + 1, st);
            let st2 = merge_later(g, t, i, i + 1, st).unwrap();
            lemma_merge_group_ok(rows, g, t, ts, i + 1, st2);
        }
    }
}

proof fn lemma_merge_types_ok(rows: Seq<EntityRow>, types: Seq<Seq<char>>, k: int)
    requires
        distinct_row_ids(rows),
        types.no_duplicates(),
        0 <= k <= types.len(),
    ensures
        merge_types(rows, types, k) matches Some(st) && pass_ok(rows, st, types.take(k)),
    decreases k,
{
    lemma_merge_types_some(rows, types, k);
    if k == 0 {
        let st = merge_types(rows, types, 0).unwrap();
        assert(st.merges.len() == 0);
    } else {
        lemma_merge_types_ok(rows, types, k - 1);
        let st = merge_types(rows, types, k - 1).unwrap();
        let t = types[k - 1];
        let ts = types.take(k);
        let g0 = group_of(rows, t, rows.len() as int);
        lemma_group_of(rows, t, rows.len() as int);
        lemma_sort_by_len(rows, g0, t);
        let g = sort_by_len(g0);
        assert(ts.contains(t)) by {
            assert(ts[k - 1] == t);
        }
        assert forall|a: int| 0 <= a < st.merges.len() implies sound_merge(rows, #[trigger] st.merges[a], ts) by {
            let m = st.merges[a];
            assert(sound_merge(rows, m, types.take(k - 1)));
            let u = choose|u: Seq<char>|
                #[trigger] types.take(k - 1).contains(u) && unresolved_below(rows, (m.alias_id, m.alias_name), u, rows.len() as int)
                    && unresolved_below(rows, (m.canonical_id, m.canonical_name), u, rows.len() as int) && names_merge(
                    m.canonical_name,
                    m.alias_name,
                    u,
                ) == Some(true);
            let w = choose|w: int| 0 <= w < k - 1 && #[trigger] types.take(k - 1)[w] == u;
            assert(ts[w] == u);
            assert(ts.contains(u));
        }
        assert forall|a: int, y: int| 0 <= a < st.merges.len() && 0 <= y < g.len() implies (#[trigger] st.merges[a]).canonical_id
            != (#[trigger] g[y]).0 by {
            let m = st.merges[a];
            assert(sound_merge(rows, m, types.take(k - 1)));
            let u = choose|u: Seq<char>|
                #[trigger] types.take(k - 1).contains(u) && unresolved_below(rows, (m.alias_id, m.alias_name), u, rows.len() as int)
                    && unresolved_below(rows, (m.canonical_id, m.canonical_name), u, rows.len() as int) && names_merge(
                    m.canonical_name,
                    m.alias_name,
                    u,
                ) == Some(true);
            let rc = choose|r: int|
                0 <= r < rows.len() && r < rows.len() && #[trigger] rows[r].id == m.canonical_id && rows[r].name
                    == m.canonical_name && rows[r].canonical_id is None && rows[r].entity_type == u;
            assert(unresolved_below(rows, g[y], t, rows.len() as int));
            let rg = choose|r: int|
                0 <= r < rows.len() && r < rows.len() && #[trigger] rows[r].id == g[y].0 && rows[r].name == g[y].1
                    && rows[r].canonical_id is None && rows[r].entity_type == t;
            if m.canonical_id == g[y].0 {
                if rc < rg {
                    assert(rows[rc].id != rows[rg].id);
                } else if rg < rc {
                    assert(rows[rg].id != rows[rc].id);
                }
                assert(u == t);
                let w = choose|w: int| 0 <= w < k - 1 && #[trigger] types.take(k - 1)[w] == u;
                assert(types[w] == types[k - 1]);
            }
        }
        lemma_merge_group_ok(rows, g, t, ts, 0, st);
    }
}

/// After a resolution pass, aliases are one level deep: no merge's
/// canonical entity is itself merged away, so every alias points at an
/// entity that stays unresolved. Each merge joins two entities that were
/// unresolved, of one type, whose names merge by that type's rule, and the
/// canonical name is at least as long as the alias. (The stored entities'
/// ids are distinct.)
pub proof fn resolution_one_level(rows: Seq<EntityRow>)
    requires
        distinct_row_ids(rows),
    ensures
        resolution_merges(rows) is Some,
        one_level(resolution_merges(rows).unwrap()),
        forall|a: int|
            0 <= a < resolution_merges(rows).unwrap().len() ==> sound_merge(
                rows,
                #[trigger] resolution_merges(rows).unwrap()[a],
                types_of(rows, rows.len() as int),
            ),
{
    let types = types_of(rows, rows.len() as int);
    lemma_types_distinct(rows, rows.len() as int);
    lemma_merge_types_ok(rows, types, types.len() as int);
    assert(types.take(types.len() as int) =~= types);
}


// ───────────────────────── the stored rows after a pass ─────────────────────────

/// The rows once the merge `m` is written to them: the alias, and every row
/// that pointed at the alias, now point at the canonical entity.
pub open spec fn with_canonical(rows: Seq<EntityRow>, m: MergeModel) -> Seq<EntityRow> {
    rows.map_values(
        |r: EntityRow|
            if r.id == m.alias_id || r.canonical_id == Some(m.alias_id) {
                EntityRow { id: r.id, name: r.name, entity_type: r.entity_type, canonical_id: Some(m.canonical_id) }
            } else {
                r
            },
    )
}

/// The rows once the first `k` merges are written to them, in order.
pub open spec fn merged_upto(rows: Seq<EntityRow>, ms: Seq<MergeModel>, k: int) -> Seq<EntityRow>
    decreases k,
{
    if k <= 0 {
        rows
    } else {
        with_canonical(merged_upto(rows, ms, k - 1), ms[k - 1])
    }
}

/// Some row has id `c` and points at no canonical entity.
pub open spec fn has_unresolved(rows: Seq<EntityRow>, c: i64) -> bool {
    exists|r: int| 0 <= r < rows.len() && (#[trigger] rows[r]).id == c && rows[r].canonical_id is None
}

/// Every row that points at a canonical entity points at a row that points
/// at none.
pub open spec fn rows_one_level(rows: Seq<EntityRow>) -> bool {
    forall|i: int|
        0 <= i < rows.len() && (#[trigger] rows[i]).canonical_id is Some ==> has_unresolved(
            rows,
            rows[i].canonical_id.unwrap(),
        )
}

proof fn lemma_merged_upto(rows: Seq<EntityRow>, ms: Seq<MergeModel>, k: int)
    requires
        0 <= k <= ms.len(),
        rows_one_level(rows),
        one_level(ms),
        forall|j: int| 0 <= j < ms.len() ==> has_unresolved(rows, (#[trigger] ms[j]).canonical_id),
    ensures
        merged_upto(rows, ms, k).len() == rows.len(),
        rows_one_level(merged_upto(rows, ms, k)),
        forall|j: int| k <= j < ms.len() ==> has_unresolved(merged_upto(rows, ms, k), (#[trigger] ms[j]).canonical_id),
    decreases k,
{
    if k > 0 {
        lemma_merged_upto(rows, ms, k - 1);
        let prev = merged_upto(rows, ms, k - 1);
        let m = ms[k - 1];
        let cur = merged_upto(rows, ms, k);
        assert(cur == with_canonical(prev, m));
        assert(m.canonical_id != m.alias_id) by {
            assert(ms[k - 1].canonical_id != ms[k - 1].alias_id);
        }
        // a row of `prev` that points at nothing and is not the alias stays as it is
        assert forall|c: i64| c != m.alias_id && #[trigger] has_unresolved(prev, c) implies has_unresolved(cur, c) by {
            let r = choose|r: int| 0 <= r < prev.len() && (#[trigger] prev[r]).id == c && prev[r].canonical_id is None;
            assert(cur[r] == prev[r]);
        }
        assert(has_unresolved(prev, m.canonical_id));
        assert(has_unresolved(cur, m.canonical_id));
        assert forall|i: int| 0 <= i < cur.len() && (#[trigger] cur[i]).canonical_id is Some implies has_unresolved(
            cur,
            cur[i].canonical_id.unwrap(),
        ) by {
            if prev[i].id == m.alias_id || prev[i].canonical_id == Some(m.alias_id) {
                assert(cur[i].canonical_id == Some(m.canonical_id));
            } else {
                assert(cur[i] == prev[i]);
                assert(has_unresolved(prev, prev[i].canonical_id.unwrap()));
            }
        }
        assert forall|j: int| k <= j < ms.len() implies has_unresolved(cur, (#[trigger] ms[j]).canonical_id) by {
            assert(ms[j].canonical_id != ms[k - 1].alias_id);
            assert(has_unresolved(prev, ms[j].canonical_id));
        }
    }
}

/// Writing a resolution pass's merges to the stored rows keeps them one
/// level deep: where every row that points at a canonical entity points at
/// a row that points at none, this still holds once each alias, and every
/// row that pointed at it, is made to point at its canonical entity. (The
/// stored entities' ids are distinct.)
pub proof fn resolution_keeps_rows_one_level(rows: Seq<EntityRow>)
    requires
        distinct_row_ids(rows),
        rows_one_level(rows),
    ensures
        resolution_merges(rows) is Some,
        rows_one_level(
            merged_upto(rows, resolution_merges(rows).unwrap(), resolution_merges(rows).unwrap().len() as int),
        ),
{
    resolution_one_level(rows);
    let ms = resolution_merges(rows).unwrap();
    let ts = types_of(rows, rows.len() as int);
    assert forall|j: int| 0 <= j < ms.len() implies has_unresolved(rows, (#[trigger] ms[j]).canonical_id) by {
        assert(sound_merge(rows, ms[j], ts));
        let t = choose|t: Seq<char>|
            #[trigger] ts.contains(t) && unresolved_below(rows, (ms[j].alias_id, ms[j].alias_name), t, rows.len() as int)
                && unresolved_below(rows, (ms[j].canonical_id, ms[j].canonical_name), t, rows.len() as int)
                && names_merge(ms[j].canonical_name, ms[j].alias_name, t) == Some(true);
        let r = choose|r: int|
            0 <= r < rows.len() && r < rows.len() && #[trigger] rows[r].id == ms[j].canonical_id && rows[r].name
                == ms[j].canonical_name && rows[r].canonical_id is None && rows[r].entity_type == t;
        assert(rows[r].id == ms[j].canonical_id);
    }
    lemma_merged_upto(rows, ms, ms.len() as int);
}

} // verus!
