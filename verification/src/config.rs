//! Per-database and global settings that hold no scores.
use vstd::prelude::*;
use crate::text::{chars_of, slice_chars, split_on, split_on_char, str_eq, string_of, trim, trim_chars, views};

verus! {

broadcast use vstd::string::group_string_axioms;

/// Which paths indexing skips.
pub struct IndexConfig {
    pub exclude_patterns: Vec<String>,
}

/// How queries are answered by default.
pub struct QueryConfig {
    pub default_format: String,
    pub default_limit: usize,
}

/// Whether answers are written by a language model.
pub struct LlmConfig {
    pub enabled: bool,
}

/// The settings shared by all databases.
pub struct GlobalConfig {
    pub default_db: String,
}

impl Default for GlobalConfig {
    fn default() -> (r: Self)
        ensures
            r.default_db@ == "default"@,
    {
        GlobalConfig { default_db: "default".to_string() }
    }
}

/// The texts of a list of strings.
pub open spec fn string_texts(v: Seq<String>) -> Seq<Seq<char>> {
    v.map_values(|s: String| s@)
}

impl IndexConfig {
    /// The paths skipped by default: dependency, build and VCS directories.
    pub fn default_excludes() -> (r: Self)
        ensures
            string_texts(r.exclude_patterns@) == seq![
                "node_modules"@,
                ".git"@,
                "target"@,
                "__pycache__"@,
                ".raggy"@,
            ],
    {
        let mut v: Vec<String> = Vec::new();
        v.push("node_modules".to_string());
        v.push(".git".to_string());
        v.push("target".to_string());
        v.push("__pycache__".to_string());
        v.push(".raggy".to_string());
        proof {
            assert(string_texts(v@) =~= seq![
                "node_modules"@,
                ".git"@,
                "target"@,
                "__pycache__"@,
                ".raggy"@,
            ]);
        }
        IndexConfig { exclude_patterns: v }
    }
}

impl QueryConfig {
    /// Human-readable output, ten results.
    pub fn standard() -> (r: Self)
        ensures
            r.default_format@ == "human"@,
            r.default_limit == 10,
    {
        QueryConfig { default_format: "human".to_string(), default_limit: 10 }
    }
}

/// The labels of a comma-separated list, each trimmed (`ner.labels`).
pub open spec fn label_list(value: Seq<char>) -> Seq<Seq<char>> {
    split_on(value, ',').map_values(|p: Seq<char>| trim(p))
}

/// The labels of a comma-separated list, each trimmed.
pub fn parse_labels(value: &str) -> (r: Vec<String>)
    ensures
        string_texts(r@) == label_list(value@),
{
    let parts = split_on_char(&chars_of(value), ',');
    let mut out: Vec<String> = Vec::new();
    let mut i: usize = 0;
    while i < parts.len()
        invariant
            i <= parts.len(),
            views(parts@) == split_on(value@, ','),
            string_texts(out@) == label_list(value@).take(i as int),
        decreases parts.len() - i,
    {
        proof {
            assert(views(parts@)[i as int] == parts@[i as int]@);
        }
        let ghost before = string_texts(out@);
        let t = string_of(&trim_chars(&parts[i]));
        out.push(t);
        proof {
            assert(string_texts(out@) =~= before.push(t@));
            assert(string_texts(out@) =~= label_list(value@).take(i + 1));
        }
        i += 1;
    }
    proof {
        assert(label_list(value@).take(parts.len() as int) =~= label_list(value@));
    }
    out
}


// ───────────────────────── `config set` ─────────────────────────

/// The value of a digit character.
pub open spec fn digit_value(c: char) -> int {
    c as int - '0' as int
}

/// A character is an ASCII digit.
pub open spec fn is_digit(c: char) -> bool {
    '0' <= c <= '9'
}

/// The number that a string of ASCII digits spells in base ten.
pub open spec fn digits_value(s: Seq<char>) -> int
    decreases s.len(),
{
    if s.len() == 0 {
        0
    } else {
        digits_value(s.drop_last()) * 10 + digit_value(s.last())
    }
}

/// Every character of `d` is an ASCII digit.
pub open spec fn all_digits(d: Seq<char>) -> bool {
    forall|i: int| 0 <= i < d.len() ==> is_digit(#[trigger] d[i])
}

/// The digits of an unsigned number as `str::parse` reads it: everything
/// after one optional leading `+`.
pub open spec fn unsigned_digits(s: Seq<char>) -> Seq<char> {
    if s.len() > 0 && s[0] == '+' {
        s.drop_first()
    } else {
        s
    }
}

/// The `usize` that `str::parse` reads from `s`: one or more ASCII digits
/// after an optional `+`, with no other character, and a value that fits.
pub open spec fn parsed_usize(s: Seq<char>) -> Option<usize> {
    let d = unsigned_digits(s);
    if d.len() > 0 && all_digits(d) && digits_value(d) <= usize::MAX {
        Some(digits_value(d) as usize)
    } else {
        None
    }
}

/// The `bool` that `str::parse` reads from `s`: exactly `true` or `false`.
pub open spec fn parsed_bool(s: Seq<char>) -> Option<bool> {
    if s == "true"@ {
        Some(true)
    } else if s == "false"@ {
        Some(false)
    } else {
        None
    }
}

proof fn lemma_digits_nonneg(s: Seq<char>)
    requires
        forall|i: int| 0 <= i < s.len() ==> is_digit(#[trigger] s[i]),
    ensures
        digits_value(s) >= 0,
    decreases s.len(),
{
    if s.len() > 0 {
        lemma_digits_nonneg(s.drop_last());
        assert(is_digit(s[s.len() - 1]));
    }
}

/// Reads a `usize` as `str::parse` does (see `parsed_usize`).
pub fn parse_usize(s: &str) -> (r: Option<usize>)
    ensures
        r == parsed_usize(s@),
{
    let c = chars_of(s);
    let ghost d = unsigned_digits(s@);
    let start: usize = if c.len() > 0 && c[0] == '+' {
        1
    } else {
        0
    };
    proof {
        assert(d =~= s@.skip(start as int));
    }
    if start == c.len() {
        return None;
    }
    let mut value: usize = 0;
    let mut i: usize = start;
    while i < c.len()
        invariant
            start <= i <= c.len(),
            c@ == s@,
            d == s@.skip(start as int),
            d == unsigned_digits(s@),
            forall|j: int| 0 <= j < i - start ==> is_digit(#[trigger] d[j]),
            value == digits_value(d.take(i - start)),
        decreases c.len() - i,
    {
        let ch = c[i];
        proof {
            assert(d[i - start] == ch);
        }
        if !('0' <= ch && ch <= '9') {
            proof {
                assert(!is_digit(d[i - start]));
                assert(!all_digits(d));
            }
            return None;
        }
        let dv: usize = (ch as u32 - '0' as u32) as usize;
        proof {
            assert(d.take(i - start + 1).drop_last() =~= d.take(i - start));
            assert(d.take(i - start + 1).last() == ch);
            assert(forall|j: int| 0 <= j < i - start + 1 ==> is_digit(#[trigger] d[j]));
            lemma_digits_nonneg(d.take(i - start + 1));
            assert forall|j: int| 0 <= j < i - start + 1 implies is_digit(#[trigger] d.take(i - start + 1)[j]) by {
                assert(d.take(i - start + 1)[j] == d[j]);
            }
        }
        match value.checked_mul(10) {
            None => {
                proof {
                    if all_digits(d) {
                        lemma_prefix_bound(d, i - start + 1);
                    }
                }
                return None;
            },
            Some(v10) => match v10.checked_add(dv) {
                None => {
                    proof {
                        if all_digits(d) {
                            lemma_prefix_bound(d, i - start + 1);
                        }
                    }
                    return None;
                },
                Some(v) => {
                    value = v;
                },
            },
        }
        i += 1;
    }
    proof {
        assert(d.take(d.len() as int) =~= d);
    }
    Some(value)
}

/// A longer run of digits never spells less than its prefix.
proof fn lemma_prefix_bound(d: Seq<char>, k: int)
    requires
        0 <= k <= d.len(),
        forall|j: int| 0 <= j < d.len() ==> is_digit(#[trigger] d[j]),
    ensures
        digits_value(d) >= digits_value(d.take(k)),
    decreases d.len() - k,
{
    if k < d.len() {
        lemma_prefix_bound(d, k + 1);
        assert(d.take(k + 1).drop_last() =~= d.take(k));
        assert(d.take(k + 1).last() == d[k]);
        assert(forall|j: int| 0 <= j < k ==> is_digit(#[trigger] d.take(k)[j]));
        lemma_digits_nonneg(d.take(k));
        assert(is_digit(d[k]));
    } else {
        assert(d.take(k) =~= d);
    }
}

/// Reads a `bool` as `str::parse` does (see `parsed_bool`).
pub fn parse_bool(s: &str) -> (r: Option<bool>)
    ensures
        r == parsed_bool(s@),
{
    if str_eq(s, "true") {
        Some(true)
    } else if str_eq(s, "false") {
        Some(false)
    } else {
        None
    }
}

/// A setting to store, as `config set` reads it. The scores (`embedding.alpha`,
/// `ner.threshold`) are kept as the text given, for the caller to read as
/// numbers.
pub enum Setting {
    DefaultFormat(String),
    DefaultLimit(usize),
    LlmEnabled(bool),
    EmbeddingEnabled(bool),
    EmbeddingModel(String),
    EmbeddingAlpha(String),
    NerEnabled(bool),
    NerModel(String),
    NerThreshold(String),
    NerLabels(Vec<String>),
}

/// Why a setting was refused.
#[derive(Debug, Clone, Copy, PartialEq, Eq, Structural)]
pub enum ConfigError {
    /// No setting has that key.
    UnknownKey,
    /// The value is not a whole number that fits.
    InvalidNumber,
    /// The value is neither `true` nor `false`.
    InvalidBool,
}

/// The mathematical value of a setting.
pub enum SettingModel {
    DefaultFormat(Seq<char>),
    DefaultLimit(usize),
    LlmEnabled(bool),
    EmbeddingEnabled(bool),
    EmbeddingModel(Seq<char>),
    EmbeddingAlpha(Seq<char>),
    NerEnabled(bool),
    NerModel(Seq<char>),
    NerThreshold(Seq<char>),
    NerLabels(Seq<Seq<char>>),
}

impl View for Setting {
    type V = SettingModel;

    open spec fn view(&self) -> SettingModel {
        match self {
            Setting::DefaultFormat(s) => SettingModel::DefaultFormat(s@),
            Setting::DefaultLimit(n) => SettingModel::DefaultLimit(*n),
            Setting::LlmEnabled(b) => SettingModel::LlmEnabled(*b),
            Setting::EmbeddingEnabled(b) => SettingModel::EmbeddingEnabled(*b),
            Setting::EmbeddingModel(s) => SettingModel::EmbeddingModel(s@),
            Setting::EmbeddingAlpha(s) => SettingModel::EmbeddingAlpha(s@),
            Setting::NerEnabled(b) => SettingModel::NerEnabled(*b),
            Setting::NerModel(s) => SettingModel::NerModel(s@),
            Setting::NerThreshold(s) => SettingModel::NerThreshold(s@),
            Setting::NerLabels(v) => SettingModel::NerLabels(string_texts(v@)),
        }
    }
}

/// A boolean setting, or the refusal of its value.
pub open spec fn bool_setting(value: Seq<char>, make: spec_fn(bool) -> SettingModel) -> Result<SettingModel, ConfigError> {
    match parsed_bool(value) {
        Some(b) => Ok(make(b)),
        None => Err(ConfigError::InvalidBool),
    }
}

/// What `config set key value` stores, or why it refuses: the key names
/// the setting; a whole-number setting needs a number that fits, a boolean
/// one `true` or `false`; `ner.labels` is split at commas and each label
/// trimmed. `index.exclude_patterns` cannot be set this way.
pub open spec fn setting_of(key: Seq<char>, value: Seq<char>) -> Result<SettingModel, ConfigError> {
    if key == "query.default_format"@ {
        Ok(SettingModel::DefaultFormat(value))
    } else if key == "query.default_limit"@ {
        match parsed_usize(value) {
            Some(n) => Ok(SettingModel::DefaultLimit(n)),
            None => Err(ConfigError::InvalidNumber),
        }
    } else if key == "llm.enabled"@ {
        bool_setting(value, |b: bool| SettingModel::LlmEnabled(b))
    } else if key == "embedding.enabled"@ {
        bool_setting(value, |b: bool| SettingModel::EmbeddingEnabled(b))
    } else if key == "embedding.model"@ {
        Ok(SettingModel::EmbeddingModel(value))
    } else if key == "embedding.alpha"@ {
        Ok(SettingModel::EmbeddingAlpha(value))
    } else if key == "ner.enabled"@ {
        bool_setting(value, |b: bool| SettingModel::NerEnabled(b))
    } else if key == "ner.model"@ {
        Ok(SettingModel::NerModel(value))
    } else if key == "ner.threshold"@ {
        Ok(SettingModel::NerThreshold(value))
    } else if key == "ner.labels"@ {
        Ok(SettingModel::NerLabels(label_list(value)))
    } else {
        Err(ConfigError::UnknownKey)
    }
}

/// The key a setting is stored under.
pub open spec fn setting_key(m: SettingModel) -> Seq<char> {
    match m {
        SettingModel::DefaultFormat(_) => "query.default_format"@,
        SettingModel::DefaultLimit(_) => "query.default_limit"@,
        SettingModel::LlmEnabled(_) => "llm.enabled"@,
        SettingModel::EmbeddingEnabled(_) => "embedding.enabled"@,
        SettingModel::EmbeddingModel(_) => "embedding.model"@,
        SettingModel::EmbeddingAlpha(_) => "embedding.alpha"@,
        SettingModel::NerEnabled(_) => "ner.enabled"@,
        SettingModel::NerModel(_) => "ner.model"@,
        SettingModel::NerThreshold(_) => "ner.threshold"@,
        SettingModel::NerLabels(_) => "ner.labels"@,
    }
}

/// The keys `config set` knows.
pub open spec fn settable_key(k: Seq<char>) -> bool {
    ||| k == "query.default_format"@
    ||| k == "query.default_limit"@
    ||| k == "llm.enabled"@
    ||| k == "embedding.enabled"@
    ||| k == "embedding.model"@
    ||| k == "embedding.alpha"@
    ||| k == "ner.enabled"@
    ||| k == "ner.model"@
    ||| k == "ner.threshold"@
    ||| k == "ner.labels"@
}

/// The keys whose value must be `true` or `false`.
pub open spec fn bool_key(k: Seq<char>) -> bool {
    k == "llm.enabled"@ || k == "embedding.enabled"@ || k == "ner.enabled"@
}

/// The keys whose value is stored as the text given.
pub open spec fn text_key(k: Seq<char>) -> bool {
    ||| k == "query.default_format"@
    ||| k == "embedding.model"@
    ||| k == "embedding.alpha"@
    ||| k == "ner.model"@
    ||| k == "ner.threshold"@
}

/// The text a text setting holds.
pub open spec fn setting_text(m: SettingModel) -> Option<Seq<char>> {
    match m {
        SettingModel::DefaultFormat(v) => Some(v),
        SettingModel::EmbeddingModel(v) => Some(v),
        SettingModel::EmbeddingAlpha(v) => Some(v),
        SettingModel::NerModel(v) => Some(v),
        SettingModel::NerThreshold(v) => Some(v),
        _ => None,
    }
}

/// `config set` refuses exactly an unknown key, a whole-number setting whose
/// value is not a number that fits, and a boolean one whose value is neither
/// `true` nor `false`. Otherwise it sets the one setting the key names, and a
/// text setting takes the value exactly as given (so reading the key back
/// gives the value).
pub proof fn config_set_law(key: Seq<char>, value: Seq<char>)
    ensures
        (setting_of(key, value) == Err::<SettingModel, ConfigError>(ConfigError::UnknownKey)) <==> !settable_key(key),
        (setting_of(key, value) == Err::<SettingModel, ConfigError>(ConfigError::InvalidNumber)) <==> (key
            == "query.default_limit"@ && parsed_usize(value) is None),
        (setting_of(key, value) == Err::<SettingModel, ConfigError>(ConfigError::InvalidBool)) <==> (bool_key(key)
            && parsed_bool(value) is None),
        setting_of(key, value) matches Ok(m) ==> setting_key(m) == key,
        text_key(key) ==> (setting_of(key, value) matches Ok(m) && setting_text(m) == Some(value)),
{
    reveal_strlit("query.default_format");
    reveal_strlit("query.default_limit");
    reveal_strlit("llm.enabled");
    reveal_strlit("embedding.enabled");
    reveal_strlit("embedding.model");
    reveal_strlit("embedding.alpha");
    reveal_strlit("ner.enabled");
    reveal_strlit("ner.model");
    reveal_strlit("ner.threshold");
    reveal_strlit("ner.labels");
    assert("query.default_format"@.len() == 20);
    assert("query.default_limit"@.len() == 19);
    assert("llm.enabled"@.len() == 11);
    assert("embedding.enabled"@.len() == 17);
    assert("embedding.model"@.len() == 15);
    assert("embedding.alpha"@.len() == 15);
    assert("ner.enabled"@.len() == 11);
    assert("ner.model"@.len() == 9);
    assert("ner.threshold"@.len() == 13);
    assert("ner.labels"@.len() == 10);
    assert("llm.enabled"@[0] != "ner.enabled"@[0]);
    assert("embedding.model"@[10] != "embedding.alpha"@[10]);
    assert("llm.enabled"@ != "ner.enabled"@);
    assert("embedding.model"@ != "embedding.alpha"@);
    if key == "query.default_limit"@ {
        assert(!bool_key(key));
    } else if key == "llm.enabled"@ {
        assert(bool_setting(value, |b: bool| SettingModel::LlmEnabled(b)) == setting_of(key, value));
    } else if key == "embedding.enabled"@ {
        assert(bool_setting(value, |b: bool| SettingModel::EmbeddingEnabled(b)) == setting_of(key, value));
    } else if key == "ner.enabled"@ {
        assert(bool_setting(value, |b: bool| SettingModel::NerEnabled(b)) == setting_of(key, value));
    } else {
        assert(!bool_key(key));
        assert(!(setting_of(key, value) == Err::<SettingModel, ConfigError>(ConfigError::InvalidBool)));
        assert(!(setting_of(key, value) == Err::<SettingModel, ConfigError>(ConfigError::InvalidNumber)));
    }
}

/// A setting read from text matches its model, and a refusal is the same
/// refusal.
pub open spec fn read_as(r: Result<Setting, ConfigError>, want: Result<SettingModel, ConfigError>) -> bool {
    match want {
        Ok(m) => r matches Ok(st) && st@ == m,
        Err(e) => r matches Err(e2) && e2 == e,
    }
}

fn bool_or(value: &str) -> (r: Result<bool, ConfigError>)
    ensures
        match parsed_bool(value@) {
            Some(b) => r == Ok::<bool, ConfigError>(b),
            None => r == Err::<bool, ConfigError>(ConfigError::InvalidBool),
        },
{
    match parse_bool(value) {
        Some(b) => Ok(b),
        None => Err(ConfigError::InvalidBool),
    }
}

/// Reads `config set key value` (see `setting_of`).
pub fn parse_setting(key: &str, value: &str) -> (r: Result<Setting, ConfigError>)
    ensures
        read_as(r, setting_of(key@, value@)),
{
    if str_eq(key, "query.default_format") {
        Ok(Setting::DefaultFormat(value.to_string()))
    } else if str_eq(key, "query.default_limit") {
        match parse_usize(value) {
            Some(n) => Ok(Setting::DefaultLimit(n)),
            None => Err(ConfigError::InvalidNumber),
        }
    } else if str_eq(key, "llm.enabled") {
        match bool_or(value) {
            Ok(b) => Ok(Setting::LlmEnabled(b)),
            Err(e) => Err(e),
        }
    } else if str_eq(key, "embedding.enabled") {
        match bool_or(value) {
            Ok(b) => Ok(Setting::EmbeddingEnabled(b)),
            Err(e) => Err(e),
        }
    } else if str_eq(key, "embedding.model") {
        Ok(Setting::EmbeddingModel(value.to_string()))
    } else if str_eq(key, "embedding.alpha") {
        Ok(Setting::EmbeddingAlpha(value.to_string()))
    } else if str_eq(key, "ner.enabled") {
        match bool_or(value) {
            Ok(b) => Ok(Setting::NerEnabled(b)),
            Err(e) => Err(e),
        }
    } else if str_eq(key, "ner.model") {
        Ok(Setting::NerModel(value.to_string()))
    } else if str_eq(key, "ner.threshold") {
        Ok(Setting::NerThreshold(value.to_string()))
    } else if str_eq(key, "ner.labels") {
        Ok(Setting::NerLabels(parse_labels(value)))
    } else {
        Err(ConfigError::UnknownKey)
    }
}


// ───────────────────────── the settings `config set` changes ─────────────────────────

/// The settings of a database that `config set` changes and that hold no
/// score; the two scores (`embedding.alpha`, `ner.threshold`) are floating
/// point and kept by the program, which `set` hands their text to.
pub struct Settings {
    pub default_format: String,
    pub default_limit: usize,
    pub llm_enabled: bool,
    pub embedding_enabled: bool,
    pub embedding_model: String,
    pub ner_enabled: bool,
    pub ner_model: String,
    pub ner_labels: Vec<String>,
}

/// The mathematical value of the settings.
pub ghost struct SettingsModel {
    pub default_format: Seq<char>,
    pub default_limit: usize,
    pub llm_enabled: bool,
    pub embedding_enabled: bool,
    pub embedding_model: Seq<char>,
    pub ner_enabled: bool,
    pub ner_model: Seq<char>,
    pub ner_labels: Seq<Seq<char>>,
}

impl View for Settings {
    type V = SettingsModel;

    open spec fn view(&self) -> SettingsModel {
        SettingsModel {
            default_format: self.default_format@,
            default_limit: self.default_limit,
            llm_enabled: self.llm_enabled,
            embedding_enabled: self.embedding_enabled,
            embedding_model: self.embedding_model@,
            ner_enabled: self.ner_enabled,
            ner_model: self.ner_model@,
            ner_labels: string_texts(self.ner_labels@),
        }
    }
}

/// Whether a setting is one of the two scores.
pub open spec fn is_score(m: SettingModel) -> bool {
    m is EmbeddingAlpha || m is NerThreshold
}

/// The settings with `m` stored; a score leaves them as they are.
pub open spec fn with_setting(s: SettingsModel, m: SettingModel) -> SettingsModel {
    match m {
        SettingModel::DefaultFormat(v) => SettingsModel { default_format: v, ..s },
        SettingModel::DefaultLimit(n) => SettingsModel { default_limit: n, ..s },
        SettingModel::LlmEnabled(b) => SettingsModel { llm_enabled: b, ..s },
        SettingModel::EmbeddingEnabled(b) => SettingsModel { embedding_enabled: b, ..s },
        SettingModel::EmbeddingModel(v) => SettingsModel { embedding_model: v, ..s },
        SettingModel::NerEnabled(b) => SettingsModel { ner_enabled: b, ..s },
        SettingModel::NerModel(v) => SettingsModel { ner_model: v, ..s },
        SettingModel::NerLabels(v) => SettingsModel { ner_labels: v, ..s },
        _ => s,
    }
}

/// What the settings hold under `key`, read back as a setting; `None` for a
/// score (kept by the program) and for a key `config set` does not know.
pub open spec fn stored(s: SettingsModel, key: Seq<char>) -> Option<SettingModel> {
    if key == "query.default_format"@ {
        Some(SettingModel::DefaultFormat(s.default_format))
    } else if key == "query.default_limit"@ {
        Some(SettingModel::DefaultLimit(s.default_limit))
    } else if key == "llm.enabled"@ {
        Some(SettingModel::LlmEnabled(s.llm_enabled))
    } else if key == "embedding.enabled"@ {
        Some(SettingModel::EmbeddingEnabled(s.embedding_enabled))
    } else if key == "embedding.model"@ {
        Some(SettingModel::EmbeddingModel(s.embedding_model))
    } else if key == "ner.enabled"@ {
        Some(SettingModel::NerEnabled(s.ner_enabled))
    } else if key == "ner.model"@ {
        Some(SettingModel::NerModel(s.ner_model))
    } else if key == "ner.labels"@ {
        Some(SettingModel::NerLabels(s.ner_labels))
    } else {
        None
    }
}

impl Settings {
    /// Stores a setting that holds no score and hands back a score setting
    /// untouched, for the program to read as a number.
    fn store(&mut self, st: Setting) -> (score: Option<Setting>)
        ensures
            final(self)@ == with_setting(old(self)@, st@),
            is_score(st@) ==> (score matches Some(sc) && sc@ == st@),
            !is_score(st@) ==> score is None,
    {
        match st {
            Setting::DefaultFormat(v) => {
                self.default_format = v;
                None
            },
            Setting::DefaultLimit(n) => {
                self.default_limit = n;
                None
            },
            Setting::LlmEnabled(b) => {
                self.llm_enabled = b;
                None
            },
            Setting::EmbeddingEnabled(b) => {
                self.embedding_enabled = b;
                None
            },
            Setting::EmbeddingModel(v) => {
                self.embedding_model = v;
                None
            },
            Setting::NerEnabled(b) => {
                self.ner_enabled = b;
                None
            },
            Setting::NerModel(v) => {
                self.ner_model = v;
                None
            },
            Setting::NerLabels(v) => {
                self.ner_labels = v;
                None
            },
            Setting::EmbeddingAlpha(v) => Some(Setting::EmbeddingAlpha(v)),
            Setting::NerThreshold(v) => Some(Setting::NerThreshold(v)),
        }
    }

    /// `config set key value`: refuses as `setting_of` says, leaving the
    /// settings as they were; otherwise stores the setting the key names.
    /// A score is handed back as the text given, for the program to read.
    pub fn set(&mut self, key: &str, value: &str) -> (r: Result<Option<Setting>, ConfigError>)
        ensures
            match setting_of(key@, value@) {
                Err(e) => r == Err::<Option<Setting>, ConfigError>(e) && final(self)@ == old(self)@,
                Ok(m) => r matches Ok(score) && final(self)@ == with_setting(old(self)@, m) && (is_score(m)
                    ==> (score matches Some(sc) && sc@ == m)) && (!is_score(m) ==> score is None),
            },
    {
        match parse_setting(key, value) {
            Ok(st) => Ok(self.store(st)),
            Err(e) => Err(e),
        }
    }
}

/// What `config set` does to the settings: it refuses exactly as
/// `config_set_law` says, changing nothing; otherwise the key reads back as
/// the setting just stored (a score is kept by the program), and every other
/// key reads back as before.
pub proof fn settings_set_law(s: SettingsModel, key: Seq<char>, value: Seq<char>)
    ensures
        setting_of(key, value) matches Ok(m) ==> stored(with_setting(s, m), key) == (if is_score(m) {
            None
        } else {
            Some(m)
        }),
        setting_of(key, value) matches Ok(m) ==> forall|other: Seq<char>|
            other != key ==> #[trigger] stored(with_setting(s, m), other) == stored(s, other),
{
    config_set_law(key, value);
    reveal_strlit("query.default_format");
    reveal_strlit("query.default_limit");
    reveal_strlit("llm.enabled");
    reveal_strlit("embedding.enabled");
    reveal_strlit("embedding.model");
    reveal_strlit("embedding.alpha");
    reveal_strlit("ner.enabled");
    reveal_strlit("ner.model");
    reveal_strlit("ner.threshold");
    reveal_strlit("ner.labels");
    assert("query.default_format"@.len() == 20);
    assert("query.default_limit"@.len() == 19);
    assert("llm.enabled"@.len() == 11);
    assert("embedding.enabled"@.len() == 17);
    assert("embedding.model"@.len() == 15);
    assert("embedding.alpha"@.len() == 15);
    assert("ner.enabled"@.len() == 11);
    assert("ner.model"@.len() == 9);
    assert("ner.threshold"@.len() == 13);
    assert("ner.labels"@.len() == 10);
    assert("llm.enabled"@[0] != "ner.enabled"@[0]);
    assert("embedding.model"@[10] != "embedding.alpha"@[10]);
    assert("llm.enabled"@ != "ner.enabled"@);
    assert("embedding.model"@ != "embedding.alpha"@);
}

// ───────────────────────── `index --meta key=value` ─────────────────────────

/// The position of the first `c` in `s`, if any.
pub open spec fn first_index_of(s: Seq<char>, c: char) -> Option<int> {
    if exists|i: int| 0 <= i < s.len() && s[i] == c {
        Some(choose|i: int| 0 <= i < s.len() && s[i] == c && forall|j: int| 0 <= j < i ==> s[j] != c)
    } else {
        None
    }
}

/// A `key=value` pair as given on the command line: split at the first
/// `=`; `None` where there is none.
pub open spec fn meta_pair_of(m: Seq<char>) -> Option<(Seq<char>, Seq<char>)> {
    match first_index_of(m, '=') {
        Some(i) => Some((m.take(i), m.skip(i + 1))),
        None => None,
    }
}

/// Reads a `key=value` metadata pair (see `meta_pair_of`).
pub fn meta_pair(m: &str) -> (r: Option<(String, String)>)
    ensures
        match meta_pair_of(m@) {
            Some(p) => r matches Some(q) && q.0@ == p.0 && q.1@ == p.1,
            None => r is None,
        },
{
    let c = chars_of(m);
    let mut i: usize = 0;
    while i < c.len() && c[i] != '='
        invariant
            i <= c.len(),
            c@ == m@,
            forall|j: int| 0 <= j < i ==> m@[j] != '=',
        decreases c.len() - i,
    {
        i += 1;
    }
    if i == c.len() {
        return None;
    }
    proof {
        assert(m@[i as int] == '=');
        let k = first_index_of(m@, '=').unwrap();
        if k < i {
        } else if k > i {
        }
        assert(k == i);
    }
    let key = string_of(&slice_chars(&c, 0, i));
    let value = string_of(&slice_chars(&c, i + 1, c.len()));
    proof {
        assert(key@ =~= m@.take(i as int));
        assert(value@ =~= m@.skip(i + 1));
    }
    Some((key, value))
}

} // verus!
