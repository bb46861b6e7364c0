//! The integer side of span-based entity recognition: splitting text into
//! words, laying out the model's prompt and candidate spans, and choosing
//! non-overlapping spans among those the model scores highly.
use vstd::prelude::*;
use crate::entity::regex::{find_spans, regex_spans, span_text, word_pattern};
use crate::index::embedder::{encode, tokenizes};
use crate::text::{char_index_of_byte, chars_of, slice_chars, string_of};

verus! {

broadcast use vstd::string::group_string_axioms;

/// The widest span, in words, that is scored.
pub const MAX_WIDTH: usize = 12;

/// The id that opens the prompt.
pub const BOS_ID: i64 = 1;

/// The id that closes the prompt.
pub const EOS_ID: i64 = 2;

// ───────────────────────── words ─────────────────────────

/// A word of the text and its byte span.
pub struct WordToken {
    pub text: String,
    pub start: usize,
    pub end: usize,
}

/// The mathematical value of a word.
pub ghost struct WordModel {
    pub text: Seq<char>,
    pub start: int,
    pub end: int,
}

impl View for WordToken {
    type V = WordModel;

    open spec fn view(&self) -> WordModel {
        WordModel { text: self.text@, start: self.start as int, end: self.end as int }
    }
}

/// The views of a list of words.
pub open spec fn word_views(v: Seq<WordToken>) -> Seq<WordModel> {
    v.map_values(|w: WordToken| w@)
}

/// The words of a text: each match of the word pattern, with its byte span.
pub open spec fn text_words(text: Seq<char>) -> Seq<WordModel> {
    regex_spans(word_pattern(), text).map_values(
        |sp: (usize, usize)| WordModel { text: span_text(text, sp), start: sp.0 as int, end: sp.1 as int },
    )
}

/// Splits text into words (runs of word characters, possibly joined by `-`
/// or `_`) and single other non-space characters, with their byte spans.
pub fn word_tokenize(text: &str) -> (r: Vec<WordToken>)
    ensures
        word_views(r@) == text_words(text@),
{
    let cs = chars_of(text);
    let spans = find_spans(r"\w+(?:[-_]\w+)*|\S", text);
    let mut out: Vec<WordToken> = Vec::new();
    let mut i: usize = 0;
    while i < spans.len()
        invariant
            i <= spans.len(),
            cs@ == text@,
            spans@ == regex_spans(word_pattern(), text@),
            forall|k: int|
                0 <= k < spans.len() ==> (#[trigger] spans@[k]).0 <= spans@[k].1
                    && crate::text::char_index_at_byte(text@, spans@[k].0 as int) is Some
                    && crate::text::char_index_at_byte(text@, spans@[k].1 as int) is Some,
            word_views(out@) == text_words(text@).take(i as int),
        decreases spans.len() - i,
    {
        let (s, e) = spans[i];
        proof {
            assert(spans@[i as int] == (s, e));
            crate::ingest::plaintext::lemma_char_index_at_byte(text@, s as int);
            crate::ingest::plaintext::lemma_char_index_at_byte(text@, e as int);
        }
        let a = char_index_of_byte(&cs, s);
        let b = char_index_of_byte(&cs, e);
        match (a, b) {
            (Some(a), Some(b)) => {
                proof {
                    if b < a {
                        crate::text::lemma_byte_len_mono(text@, b as int, a as int);
                    }
                }
                let w = WordToken { text: string_of(&slice_chars(&cs, a, b)), start: s, end: e };
                let ghost before = word_views(out@);
                out.push(w);
                proof {
                    assert(word_views(out@) =~= before.push(w@));
                    assert(text_words(text@).take(i + 1) =~= text_words(text@).take(i as int).push(w@));
                }
            },
            _ => {},
        }
        i += 1;
    }
    proof {
        assert(text_words(text@).take(spans.len() as int) =~= text_words(text@));
    }
    out
}

// ───────────────────────── the prompt ─────────────────────────

/// `n` zeros.
pub open spec fn zeros(n: nat) -> Seq<i64> {
    Seq::new(n, |i: int| 0i64)
}

/// The label part of the prompt for the first `k` labels: each label's
/// tokens after an entity marker.
pub open spec fn label_part(labels: Seq<Seq<i64>>, ent: i64, k: int) -> Seq<i64>
    decreases k,
{
    if k <= 0 {
        Seq::empty()
    } else {
        label_part(labels, ent, k - 1) + seq![ent] + labels[k - 1]
    }
}

/// The tokens of the first `k` words, in order.
pub open spec fn word_part(words: Seq<Seq<i64>>, k: int) -> Seq<i64>
    decreases k,
{
    if k <= 0 {
        Seq::empty()
    } else {
        word_part(words, k - 1) + words[k - 1]
    }
}

/// The word marks of the first `k` words: the first token of word `j`
/// (counted from 1) is marked `j`, its other tokens 0.
pub open spec fn word_marks(words: Seq<Seq<i64>>, k: int) -> Seq<i64>
    decreases k,
{
    if k <= 0 {
        Seq::empty()
    } else {
        let w = words[k - 1];
        word_marks(words, k - 1) + if w.len() > 0 {
            seq![k as i64] + zeros((w.len() - 1) as nat)
        } else {
            Seq::empty()
        }
    }
}

/// The token ids of a prompt: the start id, each label after an entity
/// marker, the separator, the words' tokens, the end id.
pub open spec fn prompt_ids(labels: Seq<Seq<i64>>, words: Seq<Seq<i64>>, ent: i64, sep: i64) -> Seq<i64> {
    seq![BOS_ID] + label_part(labels, ent, labels.len() as int) + seq![sep] + word_part(
        words,
        words.len() as int,
    ) + seq![EOS_ID]
}

/// The word marks of a prompt: zero everywhere but on the first token of
/// each word.
pub open spec fn prompt_word_marks(labels: Seq<Seq<i64>>, words: Seq<Seq<i64>>, ent: i64) -> Seq<i64> {
    zeros((1 + label_part(labels, ent, labels.len() as int).len() + 1) as nat) + word_marks(
        words,
        words.len() as int,
    ) + seq![0i64]
}

/// A prompt: token ids, attention mask (all ones) and word marks.
pub struct Prompt {
    pub ids: Vec<i64>,
    pub mask: Vec<i64>,
    pub words_mask: Vec<i64>,
}

/// The vocabulary a loaded tokenizer holds: each token it knows (its added
/// tokens, then its model's) and the token's id.
pub uninterp spec fn vocabulary(tok: tokenizers::Tokenizer) -> Map<Seq<char>, u32>;

/// `Tokenizer::token_to_id` of the `tokenizers` crate: the id of a token of
/// the loaded vocabulary, `None` where it has no such token. Trusted: the
/// lookup reads the tokenizer's added tokens and then its model's
/// vocabulary, both fixed once the tokenizer is loaded; the contract names
/// that map `vocabulary` and states the lookup in it. Which ids the
/// vocabulary holds is not visible here.
#[verifier::external_body]
pub(crate) fn token_id(tok: &tokenizers::Tokenizer, token: &str) -> (r: Option<u32>)
    ensures
        r == (if vocabulary(*tok).dom().contains(token@) {
            Some(vocabulary(*tok)[token@])
        } else {
            None
        }),
{
    tok.token_to_id(token)
}

/// The id of a marker token, 0 where the vocabulary lacks it.
pub open spec fn marker_of(tok: tokenizers::Tokenizer, token: Seq<char>) -> i64 {
    if vocabulary(tok).dom().contains(token) {
        vocabulary(tok)[token] as i64
    } else {
        0
    }
}

/// The id of a marker token, 0 where the vocabulary lacks it.
fn marker_id(tok: &tokenizers::Tokenizer, token: &str) -> (r: i64)
    ensures
        r == marker_of(*tok, token@),
        0 <= r <= u32::MAX,
{
    match token_id(tok, token) {
        Some(id) => id as i64,
        None => 0,
    }
}

/// Token ids widened from the tokenizer's `u32` to the model's `i64`.
pub open spec fn widened(ids: Seq<u32>) -> Seq<i64> {
    ids.map_values(|x: u32| x as i64)
}

/// `v` is the widened ids of a tokenization by `tok` of `text` without the
/// special tokens.
pub open spec fn pieces_of(tok: tokenizers::Tokenizer, text: Seq<char>, v: Seq<i64>) -> bool {
    exists|ids: Seq<u32>, mask: Seq<u32>, types: Seq<u32>|
        #[trigger] tokenizes(tok, text, false, ids, mask, types) && v == widened(ids)
}

/// Every id lies in the range of the tokenizer's `u32` ids.
pub open spec fn u32_ids(v: Seq<i64>) -> bool {
    forall|i: int| 0 <= i < v.len() ==> 0 <= #[trigger] v[i] <= u32::MAX
}

/// The sub-token ids of one piece of text, without special tokens, each
/// widened from the tokenizer's `u32`; `None` where the tokenizer fails.
/// Which ids the tokenizer hands back is not stated (it may depend on
/// chance, as with BPE dropout), only that they are its `u32` ids.
fn piece_ids(tok: &tokenizers::Tokenizer, text: &str) -> (r: Option<Vec<i64>>)
    ensures
        r matches Some(v) ==> u32_ids(v@) && pieces_of(*tok, text@, v@),
{
    match encode(tok, text, false) {
        Some(e) => {
            let mut out: Vec<i64> = Vec::new();
            let mut i: usize = 0;
            while i < e.ids.len()
                invariant
                    i <= e.ids.len(),
                    out.len() == i,
                    forall|j: int| 0 <= j < i ==> #[trigger] out@[j] == e.ids@[j] as i64,
                decreases e.ids.len() - i,
            {
                out.push(e.ids[i] as i64);
                i += 1;
            }
            proof {
                assert(out@ =~= widened(e.ids@));
                assert(tokenizes(*tok, text@, false, e.ids@, e.mask@, e.types@));
            }
            Some(out)
        },
        None => None,
    }
}

/// The prompt of the entity model for the given labels and words: each
/// label and each word tokenized on its own, laid out by `build_prompt`
/// between the `<<ENT>>` and `<<SEP>>` markers (their ids in the
/// vocabulary). Each piece is a tokenization of its label or word without
/// special tokens (`pieces_of`); which ids the tokenizer gives is its own.
/// `None` where the tokenizer fails or there are too many words.
pub fn gliner_prompt(tok: &tokenizers::Tokenizer, labels: &Vec<String>, words: &Vec<WordToken>) -> (r: Option<Prompt>)
    ensures
        r matches Some(p) ==> exists|l: Seq<Seq<i64>>, w: Seq<Seq<i64>>|
            l.len() == labels.len() && w.len() == words.len() && (forall|i: int|
                0 <= i < l.len() ==> u32_ids(#[trigger] l[i]) && pieces_of(*tok, labels@[i]@, l[i])) && (forall|i: int|
                0 <= i < w.len() ==> u32_ids(#[trigger] w[i]) && pieces_of(*tok, words@[i].text@, w[i]))
                && p.ids@ == prompt_ids(l, w, marker_of(*tok, "<<ENT>>"@), marker_of(*tok, "<<SEP>>"@))
                && p.words_mask@ == prompt_word_marks(l, w, marker_of(*tok, "<<ENT>>"@)),
        words.len() >= i64::MAX ==> r is None,
        labels.len() == 0 && words.len() == 0 ==> r is Some,
{
    let ent = marker_id(tok, "<<ENT>>");
    let sep = marker_id(tok, "<<SEP>>");
    let mut lids: Vec<Vec<i64>> = Vec::new();
    let mut i: usize = 0;
    while i < labels.len()
        invariant
            i <= labels.len(),
            lids.len() == i,
            forall|j: int| 0 <= j < i ==> u32_ids(#[trigger] lids@[j]@) && pieces_of(*tok, labels@[j]@, lids@[j]@),
        decreases labels.len() - i,
    {
        match piece_ids(tok, labels[i].as_str()) {
            Some(v) => lids.push(v),
            None => {
                return None;
            },
        }
        i += 1;
    }
    let mut wids: Vec<Vec<i64>> = Vec::new();
    let mut k: usize = 0;
    while k < words.len()
        invariant
            k <= words.len(),
            wids.len() == k,
            forall|j: int| 0 <= j < k ==> u32_ids(#[trigger] wids@[j]@) && pieces_of(
                *tok,
                words@[j].text@,
                wids@[j]@,
            ),
        decreases words.len() - k,
    {
        match piece_ids(tok, words[k].text.as_str()) {
            Some(v) => wids.push(v),
            None => {
                return None;
            },
        }
        k += 1;
    }
    if wids.len() as u64 >= i64::MAX as u64 {
        return None;
    }
    let p = build_prompt(&lids, &wids, ent, sep);
    proof {
        let l = lids@.map_values(|x: Vec<i64>| x@);
        let w = wids@.map_values(|x: Vec<i64>| x@);
        assert forall|i: int| 0 <= i < l.len() implies u32_ids(#[trigger] l[i]) && pieces_of(
            *tok,
            labels@[i]@,
            l[i],
        ) by {
            assert(l[i] == lids@[i]@);
        }
        assert forall|i: int| 0 <= i < w.len() implies u32_ids(#[trigger] w[i]) && pieces_of(
            *tok,
            words@[i].text@,
            w[i],
        ) by {
            assert(w[i] == wids@[i]@);
        }
        assert(l.len() == labels.len() && w.len() == words.len() && p.ids@ == prompt_ids(l, w, ent, sep)
            && p.words_mask@ == prompt_word_marks(l, w, ent));
    }
    Some(p)
}

proof fn lemma_word_marks_len(words: Seq<Seq<i64>>, k: int)
    requires
        0 <= k <= words.len(),
    ensures
        word_marks(words, k).len() == word_part(words, k).len(),
    decreases k,
{
    if k > 0 {
        lemma_word_marks_len(words, k - 1);
    }
}

/// Lays out the prompt for labels and words already split into token ids.
pub fn build_prompt(labels: &Vec<Vec<i64>>, words: &Vec<Vec<i64>>, ent: i64, sep: i64) -> (r: Prompt)
    requires
        words.len() < i64::MAX,
    ensures
        r.ids@ == prompt_ids(labels@.map_values(|l: Vec<i64>| l@), words@.map_values(|w: Vec<i64>| w@), ent, sep),
        r.words_mask@ == prompt_word_marks(
            labels@.map_values(|l: Vec<i64>| l@),
            words@.map_values(|w: Vec<i64>| w@),
            ent,
        ),
        r.mask@.len() == r.ids@.len(),
        forall|i: int| 0 <= i < r.mask@.len() ==> #[trigger] r.mask@[i] == 1,
{
    let ghost lv = labels@.map_values(|l: Vec<i64>| l@);
    let ghost wv = words@.map_values(|w: Vec<i64>| w@);
    let mut ids: Vec<i64> = Vec::new();
    let mut marks: Vec<i64> = Vec::new();
    ids.push(BOS_ID);
    marks.push(0);
    let mut k: usize = 0;
    while k < labels.len()
        invariant
            k <= labels.len(),
            lv == labels@.map_values(|l: Vec<i64>| l@),
            ids@ == seq![BOS_ID] + label_part(lv, ent, k as int),
            marks@ == zeros(ids@.len()),
        decreases labels.len() - k,
    {
        ids.push(ent);
        marks.push(0);
        let mut t: usize = 0;
        let ghost base = ids@;
        while t < labels[k].len()
            invariant
                k < labels.len(),
                t <= labels@[k as int].len(),
                ids@ == base + labels@[k as int]@.take(t as int),
                marks@ == zeros(ids@.len()),
            decreases labels@[k as int].len() - t,
        {
            ids.push(labels[k][t]);
            marks.push(0);
            proof {
                assert(ids@ =~= base + labels@[k as int]@.take(t + 1));
                assert(marks@ =~= zeros(ids@.len()));
            }
            t += 1;
        }
        proof {
            assert(labels@[k as int]@.take(labels@[k as int].len() as int) =~= lv[k as int]);
            assert(ids@ =~= seq![BOS_ID] + label_part(lv, ent, k + 1));
        }
        k += 1;
    }
    ids.push(sep);
    marks.push(0);
    proof {
        assert(marks@ =~= zeros((1 + label_part(lv, ent, lv.len() as int).len() + 1) as nat));
    }
    let ghost head_ids = ids@;
    let ghost head_marks = marks@;
    let mut w: usize = 0;
    while w < words.len()
        invariant
            w <= words.len() < i64::MAX,
            wv == words@.map_values(|x: Vec<i64>| x@),
            ids@ == head_ids + word_part(wv, w as int),
            marks@ == head_marks + word_marks(wv, w as int),
        decreases words.len() - w,
    {
        let ghost bi = ids@;
        let ghost bm = marks@;
        let mut t: usize = 0;
        while t < words[w].len()
            invariant
                w < words.len() < i64::MAX,
                t <= words@[w as int].len(),
                ids@ == bi + words@[w as int]@.take(t as int),
                marks@ == bm + if t == 0 {
                    Seq::<i64>::empty()
                } else {
                    seq![(w + 1) as i64] + zeros((t - 1) as nat)
                },
            decreases words@[w as int].len() - t,
        {
            ids.push(words[w][t]);
            if t == 0 {
                marks.push((w + 1) as i64);
            } else {
                marks.push(0);
            }
            proof {
                assert(ids@ =~= bi + words@[w as int]@.take(t + 1));
                assert(marks@ =~= bm + seq![(w + 1) as i64] + zeros(t as nat));
            }
            t += 1;
        }
        proof {
            assert(words@[w as int]@.take(words@[w as int].len() as int) =~= wv[w as int]);
            assert(ids@ =~= head_ids + word_part(wv, w + 1));
            assert(marks@ =~= head_marks + word_marks(wv, w + 1));
        }
        w += 1;
    }
    ids.push(EOS_ID);
    marks.push(0);
    let mut mask: Vec<i64> = Vec::new();
    let mut m: usize = 0;
    while m < ids.len()
        invariant
            m <= ids.len(),
            mask@.len() == m,
            forall|i: int| 0 <= i < m ==> #[trigger] mask@[i] == 1,
        decreases ids.len() - m,
    {
        mask.push(1);
        m += 1;
    }
    proof {
        assert(ids@ =~= prompt_ids(lv, wv, ent, sep));
        assert(marks@ =~= prompt_word_marks(lv, wv, ent));
    }
    Prompt { ids, mask, words_mask: marks }
}

// ───────────────────────── spans ─────────────────────────

/// The candidate spans of one start word, for widths below `k`: the first
/// and last word of each span that fits the text, else `(0, 0)`.
pub open spec fn span_row(n: int, start: int, k: int) -> Seq<i64>
    decreases k,
{
    if k <= 0 {
        Seq::empty()
    } else {
        let end = start + k - 1;
        span_row(n, start, k - 1) + if end < n {
            seq![start as i64, end as i64]
        } else {
            seq![0i64, 0i64]
        }
    }
}

/// Which candidate spans of one start word fit the text, for widths below `k`.
pub open spec fn span_row_mask(n: int, start: int, k: int) -> Seq<bool>
    decreases k,
{
    if k <= 0 {
        Seq::empty()
    } else {
        span_row_mask(n, start, k - 1).push(start + k - 1 < n)
    }
}

/// The candidate spans of the first `s` start words, each with every width.
pub open spec fn span_rows(n: int, s: int) -> Seq<i64>
    decreases s,
{
    if s <= 0 {
        Seq::empty()
    } else {
        span_rows(n, s - 1) + span_row(n, s - 1, MAX_WIDTH as int)
    }
}

/// Which candidate spans of the first `s` start words fit the text.
pub open spec fn span_masks(n: int, s: int) -> Seq<bool>
    decreases s,
{
    if s <= 0 {
        Seq::empty()
    } else {
        span_masks(n, s - 1) + span_row_mask(n, s - 1, MAX_WIDTH as int)
    }
}

/// The candidate spans of a text of `n` words (as pairs of word indices,
/// flattened) and which of them fit the text.
pub fn build_spans(n: usize) -> (r: (Vec<i64>, Vec<bool>))
    requires
        n < i64::MAX - MAX_WIDTH,
        n + MAX_WIDTH <= usize::MAX,
    ensures
        r.0@ == span_rows(n as int, n as int),
        r.1@ == span_masks(n as int, n as int),
{
    let mut idx: Vec<i64> = Vec::new();
    let mut mask: Vec<bool> = Vec::new();
    let mut s: usize = 0;
    while s < n
        invariant
            s <= n < i64::MAX - MAX_WIDTH,
            n + MAX_WIDTH <= usize::MAX,
            idx@ == span_rows(n as int, s as int),
            mask@ == span_masks(n as int, s as int),
        decreases n - s,
    {
        let ghost bi = idx@;
        let ghost bm = mask@;
        let mut w: usize = 0;
        while w < MAX_WIDTH
            invariant
                s < n < i64::MAX - MAX_WIDTH,
                n + MAX_WIDTH <= usize::MAX,
                w <= MAX_WIDTH,
                idx@ == bi + span_row(n as int, s as int, w as int),
                mask@ == bm + span_row_mask(n as int, s as int, w as int),
            decreases MAX_WIDTH - w,
        {
            let end = s + w;
            if end < n {
                idx.push(s as i64);
                idx.push(end as i64);
                mask.push(true);
            } else {
                idx.push(0);
                idx.push(0);
                mask.push(false);
            }
            proof {
                assert(idx@ =~= bi + span_row(n as int, s as int, w + 1));
                assert(mask@ =~= bm + span_row_mask(n as int, s as int, w + 1));
            }
            w += 1;
        }
        proof {
            assert(idx@ =~= span_rows(n as int, s + 1));
            assert(mask@ =~= span_masks(n as int, s + 1));
        }
        s += 1;
    }
    (idx, mask)
}

// ───────────────────────── reading the scores ─────────────────────────

/// The start word, the width and the label of the score at position `k` of
/// the model's output, which is laid out by start word, then width, then
/// label.
pub open spec fn score_position(k: int, num_labels: int) -> (int, int, int) {
    (k / (MAX_WIDTH * num_labels), (k / num_labels) % (MAX_WIDTH as int), k % num_labels)
}

/// Among the first `k` scores of the model's output for a text of `n`
/// words, those that passed the threshold and whose span ends inside the
/// text, in output order: the score's position, the start word, the end
/// word and the label.
pub open spec fn decoded_spans(n: int, num_labels: int, passed: Seq<bool>, k: int) -> Seq<(usize, usize, usize, usize)>
    decreases k,
{
    if k <= 0 {
        Seq::empty()
    } else {
        let rest = decoded_spans(n, num_labels, passed, k - 1);
        let (s, w, l) = score_position(k - 1, num_labels);
        if s + w < n && passed[k - 1] {
            rest.push(((k - 1) as usize, s as usize, (s + w) as usize, l as usize))
        } else {
            rest
        }
    }
}

/// Position `s * MAX_WIDTH * num_labels + w * num_labels + l` of the output
/// holds the score of start word `s`, width `w` and label `l`.
proof fn lemma_score_position(o: int, s: int, w: int, l: int, num_labels: int)
    requires
        num_labels > 0,
        0 <= l < num_labels,
        0 <= w < MAX_WIDTH,
        s >= 0,
        o == s * (MAX_WIDTH * num_labels) + w * num_labels + l,
    ensures
        score_position(o, num_labels) == (s, w, l),
{
    let wl = MAX_WIDTH * num_labels;
    assert(o == (s * MAX_WIDTH + w) * num_labels + l) by (nonlinear_arith)
        requires
            o == s * (MAX_WIDTH * num_labels) + w * num_labels + l,
    ;
    vstd::arithmetic::div_mod::lemma_fundamental_div_mod_converse(o, num_labels, s * MAX_WIDTH + w, l);
    vstd::arithmetic::div_mod::lemma_fundamental_div_mod_converse(s * MAX_WIDTH + w, MAX_WIDTH as int, s, w);
    assert(w * num_labels + l < wl) by (nonlinear_arith)
        requires
            0 <= w < MAX_WIDTH,
            0 <= l < num_labels,
            wl == MAX_WIDTH * num_labels,
    ;
    assert(w * num_labels + l >= 0) by (nonlinear_arith)
        requires
            0 <= w,
            0 <= l,
            num_labels > 0,
    ;
    vstd::arithmetic::div_mod::lemma_fundamental_div_mod_converse(o, wl, s, w * num_labels + l);
}

/// The spans the model found: which of its scores (`passed`, one per
/// position of its output) reached the threshold is decided outside; this
/// reads each passing position as a start word, an end word and a label,
/// and keeps those whose span ends inside the text of `n` words.
pub fn decode_spans(n: usize, num_labels: usize, passed: &Vec<bool>) -> (r: Vec<(usize, usize, usize, usize)>)
    requires
        passed.len() == n * MAX_WIDTH * num_labels,
    ensures
        r@ == decoded_spans(n as int, num_labels as int, passed@, passed.len() as int),
{
    let mut out: Vec<(usize, usize, usize, usize)> = Vec::new();
    if num_labels == 0 {
        return out;
    }
    let total = passed.len();
    let mut o: usize = 0;
    let mut s: usize = 0;
    let mut w: usize = 0;
    let mut l: usize = 0;
    while o < total
        invariant
            total == passed.len(),
            total == n * MAX_WIDTH * num_labels,
            num_labels > 0,
            o <= total,
            l < num_labels,
            w < MAX_WIDTH,
            o as int == s * (MAX_WIDTH * num_labels) + w * num_labels + l,
            out@ == decoded_spans(n as int, num_labels as int, passed@, o as int),
        decreases total - o,
    {
        proof {
            lemma_score_position(o as int, s as int, w as int, l as int, num_labels as int);
            assert(s <= o) by (nonlinear_arith)
                requires
                    o as int == s * (MAX_WIDTH * num_labels) + w * num_labels + l,
                    num_labels > 0,
                    w >= 0,
                    l >= 0,
            ;
        }
        if w < n && s < n - w && passed[o] {
            out.push((o, s, s + w, l));
        }
        let ghost (s0, w0, l0) = (s, w, l);
        o += 1;
        if l + 1 < num_labels {
            l += 1;
        } else {
            l = 0;
            if w + 1 < MAX_WIDTH {
                w += 1;
                proof {
                    assert(o as int == s * (MAX_WIDTH * num_labels) + w * num_labels + l) by (nonlinear_arith)
                        requires
                            o as int == s0 * (MAX_WIDTH * num_labels) + w0 * num_labels + l0 + 1,
                            l0 + 1 == num_labels,
                            w == w0 + 1,
                            s == s0,
                            l == 0,
                    ;
                }
            } else {
                w = 0;
                s += 1;
                proof {
                    assert(o as int == s * (MAX_WIDTH * num_labels) + w * num_labels + l) by (nonlinear_arith)
                        requires
                            o as int == s0 * (MAX_WIDTH * num_labels) + w0 * num_labels + l0 + 1,
                            l0 + 1 == num_labels,
                            w0 + 1 == MAX_WIDTH,
                            s == s0 + 1,
                            w == 0,
                            l == 0,
                    ;
                }
            }
        }
    }
    out
}

// ───────────────────────── choosing spans ─────────────────────────

/// Two byte spans share a byte.
pub open spec fn overlaps(a: (usize, usize), b: (usize, usize)) -> bool {
    a.0 < b.1 && a.1 > b.0
}

/// The spans kept among the first `k` (best first): each that overlaps none
/// kept before it. Positions into `spans`.
pub open spec fn greedy_keep(spans: Seq<(usize, usize)>, k: int) -> Seq<int>
    decreases k,
{
    if k <= 0 {
        Seq::empty()
    } else {
        let prev = greedy_keep(spans, k - 1);
        if exists|i: int| 0 <= i < prev.len() && overlaps(spans[k - 1], spans[#[trigger] prev[i]]) {
            prev
        } else {
            prev.push(k - 1)
        }
    }
}

/// The number of leading positions whose spans start at or before `start`.
pub open spec fn earlier_prefix(spans: Seq<(usize, usize)>, s: Seq<int>, start: usize) -> int
    decreases s.len(),
{
    if s.len() == 0 || spans[s[0]].0 > start {
        0
    } else {
        1 + earlier_prefix(spans, s.drop_first(), start)
    }
}

/// The positions ordered by span start, ties kept in order (a stable sort).
pub open spec fn sort_by_start(spans: Seq<(usize, usize)>, s: Seq<int>) -> Seq<int>
    decreases s.len(),
{
    if s.len() == 0 {
        Seq::empty()
    } else {
        let prev = sort_by_start(spans, s.drop_last());
        let p = earlier_prefix(spans, prev, spans[s.last()].0);
        prev.take(p).push(s.last()) + prev.skip(p)
    }
}

/// The spans chosen among candidates ordered best first: greedily those that
/// overlap no span chosen before, then ordered by where they start.
pub open spec fn chosen_spans(spans: Seq<(usize, usize)>) -> Seq<int> {
    sort_by_start(spans, greedy_keep(spans, spans.len() as int))
}

proof fn lemma_earlier_prefix(spans: Seq<(usize, usize)>, s: Seq<int>, start: usize, k: int)
    requires
        0 <= k <= s.len(),
        forall|j: int| 0 <= j < k ==> spans[#[trigger] s[j]].0 <= start,
        k == s.len() || spans[s[k]].0 > start,
    ensures
        earlier_prefix(spans, s, start) == k,
    decreases k,
{
    if k > 0 {
        let t = s.drop_first();
        assert forall|j: int| 0 <= j < k - 1 implies spans[#[trigger] t[j]].0 <= start by {
            assert(t[j] == s[j + 1]);
        }
        if k < s.len() {
            assert(t[k - 1] == s[k]);
        }
        lemma_earlier_prefix(spans, t, start, k - 1);
    }
}

/// The positions of the spans chosen among candidates ordered best first
/// (see `chosen_spans`).
pub fn greedy_dedup(spans: &Vec<(usize, usize)>) -> (r: Vec<usize>)
    ensures
        r@.map_values(|i: usize| i as int) == chosen_spans(spans@),
{
    let mut kept: Vec<usize> = Vec::new();
    let mut k: usize = 0;
    while k < spans.len()
        invariant
            k <= spans.len(),
            kept@.map_values(|i: usize| i as int) == greedy_keep(spans@, k as int),
            forall|i: int| 0 <= i < kept.len() ==> #[trigger] kept@[i] < k,
        decreases spans.len() - k,
    {
        let ghost kv = kept@.map_values(|i: usize| i as int);
        let mut hit = false;
        let mut i: usize = 0;
        while i < kept.len()
            invariant
                k < spans.len(),
                i <= kept.len(),
                kv == kept@.map_values(|x: usize| x as int),
                forall|j: int| 0 <= j < kept.len() ==> #[trigger] kept@[j] < k,
                hit == exists|j: int| 0 <= j < i && overlaps(spans@[k as int], spans@[#[trigger] kv[j]]),
            decreases kept.len() - i,
        {
            let o = spans[kept[i]];
            proof {
                assert(kv[i as int] == kept@[i as int] as int);
            }
            if spans[k].0 < o.1 && spans[k].1 > o.0 {
                hit = true;
            }
            i += 1;
        }
        if !hit {
            kept.push(k);
            proof {
                assert(kept@.map_values(|x: usize| x as int) =~= kv.push(k as int));
            }
        }
        k += 1;
    }
    let ghost g = kept@.map_values(|i: usize| i as int);
    let mut out: Vec<usize> = Vec::new();
    let mut m: usize = 0;
    while m < kept.len()
        invariant
            m <= kept.len(),
            g == kept@.map_values(|i: usize| i as int),
            g == greedy_keep(spans@, spans.len() as int),
            forall|i: int| 0 <= i < kept.len() ==> #[trigger] kept@[i] < spans.len(),
            forall|i: int| 0 <= i < out.len() ==> #[trigger] out@[i] < spans.len(),
            out@.map_values(|i: usize| i as int) == sort_by_start(spans@, g.take(m as int)),
        decreases kept.len() - m,
    {
        let x = kept[m];
        let start = spans[x].0;
        let ghost ov = out@.map_values(|i: usize| i as int);
        let mut p: usize = 0;
        while p < out.len() && spans[out[p]].0 <= start
            invariant
                p <= out.len(),
                x < spans.len(),
                ov == out@.map_values(|i: usize| i as int),
                forall|i: int| 0 <= i < out.len() ==> #[trigger] out@[i] < spans.len(),
                forall|j: int| 0 <= j < p ==> spans@[#[trigger] ov[j]].0 <= start,
            decreases out.len() - p,
        {
            proof {
                assert(ov[p as int] == out@[p as int] as int);
            }
            p += 1;
        }
        proof {
            if p < out.len() {
                assert(ov[p as int] == out@[p as int] as int);
            }
            lemma_earlier_prefix(spans@, ov, start, p as int);
            assert(g.take(m + 1).drop_last() =~= g.take(m as int));
            assert(g.take(m + 1).last() == x as int);
        }
        out.insert(p, x);
        proof {
            assert(out@.map_values(|i: usize| i as int) =~= ov.take(p as int).push(x as int) + ov.skip(p as int));
            assert forall|i: int| 0 <= i < out.len() implies #[trigger] out@[i] < spans.len() by {
                if i < p {
                } else if i > p {
                    assert(out@[i] == ov[i - 1]);
                }
            }
        }
        m += 1;
    }
    proof {
        assert(g.take(kept.len() as int) =~= g);
    }
    out
}


proof fn lemma_greedy_disjoint(spans: Seq<(usize, usize)>, k: int)
    ensures
        forall|x: int, y: int|
            #[trigger] greedy_keep(spans, k).contains(x) && #[trigger] greedy_keep(spans, k).contains(y)
                && x != y ==> !overlaps(spans[x], spans[y]),
        forall|x: int| #[trigger] greedy_keep(spans, k).contains(x) ==> 0 <= x < k,
    decreases k,
{
    if k > 0 {
        lemma_greedy_disjoint(spans, k - 1);
        let prev = greedy_keep(spans, k - 1);
        if !(exists|i: int| 0 <= i < prev.len() && overlaps(spans[k - 1], spans[#[trigger] prev[i]])) {
            let cur = prev.push(k - 1);
            assert forall|x: int| #[trigger] cur.contains(x) implies 0 <= x < k by {
                if x != k - 1 {
                    let i = choose|i: int| 0 <= i < cur.len() && cur[i] == x;
                    assert(prev[i] == x);
                    assert(prev.contains(x));
                }
            }
            assert forall|x: int, y: int|
                #[trigger] cur.contains(x) && #[trigger] cur.contains(y) && x != y implies !overlaps(
                spans[x],
                spans[y],
            ) by {
                if x != k - 1 && y != k - 1 {
                    let i = choose|i: int| 0 <= i < cur.len() && cur[i] == x;
                    let j = choose|j: int| 0 <= j < cur.len() && cur[j] == y;
                    assert(prev[i] == x && prev.contains(x));
                    assert(prev[j] == y && prev.contains(y));
                } else if x == k - 1 {
                    let j = choose|j: int| 0 <= j < cur.len() && cur[j] == y;
                    assert(prev[j] == y);
                } else {
                    let i = choose|i: int| 0 <= i < cur.len() && cur[i] == x;
                    assert(prev[i] == x);
                }
            }
        }
    }
}

proof fn lemma_sort_subset(spans: Seq<(usize, usize)>, s: Seq<int>)
    ensures
        forall|x: int| #[trigger] sort_by_start(spans, s).contains(x) ==> s.contains(x),
    decreases s.len(),
{
    if s.len() > 0 {
        lemma_sort_subset(spans, s.drop_last());
        let prev = sort_by_start(spans, s.drop_last());
        let p = earlier_prefix(spans, prev, spans[s.last()].0);
        let r = sort_by_start(spans, s);
        assert forall|x: int| #[trigger] r.contains(x) implies s.contains(x) by {
            let i = choose|i: int| 0 <= i < r.len() && r[i] == x;
            if x != s.last() {
                lemma_earlier_prefix_range(spans, prev, spans[s.last()].0);
                if i < p {
                    assert(prev[i] == x);
                } else {
                    assert(prev[i - 1] == x);
                }
                assert(prev.contains(x));
                assert(s.drop_last().contains(x));
                let j = choose|j: int| 0 <= j < s.drop_last().len() && s.drop_last()[j] == x;
                assert(s[j] == x);
            } else {
                assert(s[s.len() - 1] == x);
            }
        }
    }
}

proof fn lemma_earlier_prefix_range(spans: Seq<(usize, usize)>, s: Seq<int>, start: usize)
    ensures
        0 <= earlier_prefix(spans, s, start) <= s.len(),
    decreases s.len(),
{
    if s.len() > 0 && spans[s[0]].0 <= start {
        lemma_earlier_prefix_range(spans, s.drop_first(), start);
    }
}

/// The spans chosen never overlap one another.
pub proof fn chosen_spans_disjoint(spans: Seq<(usize, usize)>)
    ensures
        forall|x: int, y: int|
            #[trigger] chosen_spans(spans).contains(x) && #[trigger] chosen_spans(spans).contains(y) && x
                != y ==> !overlaps(spans[x], spans[y]),
{
    let g = greedy_keep(spans, spans.len() as int);
    lemma_greedy_disjoint(spans, spans.len() as int);
    lemma_sort_subset(spans, g);
    assert forall|x: int, y: int|
        #[trigger] chosen_spans(spans).contains(x) && #[trigger] chosen_spans(spans).contains(y) && x != y implies !overlaps(
        spans[x],
        spans[y],
    ) by {
        assert(g.contains(x));
        assert(g.contains(y));
    }
}

} // verus!
