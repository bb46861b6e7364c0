//! The inputs of the sentence-embedding model: each text tokenized, cut to
//! the model's longest sequence, and padded with zeros to the longest one
//! in the batch. Running the model and pooling its output happen outside.
use vstd::prelude::*;

verus! {

/// A loaded tokenizer of the `tokenizers` crate, carried through unseen.
#[verifier::external_type_specification]
#[verifier::external_body]
pub struct ExTokenizer(tokenizers::Tokenizer);

/// The longest token sequence the embedding model reads.
pub const MAX_SEQ_LEN: usize = 256;

/// A tokenized text: token ids, attention mask and token type ids.
pub struct Encoded {
    pub ids: Vec<u32>,
    pub mask: Vec<u32>,
    pub types: Vec<u32>,
}

/// A tokenization the tokenizer `tok` may give for `text` (with or without
/// its special tokens): the ids, attention mask and type ids. A relation,
/// not a function: a tokenizer may tokenize by chance (BPE dropout), so two
/// calls on one text may differ.
pub uninterp spec fn tokenizes(
    tok: tokenizers::Tokenizer,
    text: Seq<char>,
    special: bool,
    ids: Seq<u32>,
    mask: Seq<u32>,
    types: Seq<u32>,
) -> bool;

/// `Tokenizer::encode` of the `tokenizers` crate, its encoding's ids,
/// attention mask and type ids copied out; `None` where it reports an
/// error. Trusted: what comes back is a tokenization by `tok` of `text`
/// with the special tokens as asked (`tokenizes`). What the arrays hold
/// depends on the loaded vocabulary and rules, which are not visible here,
/// so nothing more is claimed of them, not even that the three have one
/// length.
#[verifier::external_body]
pub(crate) fn encode(tok: &tokenizers::Tokenizer, text: &str, add_special_tokens: bool) -> (r: Option<Encoded>)
    ensures
        r matches Some(e) ==> tokenizes(*tok, text@, add_special_tokens, e.ids@, e.mask@, e.types@),
{
    match tok.encode(text, add_special_tokens) {
        Ok(e) => Some(
            Encoded {
                ids: e.get_ids().to_vec(),
                mask: e.get_attention_mask().to_vec(),
                types: e.get_type_ids().to_vec(),
            },
        ),
        Err(_) => None,
    }
}

/// An encoding whose mask and type ids cover its ids.
pub open spec fn covers(e: Encoded) -> bool {
    e.mask.len() >= e.ids.len() && e.types.len() >= e.ids.len()
}

/// The longest sequence in the first `k` encodings, each cut to `cap`.
pub open spec fn batch_len(encs: Seq<Encoded>, cap: int, k: int) -> int
    decreases k,
{
    if k <= 0 {
        0
    } else {
        let prev = batch_len(encs, cap, k - 1);
        let l = if (encs[k - 1].ids.len() as int) < cap {
            encs[k - 1].ids.len() as int
        } else {
            cap
        };
        if l > prev {
            l
        } else {
            prev
        }
    }
}

/// Row `v` (one of an encoding's arrays) cut or padded with zeros to
/// length `width`, given that the encoding has `n` tokens.
pub open spec fn padded_row(v: Seq<u32>, n: int, width: int) -> Seq<i64> {
    Seq::new(width as nat, |j: int| if j < n { v[j] as i64 } else { 0i64 })
}

/// The model's inputs for a batch: one row per text for each of ids,
/// attention mask and type ids, all of the batch's length.
pub struct PaddedBatch {
    pub width: usize,
    pub ids: Vec<Vec<i64>>,
    pub mask: Vec<Vec<i64>>,
    pub types: Vec<Vec<i64>>,
}

/// The padded batch of the given encodings (see `padded_row`).
pub open spec fn is_padded_batch(b: PaddedBatch, encs: Seq<Encoded>) -> bool {
    &&& b.width == batch_len(encs, MAX_SEQ_LEN as int, encs.len() as int)
    &&& b.ids.len() == encs.len()
    &&& b.mask.len() == encs.len()
    &&& b.types.len() == encs.len()
    &&& forall|i: int|
        0 <= i < encs.len() ==> {
            let e = #[trigger] encs[i];
            &&& b.ids@[i]@ == padded_row(e.ids@, e.ids.len() as int, b.width as int)
            &&& b.mask@[i]@ == padded_row(e.mask@, e.ids.len() as int, b.width as int)
            &&& b.types@[i]@ == padded_row(e.types@, e.ids.len() as int, b.width as int)
        }
}

proof fn lemma_batch_len(encs: Seq<Encoded>, cap: int, k: int)
    requires
        0 <= k <= encs.len(),
        cap >= 0,
    ensures
        0 <= batch_len(encs, cap, k) <= cap,
        forall|i: int| 0 <= i < k ==> batch_len(encs, cap, k) >= if (#[trigger] encs[i].ids.len() as int) < cap {
            encs[i].ids.len() as int
        } else {
            cap
        },
    decreases k,
{
    if k > 0 {
        lemma_batch_len(encs, cap, k - 1);
    }
}

fn pad_row(v: &Vec<u32>, n: usize, width: usize) -> (r: Vec<i64>)
    requires
        n <= v.len(),
    ensures
        r@ == padded_row(v@, n as int, width as int),
{
    let mut r: Vec<i64> = Vec::new();
    let mut j: usize = 0;
    while j < width
        invariant
            j <= width,
            n <= v.len(),
            r@ =~= padded_row(v@, n as int, width as int).take(j as int),
        decreases width - j,
    {
        if j < n {
            r.push(v[j] as i64);
        } else {
            r.push(0i64);
        }
        j += 1;
    }
    r
}

/// Pads a batch of encodings into the model's inputs (see
/// `is_padded_batch`): the batch's length is the longest encoding, cut to
/// `MAX_SEQ_LEN`; shorter rows are filled with zeros.
pub fn pad_batch(encs: &Vec<Encoded>) -> (r: PaddedBatch)
    requires
        forall|i: int| 0 <= i < encs.len() ==> covers(#[trigger] encs@[i]),
    ensures
        is_padded_batch(r, encs@),
{
    let mut width: usize = 0;
    let mut k: usize = 0;
    while k < encs.len()
        invariant
            k <= encs.len(),
            width == batch_len(encs@, MAX_SEQ_LEN as int, k as int),
        decreases encs.len() - k,
    {
        let l = if encs[k].ids.len() < MAX_SEQ_LEN {
            encs[k].ids.len()
        } else {
            MAX_SEQ_LEN
        };
        if l > width {
            width = l;
        }
        k += 1;
    }
    proof {
        lemma_batch_len(encs@, MAX_SEQ_LEN as int, encs.len() as int);
    }
    let mut ids: Vec<Vec<i64>> = Vec::new();
    let mut mask: Vec<Vec<i64>> = Vec::new();
    let mut types: Vec<Vec<i64>> = Vec::new();
    let mut i: usize = 0;
    while i < encs.len()
        invariant
            i <= encs.len(),
            width == batch_len(encs@, MAX_SEQ_LEN as int, encs.len() as int),
            width <= MAX_SEQ_LEN,
            forall|i: int| 0 <= i < encs.len() ==> covers(#[trigger] encs@[i]),
            ids.len() == i,
            mask.len() == i,
            types.len() == i,
            forall|m: int|
                0 <= m < i ==> {
                    let e = #[trigger] encs@[m];
                    &&& ids@[m]@ == padded_row(e.ids@, e.ids.len() as int, width as int)
                    &&& mask@[m]@ == padded_row(e.mask@, e.ids.len() as int, width as int)
                    &&& types@[m]@ == padded_row(e.types@, e.ids.len() as int, width as int)
                },
        decreases encs.len() - i,
    {
        let e = &encs[i];
        proof {
            assert(covers(encs@[i as int]));
        }
        let n = e.ids.len();
        ids.push(pad_row(&e.ids, n, width));
        mask.push(pad_row(&e.mask, n, width));
        types.push(pad_row(&e.types, n, width));
        i += 1;
    }
    PaddedBatch { width, ids, mask, types }
}

/// Whether every encoding's mask and type ids cover its ids.
fn all_cover(encs: &Vec<Encoded>) -> (r: bool)
    ensures
        r == forall|i: int| 0 <= i < encs.len() ==> covers(#[trigger] encs@[i]),
{
    let mut i: usize = 0;
    while i < encs.len()
        invariant
            i <= encs.len(),
            forall|m: int| 0 <= m < i ==> covers(#[trigger] encs@[m]),
        decreases encs.len() - i,
    {
        if encs[i].mask.len() < encs[i].ids.len() || encs[i].types.len() < encs[i].ids.len() {
            proof {
                assert(!covers(encs@[i as int]));
            }
            return false;
        }
        i += 1;
    }
    true
}

/// The embedding model's inputs for a batch of texts: each text tokenized
/// with the special tokens, then padded (see `pad_batch`). `None` where the
/// tokenizer fails on a text or hands back a mask or type ids shorter than
/// the ids.
pub fn embedding_inputs(tok: &tokenizers::Tokenizer, texts: &Vec<String>) -> (r: Option<(Vec<Encoded>, PaddedBatch)>)
    ensures
        r matches Some(p) ==> p.0.len() == texts.len() && is_padded_batch(p.1, p.0@),
        r matches Some(p) ==> forall|i: int| 0 <= i < p.0.len() ==> covers(#[trigger] p.0@[i]),
        r matches Some(p) ==> forall|i: int|
            0 <= i < p.0.len() ==> tokenizes(
                *tok,
                texts@[i]@,
                true,
                (#[trigger] p.0@[i]).ids@,
                p.0@[i].mask@,
                p.0@[i].types@,
            ),
        texts.len() == 0 ==> r is Some,
{
    let mut encs: Vec<Encoded> = Vec::new();
    let mut i: usize = 0;
    while i < texts.len()
        invariant
            i <= texts.len(),
            encs.len() == i,
            forall|j: int|
                0 <= j < i ==> tokenizes(
                    *tok,
                    texts@[j]@,
                    true,
                    (#[trigger] encs@[j]).ids@,
                    encs@[j].mask@,
                    encs@[j].types@,
                ),
        decreases texts.len() - i,
    {
        match encode(tok, texts[i].as_str(), true) {
            Some(e) => encs.push(e),
            None => {
                return None;
            },
        }
        i += 1;
    }
    if !all_cover(&encs) {
        return None;
    }
    let b = pad_batch(&encs);
    Some((encs, b))
}

} // verus!
