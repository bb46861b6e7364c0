use std::collections::HashMap;

use raggy::entity::gliner::{gliner_prompt, word_tokenize};
use raggy::index::embedder::{embedding_inputs, pad_batch, Encoded, MAX_SEQ_LEN};
use tokenizers::models::wordlevel::WordLevel;
use tokenizers::pre_tokenizers::whitespace::Whitespace;
use tokenizers::Tokenizer;

fn small_tokenizer() -> Tokenizer {
    let mut vocab: HashMap<String, u32> = HashMap::new();
    for (i, w) in ["[UNK]", "alice", "met", "bob", "person", "<<ENT>>", "<<SEP>>"].iter().enumerate() {
        vocab.insert(w.to_string(), i as u32 + 10);
    }
    let model = WordLevel::builder().vocab(vocab).unk_token("[UNK]".to_string()).build().unwrap();
    let mut tok = Tokenizer::new(model);
    tok.with_pre_tokenizer(Some(Whitespace {}));
    tok
}

fn enc(ids: Vec<u32>) -> Encoded {
    let n = ids.len();
    Encoded { ids, mask: vec![1; n], types: vec![0; n] }
}

#[test]
fn batches_are_padded_to_the_longest_text() {
    let b = pad_batch(&vec![enc(vec![5, 6, 7]), enc(vec![8])]);
    assert_eq!(b.width, 3);
    assert_eq!(b.ids, vec![vec![5, 6, 7], vec![8, 0, 0]]);
    assert_eq!(b.mask, vec![vec![1, 1, 1], vec![1, 0, 0]]);
    assert_eq!(b.types, vec![vec![0, 0, 0], vec![0, 0, 0]]);
}

#[test]
fn long_texts_are_cut_to_the_model_length() {
    let long: Vec<u32> = (0..300).collect();
    let b = pad_batch(&vec![enc(long), enc(vec![1, 2])]);
    assert_eq!(MAX_SEQ_LEN, 256);
    assert_eq!(b.width, 256);
    assert_eq!(b.ids[0].len(), 256);
    assert_eq!(b.ids[0][255], 255);
    assert_eq!(b.ids[1][..3], [1, 2, 0]);
}

#[test]
fn an_empty_batch_has_no_rows() {
    let b = pad_batch(&Vec::new());
    assert_eq!(b.width, 0);
    assert!(b.ids.is_empty());
}

#[test]
fn texts_are_tokenized_before_padding() {
    let tok = small_tokenizer();
    let (encs, b) = embedding_inputs(&tok, &vec!["alice met bob".to_string(), "bob".to_string()]).unwrap();
    assert_eq!(encs.len(), 2);
    assert_eq!(b.width, 3);
    assert_eq!(b.ids, vec![vec![11, 12, 13], vec![13, 0, 0]]);
    assert_eq!(b.mask, vec![vec![1, 1, 1], vec![1, 0, 0]]);
}

#[test]
fn entity_prompt_marks_first_subtokens_of_words() {
    let tok = small_tokenizer();
    let words = word_tokenize("alice met bob");
    let p = gliner_prompt(&tok, &vec!["person".to_string()], &words).unwrap();
    // BOS, <<ENT>>, person, <<SEP>>, alice, met, bob, EOS
    assert_eq!(p.ids, vec![1, 15, 14, 16, 11, 12, 13, 2]);
    assert_eq!(p.words_mask, vec![0, 0, 0, 0, 1, 2, 3, 0]);
    assert_eq!(p.mask, vec![1; 8]);
}

#[test]
fn nothing_to_tokenize_still_gives_inputs() {
    let tok = small_tokenizer();
    let (encs, b) = embedding_inputs(&tok, &Vec::new()).unwrap();
    assert!(encs.is_empty());
    assert_eq!(b.width, 0);
    // BOS, <<SEP>>, EOS: the markers come from the vocabulary
    let p = gliner_prompt(&tok, &Vec::new(), &Vec::new()).unwrap();
    assert_eq!(p.ids, vec![1, 16, 2]);
}

#[test]
fn missing_markers_read_as_zero() {
    let mut vocab: HashMap<String, u32> = HashMap::new();
    vocab.insert("[UNK]".to_string(), 3);
    vocab.insert("person".to_string(), 4);
    let model = WordLevel::builder().vocab(vocab).unk_token("[UNK]".to_string()).build().unwrap();
    let tok = Tokenizer::new(model);
    let p = gliner_prompt(&tok, &vec!["person".to_string()], &Vec::new()).unwrap();
    assert_eq!(p.ids, vec![1, 0, 4, 0, 2]);
}
