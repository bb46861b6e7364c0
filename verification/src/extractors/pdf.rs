//! Cleanup of the text layer extracted from a PDF, and the choice between that
//! layer and an OCR reading of the page images.
use vstd::prelude::*;
use crate::text::{
    byte_len, bytes_len, chars_of, join, join_chars, lines, lines_of, replace_char,
    replace_chars, string_of, trim, trim_chars, trim_end, trim_end_chars, views,
};

verus! {

broadcast use vstd::string::group_string_axioms;

/// PDF text without NUL characters, form feeds as paragraph breaks, and the
/// trailing whitespace of every line removed.
pub open spec fn cleaned_pdf_text(text: Seq<char>) -> Seq<char> {
    let no_nul = replace_char(text, '\0', Seq::empty());
    let paras = replace_char(no_nul, '\u{0C}', seq!['\n', '\n']);
    join(lines(paras).map_values(|l: Seq<char>| trim_end(l)), seq!['\n'])
}

/// Cleans up common PDF text extraction artifacts.
pub fn clean_pdf_text(text: &str) -> (r: String)
    ensures
        r@ == cleaned_pdf_text(text@),
{
    let cs = chars_of(text);
    let empty: Vec<char> = Vec::new();
    let no_nul = replace_chars(&cs, '\0', &empty);
    let mut ff: Vec<char> = Vec::new();
    ff.push('\n');
    ff.push('\n');
    proof {
        assert(ff@ =~= seq!['\n', '\n']);
    }
    let paras = replace_chars(&no_nul, '\u{0C}', &ff);
    let ls = lines_of(&paras);
    let mut trimmed: Vec<Vec<char>> = Vec::new();
    let mut i: usize = 0;
    while i < ls.len()
        invariant
            views(ls@) == lines(paras@),
            i <= ls.len(),
            trimmed.len() == i,
            forall|k: int| 0 <= k < i ==> #[trigger] trimmed@[k]@ == trim_end(ls@[k]@),
        decreases ls.len() - i,
    {
        trimmed.push(trim_end_chars(&ls[i]));
        i += 1;
    }
    let mut nl: Vec<char> = Vec::new();
    nl.push('\n');
    proof {
        assert(views(trimmed@) =~= lines(paras@).map_values(|l: Seq<char>| trim_end(l)));
        assert(nl@ =~= seq!['\n']);
    }
    string_of(&join_chars(&trimmed, &nl))
}

/// Whether the text layer holds meaningful text: more than 50 bytes once trimmed.
pub open spec fn pdf_text_meaningful(text: Seq<char>) -> bool {
    trim(text).len() > 0 && byte_len(trim(text)) > 50
}

/// Whether the text layer holds meaningful text (more than 50 bytes once
/// trimmed); otherwise an OCR reading is tried.
pub fn pdf_text_is_meaningful(text: &str) -> (r: bool)
    ensures
        r == pdf_text_meaningful(text@),
{
    let t = trim_chars(&chars_of(text));
    t.len() > 0 && bytes_len(&t) > 50
}

/// The text taken for a PDF: the cleaned text layer when it is meaningful,
/// else the OCR reading when there is one that is not blank, else the cleaned
/// text layer.
pub open spec fn chosen_pdf_text(text: Seq<char>, ocr: Option<Seq<char>>) -> Seq<char> {
    if pdf_text_meaningful(text) {
        cleaned_pdf_text(text)
    } else if ocr matches Some(o) && trim(o).len() > 0 {
        ocr.unwrap()
    } else {
        cleaned_pdf_text(text)
    }
}

/// Chooses between the PDF's text layer and an OCR reading of it.
pub fn finish_pdf_text(text: &str, ocr: Option<String>) -> (r: String)
    ensures
        r@ == chosen_pdf_text(
            text@,
            match ocr {
                Some(o) => Some(o@),
                None => None,
            },
        ),
{
    if pdf_text_is_meaningful(text) {
        return clean_pdf_text(text);
    }
    match ocr {
        Some(o) => {
            let t = trim_chars(&chars_of(o.as_str()));
            if t.len() > 0 {
                o
            } else {
                clean_pdf_text(text)
            }
        },
        None => clean_pdf_text(text),
    }
}

} // verus!
