use raggy::extractors::{csv_extract, html, pdf};
use raggy::graph::{ContentType, EdgeKind, EntityType, NodeKind};

fn chars(s: &str) -> Vec<char> {
    s.chars().collect()
}

#[test]
fn html_drops_markup_scripts_and_decodes_entities() {
    let page = "<p>Hello &amp; <b>world</b></p><script>var x;</script><div>Next</div>";
    let text: String = html::strip_tags(&chars(page)).into_iter().collect();
    assert_eq!(text, "Hello & world\n\nNext");
    assert_eq!(html::extract(page.as_bytes()), "Hello & world\n\nNext");
}

#[test]
fn html_keeps_unknown_entities() {
    let text = html::extract(b"a &copy; b &lt;c&gt;");
    assert_eq!(text, "a &copy; b <c>");
}

#[test]
fn whitespace_collapses_to_one_blank_line() {
    let out: String = html::collapse_whitespace(&chars("  a  \n\n\n\n b\n")).into_iter().collect();
    assert_eq!(out, "a\n\nb");
}

#[test]
fn collapsed_text_never_holds_two_blank_lines_in_a_row() {
    let out: String = html::collapse_whitespace(&chars("x\n \n\t\n\ny\n\n\n\n\nz\n\n")).into_iter().collect();
    assert_eq!(out, "x\n\ny\n\nz");
    assert!(!out.contains("\n\n\n"));
    let single: String = html::collapse_whitespace(&chars("p\n\nq")).into_iter().collect();
    assert_eq!(single, "p\n\nq");
}

#[test]
fn pdf_text_is_cleaned() {
    assert_eq!(pdf::clean_pdf_text("a\0b  \x0Cc  \r\nd"), "ab\n\nc\nd");
    assert!(!pdf::pdf_text_is_meaningful("   short   "));
    assert!(pdf::pdf_text_is_meaningful(&"x".repeat(51)));
}

#[test]
fn pdf_falls_back_to_ocr_only_when_the_text_layer_is_thin() {
    let long = "y".repeat(60);
    assert_eq!(pdf::finish_pdf_text(&long, Some("ocr".to_string())), long);
    assert_eq!(pdf::finish_pdf_text("thin", Some("ocr text".to_string())), "ocr text");
    assert_eq!(pdf::finish_pdf_text("thin  ", Some("   ".to_string())), "thin");
    assert_eq!(pdf::finish_pdf_text("thin", None), "thin");
}

#[test]
fn csv_rows_become_labelled_lines() {
    let text = csv_extract::extract(b"name,age\nAda,36\nBob\n", "csv");
    assert_eq!(text, "Columns: name, age\n\nname: Ada | age: 36\nname: Bob\n");
    let tsv = csv_extract::extract(b"k\tv\n1\t2\n", "tsv");
    assert_eq!(tsv, "Columns: k, v\n\nk: 1 | v: 2\n");
}

#[test]
fn extraction_picks_the_reader_by_extension() {
    assert_eq!(raggy::extractors::extract(b"plain", "txt"), "plain");
    assert_eq!(raggy::extractors::extract(b"<p>x</p>", "htm"), "x");
    assert_eq!(raggy::extractors::extract(b"<p>x</p>", "md"), "<p>x</p>");
}

#[test]
fn kind_names_round_trip() {
    for k in [NodeKind::Document, NodeKind::Section, NodeKind::Chunk, NodeKind::Entity] {
        assert_eq!(NodeKind::from_str(k.as_str()), Some(k));
    }
    for k in [EdgeKind::Contains, EdgeKind::References, EdgeKind::Mentions, EdgeKind::CoOccurs, EdgeKind::Follows] {
        assert_eq!(EdgeKind::from_str(k.as_str()), Some(k));
    }
    assert_eq!(EntityType::FilePath.as_str(), "filepath");
    assert_eq!(NodeKind::from_str("page"), None);
}

#[test]
fn content_types_by_name_and_extension() {
    let code = ContentType::Code { language: "rust".to_string() };
    assert_eq!(code.as_str(), "code:rust");
    assert_eq!(ContentType::from_str("code:rust"), Some(code.clone()));
    assert_eq!(ContentType::from_str("yaml"), Some(ContentType::Yaml));
    assert_eq!(ContentType::from_str("pdf"), Some(ContentType::Pdf));
    assert_eq!(ContentType::from_str("docx"), None);
    assert_eq!(ContentType::Csv.as_str(), "csv");
    assert_eq!(ContentType::from_extension("htm"), Some(ContentType::Html));
    assert_eq!(ContentType::from_extension("tsv"), Some(ContentType::Csv));
    assert_eq!(ContentType::from_extension("log"), Some(ContentType::PlainText));
    assert_eq!(ContentType::from_extension("pdf"), Some(ContentType::Pdf));
    assert_eq!(ContentType::from_extension("yml"), Some(ContentType::Yaml));
    assert_eq!(ContentType::from_extension("ts"), Some(ContentType::Code { language: "typescript".to_string() }));
    assert_eq!(ContentType::from_extension("MD"), None);
    assert_eq!(raggy::ingest::content_type_for("MD"), Some(ContentType::Markdown));
}
