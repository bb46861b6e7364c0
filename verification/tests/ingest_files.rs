use raggy::graph::{ContentType, EdgeKind, NodeKind};
use raggy::ingest::{code, markdown, plaintext, structured};
use raggy::ingest::markdown::MdEvent;

fn chars(s: &str) -> Vec<char> {
    s.chars().collect()
}

#[test]
fn short_paragraphs_merge() {
    let chunks = plaintext::chunk_text("First paragraph.\n\nSecond paragraph.");
    assert_eq!(chunks, vec!["First paragraph. Second paragraph.".to_string()]);
}

#[test]
fn long_paragraphs_cut_at_sentence_ends() {
    let para = format!("{}. {}. {}", "a".repeat(500), "b".repeat(500), "c".repeat(100));
    let chunks = plaintext::chunk_text(&para);
    assert_eq!(chunks, vec![format!("{}.", "a".repeat(500)), format!("{}. {}", "b".repeat(500), "c".repeat(100))]);
}

#[test]
fn long_paragraphs_without_sentences_cut_at_spaces() {
    let para = "word ".repeat(250);
    let chunks = plaintext::chunk_text(&para);
    assert_eq!(chunks.len(), 2);
    assert_eq!(chunks[0].len(), 999);
    assert_eq!(chunks[1].len(), 249);
    assert!(chunks.iter().all(|c| c.len() <= plaintext::MAX_CHUNK));
}

#[test]
fn a_cut_inside_a_character_moves_back_to_it() {
    let para = format!("{}é{}", "a".repeat(999), "b".repeat(10));
    let chunks = plaintext::chunk_text(&para);
    assert_eq!(chunks, vec!["a".repeat(999), format!("é{}", "b".repeat(10))]);
    assert!(plaintext::try_chunk_text(&para).is_some());
    let mut next = 1u64;
    assert!(plaintext::try_extract("x.txt", &para, &mut next).is_some());
    assert!(next > 1);
    let wide = format!("a{}", "é".repeat(600));
    let chunks = plaintext::chunk_text(&wide);
    assert_eq!(chunks.concat(), wide);
    assert!(chunks.iter().all(|c| c.len() <= plaintext::MAX_CHUNK));
}

#[test]
fn plain_text_nodes_and_edges() {
    let mut next = 10u64;
    let (nodes, edges) = plaintext::extract("/docs/notes.txt", "Alpha.\n\nBeta.", &mut next);
    assert_eq!(next, 12);
    assert_eq!(nodes.len(), 2);
    assert_eq!(nodes[0].id, 10);
    assert_eq!(nodes[0].kind, NodeKind::Document);
    assert_eq!(nodes[0].name, "notes.txt");
    assert_eq!(nodes[0].properties.path.as_deref(), Some("/docs/notes.txt"));
    assert_eq!(nodes[0].properties.content_type, Some(ContentType::PlainText));
    assert_eq!(nodes[1].id, 11);
    assert_eq!(nodes[1].name, "chunk_11");
    assert_eq!(nodes[1].properties.text.as_deref(), Some("Alpha. Beta."));
    assert_eq!(nodes[1].properties.parent_section_id, Some(10));
    assert_eq!(edges.len(), 1);
    assert_eq!((edges[0].from, edges[0].to, edges[0].kind, edges[0].weight), (10, 11, EdgeKind::Contains, 1));
}

#[test]
fn consecutive_chunks_follow_each_other() {
    let text = format!("{}\n\n{}", "p".repeat(600), "q".repeat(600));
    let mut next = 1u64;
    let (nodes, edges) = plaintext::extract("t.txt", &text, &mut next);
    assert_eq!(nodes.len(), 3);
    assert_eq!(edges.len(), 3);
    assert_eq!((edges[2].from, edges[2].to, edges[2].kind), (2, 3, EdgeKind::Follows));
}

const RUST_FILE: &str = "use x;\nfn alpha() {\n}\n\npub fn beta(x: u32) {\n  x\n}\n";

#[test]
fn code_splits_at_definitions() {
    let sections = code::split_code_sections(RUST_FILE, "rust");
    assert_eq!(sections.len(), 2);
    assert_eq!(sections[0].name, "alpha");
    assert_eq!(sections[0].text, "fn alpha() {\n}\n");
    assert_eq!((sections[0].start_line, sections[0].end_line), (2, 4));
    assert_eq!(sections[1].name, "beta");
    assert_eq!(sections[1].text, "pub fn beta(x: u32) {\n  x\n}");
    assert_eq!((sections[1].start_line, sections[1].end_line), (5, 7));
}

#[test]
fn definition_names() {
    let n: String = code::extract_definition_name(&chars("export default class Foo extends Bar"), "javascript")
        .into_iter()
        .collect();
    assert_eq!(n, "Foo");
    let n: String = code::extract_definition_name(&chars("(lambda)"), "python").into_iter().collect();
    assert_eq!(n, "anonymous_python");
    let n: String = code::extract_definition_name(&chars("  async def fetch_all(x):"), "python").into_iter().collect();
    assert_eq!(n, "fetch_all");
}

#[test]
fn code_nodes_and_edges() {
    let mut next = 1u64;
    let (nodes, edges) = code::extract("src/lib.rs", RUST_FILE, "rust", &mut next);
    assert_eq!(next, 6);
    let ids: Vec<u64> = nodes.iter().map(|n| n.id).collect();
    assert_eq!(ids, vec![1, 2, 3, 4, 5]);
    assert_eq!(nodes[0].properties.content_type, Some(ContentType::Code { language: "rust".to_string() }));
    assert_eq!(nodes[1].kind, NodeKind::Section);
    assert_eq!(nodes[1].properties.section_kind.as_deref(), Some("function"));
    assert_eq!(nodes[2].name, "code_chunk_3");
    assert_eq!(nodes[2].properties.parent_section_id, Some(2));
    let links: Vec<(u64, u64, EdgeKind)> = edges.iter().map(|e| (e.from, e.to, e.kind)).collect();
    assert_eq!(
        links,
        vec![
            (1, 2, EdgeKind::Contains),
            (2, 3, EdgeKind::Contains),
            (1, 4, EdgeKind::Contains),
            (4, 5, EdgeKind::Contains),
            (2, 4, EdgeKind::Follows),
        ]
    );
}

#[test]
fn code_without_definitions_is_one_chunk() {
    let mut next = 1u64;
    let (nodes, edges) = code::extract("notes.rs", "just text\n", "rust", &mut next);
    assert_eq!(nodes.len(), 2);
    assert_eq!(nodes[1].name, "chunk_2");
    assert_eq!(nodes[1].properties.text.as_deref(), Some("just text\n"));
    assert_eq!(edges.len(), 1);
    assert_eq!(next, 3);
    let mut next = 1u64;
    let (nodes, edges) = code::extract("empty.rs", "  \n", "rust", &mut next);
    assert_eq!((nodes.len(), edges.len(), next), (1, 0, 2));
}

#[test]
fn markdown_title_is_the_first_h1_line() {
    assert_eq!(markdown::extract_title("intro\n  # Title here  \n# Second"), Some("Title here".to_string()));
    assert_eq!(markdown::extract_title("## Not a title"), None);
}

#[test]
fn markdown_builds_a_heading_tree() {
    let content = "# Guide\n\nIntro text.\n\n## Setup\n\nRun it.\n\n```\ncode here\n```\n";
    let mut next = 1u64;
    let (nodes, edges) = markdown::extract("docs/guide.md", content, &mut next).unwrap();
    assert_eq!(next, 7);
    assert_eq!(nodes[0].properties.title.as_deref(), Some("Guide"));
    assert_eq!(nodes[1].name, "Guide");
    assert_eq!(nodes[1].properties.depth, Some(1));
    assert_eq!(nodes[2].properties.text.as_deref(), Some("Intro text."));
    assert_eq!(nodes[3].name, "Setup");
    assert_eq!(nodes[4].properties.text.as_deref(), Some("Run it."));
    assert_eq!(nodes[5].name, "code_chunk_6");
    assert_eq!(nodes[5].properties.section_kind.as_deref(), Some("code"));
    assert_eq!(nodes[5].properties.text.as_deref(), Some("code here"));
    let links: Vec<(u64, u64)> = edges.iter().map(|e| (e.from, e.to)).collect();
    assert_eq!(links, vec![(1, 2), (2, 3), (2, 4), (4, 5), (4, 6)]);
    assert!(edges.iter().all(|e| e.kind == EdgeKind::Contains));
}

#[test]
fn sections_at_one_level_follow_each_other() {
    let events = vec![
        MdEvent::HeadingStart(2),
        MdEvent::Text("A".to_string()),
        MdEvent::HeadingEnd,
        MdEvent::HeadingStart(2),
        MdEvent::Text("B".to_string()),
        MdEvent::HeadingEnd,
        MdEvent::LinkStart("other.md".to_string()),
        MdEvent::Text("see".to_string()),
        MdEvent::LinkStart("https://example.com".to_string()),
        MdEvent::ParagraphEnd,
    ];
    let mut next = 1u64;
    let (nodes, edges) = markdown::extract_from_events("a.md", "", &events, &mut next).unwrap();
    assert_eq!(nodes.len(), 4);
    assert_eq!(nodes[3].properties.text.as_deref(), Some("[link:other.md]see"));
    assert_eq!(nodes[3].properties.parent_section_id, Some(3));
    let follows: Vec<(u64, u64, Option<u32>)> =
        edges.iter().filter(|e| e.kind == EdgeKind::Follows).map(|e| (e.from, e.to, e.properties.order)).collect();
    assert_eq!(follows, vec![(2, 3, Some(2))]);
}

#[test]
fn markdown_refuses_when_ids_run_out() {
    let mut next = u64::MAX;
    assert!(markdown::extract("a.md", "# T", &mut next).is_none());
    assert_eq!(next, u64::MAX);
}

#[test]
fn json_keys_become_sections() {
    let keys = structured::extract_top_level_keys("{\"b\": 1, \"a\": {\"x\": true}}", &ContentType::Json);
    assert_eq!(keys, vec![("a".to_string(), "{\n  \"x\": true\n}".to_string()), ("b".to_string(), "1".to_string())]);
    let mut next = 1u64;
    let (nodes, edges) = structured::extract("c.json", "{\"b\": 1, \"a\": 2}", &ContentType::Json, &mut next);
    assert_eq!(next, 6);
    assert_eq!(nodes[1].name, "a");
    assert_eq!(nodes[1].properties.section_kind.as_deref(), Some("key"));
    assert_eq!(nodes[2].properties.text.as_deref(), Some("2"));
    assert_eq!(edges.len(), 4);
}

#[test]
fn yaml_keys_that_are_not_strings_are_skipped() {
    let keys = structured::extract_top_level_keys("name: raggy\n1: one\nlist:\n  - a\n", &ContentType::Yaml);
    let names: Vec<&str> = keys.iter().map(|k| k.0.as_str()).collect();
    assert_eq!(names, vec!["name", "list"]);
    assert_eq!(keys[0].1, "raggy\n");
}

#[test]
fn toml_tables_list_their_keys() {
    let keys = structured::extract_top_level_keys("title = \"x\"\n[owner]\nname = \"y\"\n", &ContentType::Toml);
    let names: Vec<&str> = keys.iter().map(|k| k.0.as_str()).collect();
    assert_eq!(names, vec!["owner", "title"]);
}

#[test]
fn unparsable_structured_text_is_one_chunk() {
    let mut next = 1u64;
    let (nodes, _edges) = structured::extract("bad.json", "not json", &ContentType::Json, &mut next);
    assert_eq!(nodes.len(), 2);
    assert_eq!(nodes[1].properties.text.as_deref(), Some("not json"));
}

#[test]
fn nested_definitions_stay_in_their_section() {
    let content = "impl A {\n    fn f() {}\n}";
    let sections = code::split_code_sections(content, "rust");
    assert_eq!(sections.len(), 1);
    assert_eq!(sections[0].name, "A");
    assert_eq!(sections[0].text, content);
    assert_eq!((sections[0].start_line, sections[0].end_line), (1, 3));
}
