use raggy::config::{parse_labels, GlobalConfig, IndexConfig, QueryConfig};
use raggy::graph::traverse::PathSearch;
use raggy::graph::ContentType;
use raggy::index::fulltext::make_snippet;
use raggy::ingest::{
    count_text_chunks, document_record, embed_batch, extract_document, freshness, index_entries,
    ner_pairs, plaintext, plan_document, stored_copy_body, stored_copy_name, DocOutcome, DocumentInput,
    DocumentPlan, Freshness, IngestResult,
};
use raggy::serve::{default_depth, default_graph_limit, default_limit};
use raggy::workspace::{check_deletable, Workspace};

#[test]
fn snippet_of_a_short_text_is_the_text() {
    assert_eq!(make_snippet("short text about rust", "rust"), "short text about rust");
    assert_eq!(make_snippet("  no match here  ", "zzz"), "no match here");
}

#[test]
fn snippet_without_a_match_takes_the_first_window() {
    let content = "x".repeat(400);
    assert_eq!(make_snippet(&content, "zzz"), format!("{}...", "x".repeat(299)));
}

#[test]
fn snippet_centres_on_the_first_term() {
    let content = format!("{}target{}", "a ".repeat(200), " b".repeat(200));
    let expected = format!("...{}target{}...", "a ".repeat(75), " b".repeat(71));
    assert_eq!(make_snippet(&content, "the TARGET"), expected);
}

#[test]
fn snippet_cuts_move_to_character_boundaries() {
    // byte 300 falls inside an "é": the window ends at the boundary before it
    let content = format!("a{}", "é".repeat(200));
    assert_eq!(make_snippet(&content, "zzz"), format!("a{}...", "é".repeat(148)));
}

#[test]
fn snippet_keeps_the_term_when_the_window_has_no_spaces() {
    let content = format!("{}zz{} {}", "x".repeat(200), "x".repeat(188), "y".repeat(9));
    assert_eq!(make_snippet(&content, "zz"), format!("...{}zz{}...", "x".repeat(151), "x".repeat(148)));
}

#[test]
fn path_search_follows_reported_links() {
    let mut s = PathSearch::new(1, 4, 5);
    assert_eq!(s.next_node(), Some(1));
    s.visit(&vec![2, 3]);
    assert_eq!(s.next_node(), Some(2));
    s.visit(&vec![4]);
    assert_eq!(s.next_node(), None);
    assert_eq!(s.path(), Some(vec![1, 2, 4]));
}

#[test]
fn path_search_gives_up() {
    let mut s = PathSearch::new(1, 9, 5);
    assert_eq!(s.next_node(), Some(1));
    s.visit(&vec![2]);
    assert_eq!(s.next_node(), Some(2));
    s.visit(&vec![1]);
    assert_eq!(s.next_node(), None);
    assert_eq!(s.path(), None);
    let same = PathSearch::new(3, 3, 5);
    assert_eq!(same.path(), Some(vec![]));
}

#[test]
fn path_search_respects_the_depth_limit() {
    let mut s = PathSearch::new(1, 3, 1);
    assert_eq!(s.next_node(), Some(1));
    s.visit(&vec![2]);
    assert_eq!(s.next_node(), None);
    assert_eq!(s.path(), None);
}

#[test]
fn workspace_paths() {
    let ws = Workspace::resolve("/home/u/.raggy".to_string(), None, Some("work".to_string()), "default".to_string());
    assert_eq!(ws.db_name, "work");
    assert_eq!(ws.db_dir, "/home/u/.raggy/dbs/work");
    assert_eq!(ws.models_dir, "/home/u/.raggy/models");
    assert_eq!(ws.db_path(), "/home/u/.raggy/dbs/work/raggy.db");
    assert_eq!(ws.tantivy_dir(), "/home/u/.raggy/dbs/work/tantivy");
    assert_eq!(ws.vector_dir(), "/home/u/.raggy/dbs/work/vectors");
    assert_eq!(ws.documents_dir(), "/home/u/.raggy/dbs/work/documents");
    assert_eq!(ws.ner_model_dir("gliner"), "/home/u/.raggy/models/gliner");
    let ws = Workspace::resolve("/r".to_string(), Some("x"), Some("work".to_string()), "default".to_string());
    assert_eq!(ws.db_name, "x");
    let ws = Workspace::resolve("/r".to_string(), None, None, "default".to_string());
    assert_eq!(ws.db_name, "default");
    assert!(check_deletable("default").is_err());
    assert!(check_deletable("scratch").is_ok());
}

#[test]
fn settings_and_defaults() {
    assert_eq!(parse_labels(" person, org ,x"), vec!["person".to_string(), "org".to_string(), "x".to_string()]);
    assert_eq!(GlobalConfig::default().default_db, "default");
    assert_eq!(IndexConfig::default_excludes().exclude_patterns.len(), 5);
    assert_eq!(QueryConfig::standard().default_limit, 10);
    assert_eq!((default_limit(), default_graph_limit(), default_depth()), (10, 20, 5));
}

fn doc(id: &str, content: &str, ct: ContentType) -> DocumentInput {
    DocumentInput::new(id.to_string(), id.to_string(), content.to_string(), ct, content.len() as u64, "MOD".to_string())
}

#[test]
fn documents_are_hashed_and_stored_by_hash() {
    let d = doc("notes/a.md", "x", ContentType::Markdown);
    assert_eq!(d.content_hash, "2d711642b726b04401627ca9fbac32f5c8530fb1903cc4db02258717921a4881");
    assert_eq!(stored_copy_name(&d), Some("2d711642b726b044.md".to_string()));
    let c = doc("src/main.rs", "x", ContentType::Code { language: "rust".to_string() });
    assert_eq!(stored_copy_name(&c), Some("2d711642b726b044.rs".to_string()));
    assert_eq!(stored_copy_body(&c, "NOW"), "x");
    assert_eq!(
        stored_copy_body(&d, "NOW"),
        "---\nsource: notes/a.md\ntitle: notes/a.md\ntype: markdown\ningested: NOW\nmodified: MOD\n---\n\nx"
    );
}

#[test]
fn unchanged_documents_are_skipped() {
    assert_eq!(freshness(None, "h"), Freshness::New);
    assert_eq!(freshness(Some("h"), "h"), Freshness::Unchanged);
    assert_eq!(freshness(Some("g"), "h"), Freshness::Changed);
}

#[test]
fn outcomes_are_counted() {
    let mut r = IngestResult::new();
    r.record(DocOutcome::Indexed { chunks_embedded: 3 });
    r.record(DocOutcome::Skipped);
    r.record(DocOutcome::Failed);
    r.record(DocOutcome::Indexed { chunks_embedded: 2 });
    assert_eq!((r.files_indexed, r.files_skipped, r.files_failed, r.chunks_embedded), (2, 1, 1, 5));
}

#[test]
fn what_gets_indexed_and_embedded() {
    let mut next = 10u64;
    let (nodes, _edges) = plaintext::extract("/docs/notes.txt", "Alpha.\n\nBeta.", &mut next);
    let entries = index_entries(&nodes, "/docs/notes.txt", "plaintext");
    let got: Vec<(u64, String, String)> = entries.into_iter().map(|e| (e.node_id, e.text, e.title)).collect();
    assert_eq!(
        got,
        vec![
            (10, "Alpha.\n\nBeta.".to_string(), "notes.txt".to_string()),
            (10, "notes.txt".to_string(), "notes.txt".to_string()),
            (11, "Alpha. Beta.".to_string(), "chunk_11".to_string()),
        ]
    );
    assert_eq!(embed_batch(&nodes, "/docs/notes.txt"), vec![(11, "/docs/notes.txt".to_string(), "Alpha. Beta.".to_string())]);
    assert_eq!(count_text_chunks(&nodes), 1);
    assert_eq!(document_record(&nodes), (10, Some("notes.txt".to_string())));
}

#[test]
fn documents_go_to_the_extractor_of_their_type() {
    let d = doc("notes/a.md", "# T\n\nBody", ContentType::Markdown);
    let mut next = 1u64;
    let (nodes, edges) = extract_document(&d, &mut next).unwrap();
    assert_eq!(nodes[0].name, "a.md");
    assert_eq!(nodes.len(), 3);
    assert_eq!(edges.len(), 2);
    let j = doc("c.json", "{\"k\": 1}", ContentType::Json);
    let (nodes, _) = extract_document(&j, &mut next).unwrap();
    assert_eq!(nodes[1].name, "k");
    // Text taken from a PDF is split as plain text.
    let p = doc("r.pdf", "First sentence. Second sentence.", ContentType::Pdf);
    let (nodes, edges) = extract_document(&p, &mut next).unwrap();
    assert_eq!(nodes[0].name, "r.pdf");
    assert_eq!(nodes[0].properties.content_type, Some(ContentType::PlainText));
    assert_eq!(nodes.len(), 2);
    assert_eq!(edges.len(), 1);
}

#[test]
fn recognised_entity_pairs_skip_repeats() {
    assert_eq!(ner_pairs(&vec![1, 2, 1, 3]), vec![(1, 2), (1, 3), (2, 1), (2, 3), (1, 3)]);
}

/// Answers the search's questions from an adjacency list until it stops.
fn run_search(start: i64, end: i64, depth: usize, adj: &[(i64, Vec<i64>)]) -> Option<Vec<i64>> {
    let mut s = PathSearch::new(start, end, depth);
    while let Some(n) = s.next_node() {
        let neighbours = adj.iter().find(|(id, _)| *id == n).map(|(_, v)| v.clone()).unwrap_or_default();
        s.visit(&neighbours);
    }
    s.path()
}

#[test]
fn path_search_finds_a_shortest_chain() {
    // 1 -> 2 -> 4 -> 5 -> 6 is longer than 1 -> 3 -> 6.
    let adj = vec![(1, vec![2, 3]), (2, vec![4]), (3, vec![6]), (4, vec![5]), (5, vec![6])];
    assert_eq!(run_search(1, 6, 5, &adj), Some(vec![1, 3, 6]));
    assert_eq!(run_search(1, 5, 5, &adj), Some(vec![1, 2, 4, 5]));
    assert_eq!(run_search(1, 5, 2, &adj), None);
    assert_eq!(run_search(6, 1, 5, &adj), None);
}

#[test]
fn a_document_is_planned_by_its_stored_hash() {
    let d = doc("notes/a.md", "# Title\n\nSome body text.", ContentType::Markdown);
    let mut next = 10u64;
    assert!(matches!(plan_document(&d, Some(d.content_hash.as_str()), &mut next), DocumentPlan::Skip));
    assert_eq!(next, 10);
    match plan_document(&d, Some("an older hash"), &mut next) {
        DocumentPlan::Index { replace, nodes, edges, entries, embed, chunks, doc_node, title } => {
            assert!(replace);
            assert_eq!(doc_node, 10);
            assert_eq!(nodes[0].id, 10);
            assert_eq!(title, Some("Title".to_string()));
            assert_eq!(nodes.len(), 3);
            assert_eq!(edges.len(), 2);
            assert_eq!(chunks, 1);
            assert_eq!(embed.len() as u64, chunks);
            assert!(embed[0].2.contains("Some body text."));
            assert!(entries.iter().any(|e| e.text == "Title" && e.content_type == "markdown"));
        }
        _ => panic!("expected the document to be indexed"),
    }
    assert_eq!(next, 13);
    let mut fresh = 1u64;
    assert!(matches!(plan_document(&d, None, &mut fresh), DocumentPlan::Index { replace: false, .. }));
    let mut full = u64::MAX;
    assert!(matches!(plan_document(&d, Some("old"), &mut full), DocumentPlan::Fail { replace: true }));
    assert_eq!(full, u64::MAX);
}

#[test]
fn path_search_repeats_an_unanswered_question() {
    let mut s = PathSearch::new(1, 5, 3);
    assert_eq!(s.next_node(), Some(1));
    assert_eq!(s.next_node(), Some(1));
    s.visit(&vec![2]);
    assert_eq!(s.next_node(), Some(2));
    assert_eq!(s.next_node(), Some(2));
    s.visit(&vec![]);
    assert_eq!(s.next_node(), None);
    assert_eq!(s.next_node(), None);
    assert_eq!(s.path(), None);
}

#[test]
fn path_search_gives_up_only_after_the_whole_depth_limit() {
    // 1 - 2 - 3 - 4 and 1 - 5: with three links allowed, every entity
    // fewer than three links away is asked about before giving up on 9.
    let adj = vec![(1, vec![2, 5]), (2, vec![3]), (3, vec![4]), (5, vec![])];
    let mut s = PathSearch::new(1, 9, 3);
    let mut asked = Vec::new();
    while let Some(n) = s.next_node() {
        asked.push(n);
        let neighbours = adj.iter().find(|(a, _)| *a == n).map(|(_, b)| b.clone()).unwrap_or_default();
        s.visit(&neighbours);
    }
    assert_eq!(asked, vec![1, 2, 5, 3]);
    assert_eq!(s.path(), None);
}

#[test]
fn same_content_is_stored_under_one_name() {
    let a = doc("notes/a.md", "same text", ContentType::Markdown);
    let b = doc("elsewhere/b.txt", "same text", ContentType::PlainText);
    assert_eq!(stored_copy_name(&a), stored_copy_name(&b));
    let c = doc("notes/c.md", "other text", ContentType::Markdown);
    assert_ne!(stored_copy_name(&a), stored_copy_name(&c));
    let x = doc("src/x.rs", "fn f() {}", ContentType::Code { language: "rust".to_string() });
    let y = doc("lib/y.rs", "fn f() {}", ContentType::Code { language: "rust".to_string() });
    assert_eq!(stored_copy_name(&x), stored_copy_name(&y));
}
