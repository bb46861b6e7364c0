use raggy::config::{meta_pair, parse_bool, parse_setting, parse_usize, ConfigError, Setting, Settings};
use raggy::entity::gradient::{gradient_groups, gradient_merges, MIN_GRADIENT_NAME_LEN};
use raggy::entity::regex::pattern_entities;
use raggy::entity::resolution::{rewired_pair, NerEntity};
use raggy::ingest::structured::extract_keyed;
use raggy::graph::traverse::find_documents_for_entities;
use raggy::graph::{plain_edge, ContentType, EdgeKind, NodeKind};
use raggy::index::fulltext::{escape_query, truncate_snippet};
use raggy::index::vectors::{kept_positions, VectorMeta};
use raggy::ingest::DocumentInput;

fn entity(id: i64, name: &str, t: &str, canonical: Option<i64>) -> NerEntity {
    NerEntity { id, name: name.to_string(), entity_type: t.to_string(), canonical_id: canonical }
}

#[test]
fn gradient_groups_skip_resolved_and_short_names() {
    let rows = vec![
        entity(1, "FBI", "organization", None),
        entity(2, "Federal Bureau of Investigation", "organization", None),
        entity(3, "US", "location", None),
        entity(4, "Acme Inc", "organization", Some(9)),
        entity(5, "New York", "location", None),
    ];
    let groups = gradient_groups(&rows);
    assert_eq!(MIN_GRADIENT_NAME_LEN, 3);
    assert_eq!(groups.len(), 2);
    assert_eq!(
        groups[0],
        vec![(2, "Federal Bureau of Investigation".to_string()), (1, "FBI".to_string())]
    );
    assert_eq!(groups[1], vec![(5, "New York".to_string())]);
}

#[test]
fn gradient_merges_follow_the_similarity_tables() {
    let groups = vec![vec![
        (2, "Federal Bureau of Investigation".to_string()),
        (7, "Bureau".to_string()),
        (1, "FBI".to_string()),
    ]];
    // Row i, column j: whether entries i and j are close enough.
    let similar = vec![vec![
        vec![true, false, true],
        vec![false, true, true],
        vec![true, true, true],
    ]];
    let merges = gradient_merges(&groups, &similar);
    assert_eq!(merges.len(), 1);
    assert_eq!(merges[0].alias_id, 1);
    assert_eq!(merges[0].canonical_id, 2);
    assert_eq!(merges[0].alias_name, "FBI");
    assert_eq!(merges[0].canonical_name, "Federal Bureau of Investigation");
}

#[test]
fn gradient_merges_without_similar_pairs_are_none() {
    let groups = vec![vec![(1, "alpha".to_string()), (2, "beta".to_string())]];
    let similar = vec![vec![vec![false, false], vec![false, false]]];
    assert!(gradient_merges(&groups, &similar).is_empty());
    assert!(gradient_merges(&Vec::new(), &Vec::new()).is_empty());
}

#[test]
fn alias_edges_move_to_the_canonical_entity() {
    assert_eq!(rewired_pair(5, 2, 5, 9), Some((2, 9)));
    assert_eq!(rewired_pair(5, 12, 3, 5), Some((3, 12)));
    assert_eq!(rewired_pair(5, 2, 2, 5), None);
}

#[test]
fn documents_are_found_through_chunks_and_sections() {
    // doc 1 > chunk 10 mentions entity 100; doc 2 > section 20 > chunk 21
    // mentions entity 100; doc 3 > chunk 30 mentions entity 200.
    let edges = vec![
        plain_edge(1, 10, EdgeKind::Contains),
        plain_edge(10, 100, EdgeKind::Mentions),
        plain_edge(2, 20, EdgeKind::Contains),
        plain_edge(20, 21, EdgeKind::Contains),
        plain_edge(21, 100, EdgeKind::Mentions),
        plain_edge(3, 30, EdgeKind::Contains),
        plain_edge(30, 200, EdgeKind::Mentions),
    ];
    let kinds = vec![
        (1, NodeKind::Document),
        (2, NodeKind::Document),
        (3, NodeKind::Document),
        (10, NodeKind::Chunk),
        (20, NodeKind::Section),
        (21, NodeKind::Chunk),
        (30, NodeKind::Chunk),
    ];
    let mut docs = find_documents_for_entities(&vec![100], &edges, &kinds);
    docs.sort();
    assert_eq!(docs, vec![1, 2]);
    let mut all = find_documents_for_entities(&vec![100, 200, 100], &edges, &kinds);
    all.sort();
    assert_eq!(all, vec![1, 2, 3]);
    assert!(find_documents_for_entities(&vec![300], &edges, &kinds).is_empty());
}

#[test]
fn unknown_containers_lead_nowhere() {
    let edges = vec![plain_edge(1, 10, EdgeKind::Contains), plain_edge(10, 100, EdgeKind::Mentions)];
    assert!(find_documents_for_entities(&vec![100], &edges, &Vec::new()).is_empty());
}

#[test]
fn whole_numbers_read_as_str_parse_does() {
    assert_eq!(parse_usize("25"), Some(25));
    assert_eq!(parse_usize("+7"), Some(7));
    assert_eq!(parse_usize("007"), Some(7));
    assert_eq!(parse_usize(""), None);
    assert_eq!(parse_usize("+"), None);
    assert_eq!(parse_usize("-1"), None);
    assert_eq!(parse_usize(" 5"), None);
    assert_eq!(parse_usize("12a"), None);
    assert_eq!(parse_usize("99999999999999999999999"), None);
    assert_eq!(parse_usize(&usize::MAX.to_string()), Some(usize::MAX));
    for s in ["0", "+0", "42", "1x", "", "18446744073709551616"] {
        assert_eq!(parse_usize(s), s.parse::<usize>().ok());
    }
}

#[test]
fn booleans_read_as_str_parse_does() {
    assert_eq!(parse_bool("true"), Some(true));
    assert_eq!(parse_bool("false"), Some(false));
    assert_eq!(parse_bool("True"), None);
    assert_eq!(parse_bool("1"), None);
}

#[test]
fn settings_are_read_by_key() {
    assert!(matches!(parse_setting("query.default_limit", "25"), Ok(Setting::DefaultLimit(25))));
    assert!(matches!(parse_setting("query.default_limit", "many"), Err(ConfigError::InvalidNumber)));
    assert!(matches!(parse_setting("llm.enabled", "true"), Ok(Setting::LlmEnabled(true))));
    assert!(matches!(parse_setting("ner.enabled", "yes"), Err(ConfigError::InvalidBool)));
    assert!(matches!(parse_setting("nope", "1"), Err(ConfigError::UnknownKey)));
    assert!(matches!(parse_setting("index.exclude_patterns", "x"), Err(ConfigError::UnknownKey)));
    match parse_setting("ner.labels", "person, organization ,location") {
        Ok(Setting::NerLabels(v)) => assert_eq!(v, vec!["person", "organization", "location"]),
        _ => panic!("labels not read"),
    }
    match parse_setting("embedding.alpha", "0.7") {
        Ok(Setting::EmbeddingAlpha(v)) => assert_eq!(v, "0.7"),
        _ => panic!("alpha not kept"),
    }
    match parse_setting("query.default_format", "json") {
        Ok(Setting::DefaultFormat(v)) => assert_eq!(v, "json"),
        _ => panic!("format not kept"),
    }
}

#[test]
fn listing_snippets_fit_one_line() {
    assert_eq!(truncate_snippet("a\nb", 10), "a b");
    assert_eq!(truncate_snippet("hello world", 5), "hello...");
    assert_eq!(truncate_snippet("héllo", 5), "héllo");
    assert_eq!(truncate_snippet("", 0), "");
}

#[test]
fn metadata_pairs_split_at_the_first_equals() {
    assert_eq!(meta_pair("author=Ann"), Some(("author".to_string(), "Ann".to_string())));
    assert_eq!(meta_pair("expr=a=b"), Some(("expr".to_string(), "a=b".to_string())));
    assert_eq!(meta_pair("=x"), Some((String::new(), "x".to_string())));
    assert_eq!(meta_pair("novalue"), None);
}

#[test]
fn refused_queries_have_their_brackets_escaped() {
    assert_eq!(escape_query("f(x) [y]"), "f\\(x\\) \\[y\\]");
    assert_eq!(escape_query("plain"), "plain");
}

#[test]
fn a_commit_keeps_vectors_of_documents_not_deleted() {
    let meta = vec![
        VectorMeta { node_id: 1, doc_path: "/a".to_string() },
        VectorMeta { node_id: 2, doc_path: "/b".to_string() },
        VectorMeta { node_id: 3, doc_path: "/a".to_string() },
        VectorMeta { node_id: 4, doc_path: "/c".to_string() },
    ];
    assert_eq!(kept_positions(&meta, &vec!["/a".to_string()]), vec![1, 3]);
    assert_eq!(kept_positions(&meta, &Vec::new()), vec![0, 1, 2, 3]);
    assert!(kept_positions(&meta, &vec!["/a".to_string(), "/b".to_string(), "/c".to_string()]).is_empty());
}

#[test]
fn uploads_are_hashed_by_their_bytes() {
    let doc = DocumentInput::from_bytes(
        "up.txt".to_string(),
        "up.txt".to_string(),
        b"abc",
        "text".to_string(),
        ContentType::PlainText,
        "2024-01-01T00:00:00Z".to_string(),
    );
    assert_eq!(doc.content_hash, "ba7816bf8f01cfea414140de5dae2223b00361a396177a9cb410ff61f20015ad");
    assert_eq!(doc.size, 3);
    assert_eq!(doc.content, "text");
}

#[test]
fn kept_matches_come_from_the_given_spans() {
    // Pattern 1 (file paths) keeps only spans holding a slash and longer
    // than two bytes.
    let text = "see /etc/hosts and ab";
    let found = pattern_entities(text, 1, &vec![(4, 14), (19, 21)]);
    assert_eq!(found.len(), 1);
    assert_eq!(found[0].value, "/etc/hosts");
    assert_eq!(found[0].offset, 4);
    assert!(pattern_entities(text, 1, &Vec::new()).is_empty());
}

#[test]
fn structured_graph_follows_the_given_keys() {
    let keys = vec![("name".to_string(), "\"raggy\"".to_string()), ("version".to_string(), "1".to_string())];
    let mut next = 5u64;
    let (nodes, edges) = extract_keyed("cfg/app.json", "{}", &ContentType::Json, &keys, &mut next);
    assert_eq!(next, 10);
    assert_eq!(nodes.len(), 5);
    assert_eq!(nodes[1].name, "name");
    assert_eq!(nodes[2].properties.text, Some("\"raggy\"".to_string()));
    assert_eq!(nodes[3].id, 8);
    assert_eq!(edges.len(), 4);
    let mut n2 = 1u64;
    let (whole, _) = extract_keyed("a.yaml", "just text", &ContentType::Yaml, &Vec::new(), &mut n2);
    assert_eq!(whole.len(), 2);
    assert_eq!(n2, 3);
}

fn sample_settings() -> Settings {
    Settings {
        default_format: "text".to_string(),
        default_limit: 10,
        llm_enabled: false,
        embedding_enabled: true,
        embedding_model: "all-MiniLM-L6-v2".to_string(),
        ner_enabled: true,
        ner_model: "gliner_small-v2.1".to_string(),
        ner_labels: vec!["person".to_string()],
    }
}

#[test]
fn config_set_changes_only_the_named_setting() {
    let mut s = sample_settings();
    assert!(matches!(s.set("query.default_format", "json"), Ok(None)));
    assert_eq!(s.default_format, "json");
    assert_eq!(s.default_limit, 10);
    assert_eq!(s.embedding_model, "all-MiniLM-L6-v2");
    assert_eq!(s.ner_model, "gliner_small-v2.1");

    assert!(matches!(s.set("llm.enabled", "true"), Ok(None)));
    assert!(s.llm_enabled);
    assert_eq!(s.default_format, "json");

    match s.set("embedding.alpha", "0.4") {
        Ok(Some(Setting::EmbeddingAlpha(v))) => assert_eq!(v, "0.4"),
        _ => panic!("the score is handed back"),
    }
    assert_eq!(s.default_format, "json");
    assert!(s.llm_enabled);
}

#[test]
fn a_refused_setting_changes_nothing() {
    let mut s = sample_settings();
    assert!(matches!(s.set("query.default_limit", "many"), Err(ConfigError::InvalidNumber)));
    assert!(matches!(s.set("ner.enabled", "yes"), Err(ConfigError::InvalidBool)));
    assert!(matches!(s.set("index.exclude_patterns", "x"), Err(ConfigError::UnknownKey)));
    assert_eq!(s.default_limit, 10);
    assert!(s.ner_enabled);
    assert_eq!(s.default_format, "text");
    assert_eq!(s.ner_labels, vec!["person".to_string()]);
}
