use raggy::entity::gliner::{build_prompt, build_spans, decode_spans, greedy_dedup, word_tokenize, MAX_WIDTH};
use raggy::entity::regex::{cooccurrence_pairs, extract_entities, extract_entities_from_text};
use raggy::entity::resolution::{resolve_entities, should_merge, try_should_merge, NerEntity, ResolutionResult};
use raggy::graph::{EdgeKind, EntityType, NodeKind};

#[test]
fn entities_by_pattern() {
    let text = "See https://example.com/docs) and ~/notes/todo.md or mail bob@example.org on 2024-01-15 for v1.2.3 of parse_query, HttpClient and THE_END.";
    let found: Vec<(EntityType, String)> =
        extract_entities_from_text(text).into_iter().map(|m| (m.entity_type, m.value)).collect();
    assert_eq!(
        found,
        vec![
            (EntityType::Url, "https://example.com/docs".to_string()),
            (EntityType::FilePath, "//example.com/docs".to_string()),
            (EntityType::FilePath, "~/notes/todo.md".to_string()),
            (EntityType::Email, "bob@example.org".to_string()),
            (EntityType::Date, "2024-01-15".to_string()),
            (EntityType::Version, "v1.2.3".to_string()),
            (EntityType::Identifier, "parse_query".to_string()),
            (EntityType::Identifier, "HttpClient".to_string()),
            (EntityType::Identifier, "THE_END".to_string()),
        ]
    );
}

#[test]
fn match_offsets_are_bytes() {
    let ms = extract_entities_from_text("é 2024-01-15");
    assert_eq!(ms.len(), 1);
    assert_eq!(ms[0].offset, 3);
}

#[test]
fn versions_and_dates_by_pattern() {
    // plain numbers such as "1.0" are not versions
    assert!(extract_entities_from_text("22 and 1.0").is_empty());
    let vs: Vec<String> =
        extract_entities_from_text("v1.0, 2.3.4 and 1.0-beta").into_iter().map(|m| m.value).collect();
    assert_eq!(vs, vec!["v1.0".to_string(), "2.3.4".to_string(), "1.0-beta".to_string()]);
    assert!(extract_entities_from_text("see The_End").is_empty());
    let ms = extract_entities_from_text("written December 3, 2023 and 01/02/2024");
    let dates: Vec<String> = ms.into_iter().filter(|m| m.entity_type == EntityType::Date).map(|m| m.value).collect();
    assert_eq!(dates, vec!["December 3, 2023".to_string(), "01/02/2024".to_string()]);
}

#[test]
fn known_entities_are_mentioned_and_new_ones_created() {
    let ms = extract_entities_from_text("bob@example.org and 2024-01-15");
    let mut next = 100u64;
    let (nodes, edges) = extract_entities(&ms, &vec![None, Some(77)], 5, &mut next);
    assert_eq!(next, 101);
    assert_eq!(nodes.len(), 1);
    assert_eq!((nodes[0].id, nodes[0].kind), (100, NodeKind::Entity));
    assert_eq!(nodes[0].name, "bob@example.org");
    assert_eq!(nodes[0].properties.entity_type, Some(EntityType::Email));
    let links: Vec<(u64, u64, EdgeKind)> = edges.iter().map(|e| (e.from, e.to, e.kind)).collect();
    assert_eq!(links, vec![(5, 100, EdgeKind::Mentions), (5, 77, EdgeKind::Mentions)]);
}

#[test]
fn co_occurring_pairs() {
    assert_eq!(cooccurrence_pairs(&vec![7, 8, 9]), vec![(7, 8), (7, 9), (8, 9)]);
    assert!(cooccurrence_pairs(&vec![7]).is_empty());
}

fn entity(id: i64, name: &str, t: &str, canonical: Option<i64>) -> NerEntity {
    NerEntity { id, name: name.to_string(), entity_type: t.to_string(), canonical_id: canonical }
}

#[test]
fn merge_rules() {
    assert!(should_merge("Dr. Jane Smith", "jane smith", "person"));
    assert!(should_merge("Jeffrey Epstein", "Epstein", "person"));
    assert!(should_merge("Jeffrey Epstein", "J. Epstein", "person"));
    assert!(!should_merge("Andrew Brettler", "Andrew", "person"));
    assert!(should_merge("Acme Corporation", "Acme", "organization"));
    assert!(should_merge("Globex Inc.", "globex", "organization"));
    assert!(should_merge("US Virgin Islands", "Virgin Islands", "location"));
    assert!(!should_merge("Paris", "Par", "location"));
    assert!(!should_merge("Apple", "apples", "product"));
}

#[test]
fn titles_are_cut_at_their_byte_length() {
    // The Kelvin sign lowercases to "k", so "king " is found, but five bytes
    // of the name itself are cut off: what is left is "g Arthur".
    assert_eq!(try_should_merge("\u{212A}ing Arthur", "g arthur", "person"), Some(true));
    assert_eq!(try_should_merge("King Arthur", "Arthur", "person"), Some(true));
}

#[test]
fn resolution_merges_aliases_into_longer_names() {
    let rows = vec![
        entity(2, "Acme", "organization", None),
        entity(1, "Acme Corporation", "organization", None),
        entity(4, "Smith", "person", None),
        entity(3, "Jane Smith", "person", None),
        entity(5, "Old Name", "person", Some(9)),
    ];
    let steps = resolve_entities(&rows).unwrap();
    let plan: Vec<(i64, i64)> = steps.iter().map(|s| (s.alias_id, s.canonical_id)).collect();
    assert_eq!(plan, vec![(2, 1), (4, 3)]);
    let result = ResolutionResult::of(&steps);
    assert_eq!(result.merges, 2);
    assert_eq!(result.details[1], ("Smith".to_string(), "Jane Smith".to_string()));
}

#[test]
fn an_alias_is_merged_only_once() {
    let rows = vec![
        entity(1, "Acme Holdings", "organization", None),
        entity(2, "Acme Group", "organization", None),
        entity(3, "Acme", "organization", None),
    ];
    let steps = resolve_entities(&rows).unwrap();
    let plan: Vec<(i64, i64)> = steps.iter().map(|s| (s.alias_id, s.canonical_id)).collect();
    // "Acme Group" and "Acme Holdings" both strip to "acme"; "Acme" is in both,
    // and once merged into the longest it is not merged again.
    assert_eq!(plan, vec![(2, 1), (3, 1)]);
}

#[test]
fn words_with_byte_spans() {
    let words = word_tokenize("GLiNER-small v2.1 rocks!");
    let got: Vec<(String, usize, usize)> = words.into_iter().map(|w| (w.text, w.start, w.end)).collect();
    assert_eq!(
        got,
        vec![
            ("GLiNER-small".to_string(), 0, 12),
            ("v2".to_string(), 13, 15),
            (".".to_string(), 15, 16),
            ("1".to_string(), 16, 17),
            ("rocks".to_string(), 18, 23),
            ("!".to_string(), 23, 24),
        ]
    );
}

#[test]
fn prompt_layout() {
    let p = build_prompt(&vec![vec![10], vec![11, 12]], &vec![vec![20], vec![21, 22], vec![]], 5, 6);
    assert_eq!(p.ids, vec![1, 5, 10, 5, 11, 12, 6, 20, 21, 22, 2]);
    assert_eq!(p.words_mask, vec![0, 0, 0, 0, 0, 0, 0, 1, 2, 0, 0]);
    assert_eq!(p.mask, vec![1; 11]);
}

#[test]
fn candidate_spans() {
    let (idx, mask) = build_spans(2);
    assert_eq!(idx.len(), 2 * 2 * MAX_WIDTH);
    assert_eq!(&idx[0..4], &[0, 0, 0, 1]);
    assert_eq!(&idx[2 * MAX_WIDTH..2 * MAX_WIDTH + 4], &[1, 1, 0, 0]);
    assert_eq!(mask.iter().filter(|b| **b).count(), 3);
    assert!(mask[0] && mask[1] && !mask[2] && mask[MAX_WIDTH]);
}

#[test]
fn chosen_spans_do_not_overlap() {
    assert_eq!(greedy_dedup(&vec![(0, 5), (3, 8), (6, 9), (10, 12)]), vec![0, 2, 3]);
    assert_eq!(greedy_dedup(&vec![(10, 12), (0, 5)]), vec![1, 0]);
}

#[test]
fn passing_scores_are_read_as_spans_inside_the_text() {
    // Two words, two labels: positions run start word, then width, then label.
    let labels = 2;
    let mut passed = vec![false; 2 * MAX_WIDTH * labels];
    passed[0] = true; // word 0, width 0, label 0
    passed[3] = true; // word 0, width 1, label 1
    passed[5] = true; // word 0, width 2: past the text
    passed[MAX_WIDTH * labels + 1] = true; // word 1, width 0, label 1
    passed[MAX_WIDTH * labels + 2] = true; // word 1, width 1: past the text
    assert_eq!(
        decode_spans(2, labels, &passed),
        vec![(0, 0, 0, 0), (3, 0, 1, 1), (MAX_WIDTH * labels + 1, 1, 1, 1)]
    );
    assert_eq!(decode_spans(2, 0, &Vec::new()), Vec::new());
    assert_eq!(decode_spans(0, 3, &Vec::new()), Vec::new());
}

#[test]
fn a_repeated_entity_is_created_once_per_chunk() {
    let ms = extract_entities_from_text("from 2024-01-15 to 2024-01-15");
    assert_eq!(ms.len(), 2);
    let mut next = 100u64;
    let (nodes, edges) = extract_entities(&ms, &vec![None, None], 5, &mut next);
    assert_eq!(next, 101);
    assert_eq!(nodes.len(), 1);
    assert_eq!(nodes[0].name, "2024-01-15");
    assert_eq!(nodes[0].properties.entity_type, Some(EntityType::Date));
    let links: Vec<(u64, u64)> = edges.iter().map(|e| (e.from, e.to)).collect();
    assert_eq!(links, vec![(5, 100), (5, 100)]);
}

#[test]
fn file_paths_are_found() {
    let ms = extract_entities_from_text("edit /usr/local/bin now");
    assert_eq!(ms.len(), 1);
    assert_eq!(ms[0].entity_type, EntityType::FilePath);
    assert_eq!(ms[0].value, "/usr/local/bin");
    assert_eq!(ms[0].offset, 5);
}

#[test]
fn written_merges_keep_the_stored_entities_one_level_deep() {
    let mut rows = vec![
        entity(1, "John Smith", "person", None),
        entity(2, "Smith", "person", None),
        entity(7, "J. Smith", "person", Some(2)),
    ];
    let steps = resolve_entities(&rows).unwrap();
    for s in &steps {
        for r in rows.iter_mut() {
            if r.id == s.alias_id || r.canonical_id == Some(s.alias_id) {
                r.canonical_id = Some(s.canonical_id);
            }
        }
    }
    for r in &rows {
        if let Some(c) = r.canonical_id {
            assert!(rows.iter().any(|t| t.id == c && t.canonical_id.is_none()));
        }
    }
    assert_eq!(rows[1].canonical_id, Some(1));
    assert_eq!(rows[2].canonical_id, Some(1));
}
