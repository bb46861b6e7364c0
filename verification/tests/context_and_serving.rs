use raggy::graph::context::chunk_window;
use raggy::mcp::{
    route, status_text, unknown_method_message, unknown_tool_message, Route, METHOD_NOT_FOUND,
    PARSE_ERROR,
};
use raggy::query::parser::{parse_query_at, DateRange, UtcTime};
use raggy::query::plan::{fetch_count, keep_candidate, merge_slots, negation_text, search_text, within_dates, HitSlot};
use raggy::watch::{classify_events, ChangeKind, FsEvent};

fn siblings() -> Vec<(u64, String)> {
    vec![
        (1, "one".to_string()),
        (2, "two".to_string()),
        (3, "three".to_string()),
        (4, "four".to_string()),
        (5, "five".to_string()),
    ]
}

#[test]
fn window_takes_neighbours_on_both_sides() {
    assert_eq!(chunk_window(&siblings(), 3, 1), "two\n\nthree\n\nfour");
}

#[test]
fn window_is_cut_at_the_edges() {
    assert_eq!(chunk_window(&siblings(), 1, 2), "one\n\ntwo\n\nthree");
    assert_eq!(chunk_window(&siblings(), 5, 1), "four\n\nfive");
    assert_eq!(chunk_window(&siblings(), 2, 10), "one\n\ntwo\n\nthree\n\nfour\n\nfive");
}

#[test]
fn window_of_zero_is_the_chunk_alone() {
    assert_eq!(chunk_window(&siblings(), 4, 0), "four");
}

#[test]
fn window_of_an_unknown_chunk_is_empty() {
    assert_eq!(chunk_window(&siblings(), 9, 1), "");
    assert_eq!(chunk_window(&Vec::new(), 1, 1), "");
}

fn noon() -> UtcTime {
    UtcTime { secs: 1_700_000_000, nanos: 0 }
}

#[test]
fn search_and_negation_texts_join_words() {
    let plan = parse_query_at("deployment strategies not jenkins", noon()).unwrap();
    assert_eq!(search_text(&plan), Some("deployment strategies".to_string()));
    assert_eq!(negation_text(&plan), Some("jenkins".to_string()));
    let bare = parse_query_at("deployment", noon()).unwrap();
    assert_eq!(negation_text(&bare), None);
}

#[test]
fn no_keywords_searches_for_nothing() {
    let plan = parse_query_at("", noon()).unwrap();
    assert_eq!(search_text(&plan), None);
}

#[test]
fn three_times_as_many_are_fetched() {
    assert_eq!(fetch_count(10), 30);
    assert_eq!(fetch_count(0), 0);
}

#[test]
fn filters_keep_matching_candidates() {
    let plan = parse_query_at("blog post about deployment in ~/notes", noon()).unwrap();
    assert_eq!(plan.type_filter, Some("markdown".to_string()));
    assert_eq!(plan.scope_filter, Some("~/notes".to_string()));
    assert!(keep_candidate("markdown", "~/notes/a.md", &plan));
    assert!(!keep_candidate("code", "~/notes/a.md", &plan));
    assert!(!keep_candidate("markdown", "/home/me/work/a.md", &plan));
    let open = parse_query_at("deployment", noon()).unwrap();
    assert!(keep_candidate("anything", "/anywhere", &open));
}

#[test]
fn date_window_bounds_are_inclusive() {
    let range = DateRange {
        after: Some(UtcTime { secs: 100, nanos: 0 }),
        before: Some(UtcTime { secs: 200, nanos: 0 }),
    };
    assert!(within_dates(Some(UtcTime { secs: 100, nanos: 0 }), &range));
    assert!(within_dates(Some(UtcTime { secs: 200, nanos: 0 }), &range));
    assert!(within_dates(Some(UtcTime { secs: 150, nanos: 7 }), &range));
    assert!(!within_dates(Some(UtcTime { secs: 99, nanos: 999 }), &range));
    assert!(!within_dates(Some(UtcTime { secs: 200, nanos: 1 }), &range));
    assert!(within_dates(None, &range));
    let open = DateRange { after: None, before: None };
    assert!(within_dates(Some(UtcTime { secs: -5, nanos: 0 }), &open));
}

#[test]
fn requests_are_routed_by_method_and_tool() {
    assert_eq!(route("initialize", ""), Route::Initialize);
    assert_eq!(route("ping", ""), Route::Ping);
    assert_eq!(route("tools/list", ""), Route::ToolsList);
    assert_eq!(route("tools/call", "search"), Route::Search);
    assert_eq!(route("tools/call", "status"), Route::Status);
    assert_eq!(route("tools/call", "graph"), Route::Graph);
    assert_eq!(route("tools/call", "delete"), Route::UnknownTool);
    assert_eq!(route("resources/list", "search"), Route::UnknownMethod);
}

#[test]
fn error_messages_and_codes() {
    assert_eq!(unknown_tool_message("delete"), "Unknown tool: delete");
    assert_eq!(unknown_method_message("foo/bar"), "Method not found: foo/bar");
    assert_eq!(METHOD_NOT_FOUND, -32601);
    assert_eq!(PARSE_ERROR, -32700);
}

#[test]
fn status_reply_lists_the_counts() {
    assert_eq!(
        status_text(3, 42, 7, 19, "2024-01-01T00:00:00Z"),
        "RAGgy Index Status\n\nDocuments : 3\nNodes     : 42\nEntities  : 7 (canonical)\nMentions  : 19\nLast indexed: 2024-01-01T00:00:00Z"
    );
}

fn event(path: &str, is_dir: bool, exists: bool, kind: ChangeKind) -> FsEvent {
    FsEvent { path: path.to_string(), is_dir, exists, kind }
}

#[test]
fn settled_changes_are_sorted_into_index_and_remove() {
    let events = vec![
        event("/w/a.md", false, true, ChangeKind::Any),
        event("/w/b.md", false, false, ChangeKind::Any),
        event("/w/dir", true, true, ChangeKind::Any),
        event("/w/c.md", false, true, ChangeKind::AnyContinuous),
        event("/w/a.md", false, true, ChangeKind::Any),
        event("/w/b.md", false, false, ChangeKind::Any),
        event("/w/d.md", false, true, ChangeKind::Any),
    ];
    let (ix, del) = classify_events(&events);
    assert_eq!(ix, vec!["/w/a.md".to_string(), "/w/d.md".to_string()]);
    assert_eq!(del, vec!["/w/b.md".to_string()]);
}

#[test]
fn no_events_change_nothing() {
    let (ix, del) = classify_events(&Vec::new());
    assert!(ix.is_empty());
    assert!(del.is_empty());
}

#[test]
fn chunks_found_by_one_search_only_are_kept() {
    let merged = merge_slots(&vec![5, 3, 5], &vec![7, 3, 9, 7]);
    assert_eq!(
        merged,
        vec![(5, HitSlot::Keyword(0)), (3, HitSlot::Keyword(1)), (7, HitSlot::Vector(0)), (9, HitSlot::Vector(2))]
    );
    assert_eq!(merge_slots(&vec![], &vec![4, 4]), vec![(4, HitSlot::Vector(0))]);
    assert_eq!(merge_slots(&vec![1], &vec![]), vec![(1, HitSlot::Keyword(0))]);
}
