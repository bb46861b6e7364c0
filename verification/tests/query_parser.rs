use raggy::query::parser::{compute_dynamic_alpha, has_mixed_case, parse_query, parse_query_at, parse_query_at_reading, UtcTime};

#[test]
fn test_basic_query() {
    let plan = parse_query("deployment strategies").unwrap();
    assert!(plan.keywords.contains(&"deployment".to_string()));
    assert!(plan.keywords.contains(&"strategies".to_string()));
    assert!(plan.negations.is_empty());
}

#[test]
fn test_negation() {
    let plan = parse_query("deployment strategies not CI/CD").unwrap();
    assert!(plan.keywords.contains(&"deployment".to_string()));
    assert!(plan.negations.contains(&"CI/CD".to_string()));
}

#[test]
fn test_type_filter() {
    let plan = parse_query("blog post about deployment").unwrap();
    assert_eq!(plan.type_filter.as_deref(), Some("markdown"));
    assert!(plan.keywords.contains(&"deployment".to_string()));
}

#[test]
fn scope_is_cut_out_of_the_query() {
    let plan = parse_query("notes in ~/projects/raggy about search").unwrap();
    assert_eq!(plan.scope_filter.as_deref(), Some("~/projects/raggy"));
    assert_eq!(plan.type_filter.as_deref(), Some("plaintext"));
    assert_eq!(plan.keywords, vec!["search".to_string()]);
    // 50 + 10 (type) + 10 (scope); the path is cut out before entities are sought
    assert_eq!(plan.confidence, 70);
}

#[test]
fn dates_are_relative_to_now() {
    // 2024-01-03 12:00:00 UTC, a Wednesday
    let now = UtcTime { secs: 1_704_283_200, nanos: 5 };
    let plan = parse_query_at("release notes modified today", now).unwrap();
    let d = plan.date_filter.unwrap();
    assert_eq!(d.after, Some(UtcTime { secs: 1_704_240_000, nanos: 0 }));
    assert_eq!(d.before, None);

    let plan = parse_query_at("changes this week", now).unwrap();
    let d = plan.date_filter.unwrap();
    assert_eq!(d.after, Some(UtcTime { secs: 1_704_283_200 - 2 * 86_400, nanos: 5 }));

    let plan = parse_query_at("incidents last month", now).unwrap();
    let d = plan.date_filter.unwrap();
    assert_eq!(d.after, Some(UtcTime { secs: 1_704_283_200 - 30 * 86_400, nanos: 5 }));
    assert_eq!(d.before, Some(now));
    assert_eq!(plan.keywords, vec!["incidents".to_string()]);

    let plan = parse_query_at("recent deploys", now).unwrap();
    let d = plan.date_filter.unwrap();
    assert_eq!(d.after, Some(UtcTime { secs: 1_704_283_200 - 7 * 86_400, nanos: 5 }));
}

#[test]
fn days_before_the_epoch_round_down() {
    // 1969-12-31 23:00:00 UTC, a Wednesday
    let now = UtcTime { secs: -3600, nanos: 0 };
    let plan = parse_query_at("from today", now).unwrap();
    assert_eq!(plan.date_filter.unwrap().after, Some(UtcTime { secs: -86_400, nanos: 0 }));
    let plan = parse_query_at("this week", now).unwrap();
    assert_eq!(plan.date_filter.unwrap().after, Some(UtcTime { secs: -3600 - 2 * 86_400, nanos: 0 }));
}

#[test]
fn alpha_follows_the_query_shape() {
    // question word +15, two keywords -15, five words +10: 60
    let kws = vec!["deploy".to_string(), "service".to_string()];
    assert_eq!(compute_dynamic_alpha("how do we deploy the service", &kws), Some(60));
    // technical identifier -20, few keywords -15: 15
    let kws = vec!["parse_query".to_string()];
    assert_eq!(compute_dynamic_alpha("parse_query", &kws), Some(15));
    // quote -25, technical (a dot) -20, few keywords -15: clamped to 5
    assert_eq!(compute_dynamic_alpha("\"main.rs\"", &kws), Some(5));
}

#[test]
fn mixed_case_words() {
    assert!(has_mixed_case("getElementById"));
    assert!(has_mixed_case("CamelCase"));
    assert!(!has_mixed_case("Capitalised"));
    assert!(!has_mixed_case("lower"));
}

#[test]
fn a_wide_capital_first_letter_is_a_capital() {
    assert!(!has_mixed_case("Ärger"));
    assert!(has_mixed_case("ÄrGer"));
    let plan = parse_query("Ärger").unwrap();
    assert_eq!(plan.keywords, vec!["ärger".to_string()]);
    assert!(parse_query("Éa").is_some());
}

#[test]
fn plain_english_queries_from_the_readme() {
    let plan = parse_query("deployment strategies not kubernetes").unwrap();
    assert_eq!(plan.keywords, vec!["deployment".to_string(), "strategies".to_string()]);
    assert_eq!(plan.negations, vec!["kubernetes".to_string()]);

    // 2024-01-03 12:00:00 UTC
    let now = UtcTime { secs: 1_704_283_200, nanos: 5 };
    let plan = parse_query_at("pdfs about climate policy from last month", now).unwrap();
    assert_eq!(plan.type_filter.as_deref(), Some("pdf"));
    let d = plan.date_filter.unwrap();
    assert_eq!(d.after, Some(UtcTime { secs: 1_704_283_200 - 30 * 86_400, nanos: 5 }));
    assert_eq!(d.before, Some(now));
    assert_eq!(plan.keywords, vec!["climate".to_string(), "policy".to_string(), "from".to_string()]);

    let plan = parse_query_at("reports modified this month", now).unwrap();
    let d = plan.date_filter.unwrap();
    // midnight on 2024-01-01
    assert_eq!(d.after, Some(UtcTime { secs: 1_704_067_200, nanos: 0 }));
    assert_eq!(d.before, None);
    assert_eq!(plan.keywords, vec!["reports".to_string()]);
}

#[test]
fn last_week_is_the_seven_days_up_to_now() {
    let now = UtcTime { secs: 1_704_283_200, nanos: 5 };
    let plan = parse_query_at("changes last week", now).unwrap();
    let d = plan.date_filter.unwrap();
    assert_eq!(d.after, Some(UtcTime { secs: 1_704_283_200 - 7 * 86_400, nanos: 5 }));
    assert_eq!(d.before, Some(now));
    assert_eq!(plan.keywords, vec!["changes".to_string()]);
}

#[test]
fn explicit_date_ranges() {
    let now = UtcTime { secs: 1_704_283_200, nanos: 5 };
    let plan = parse_query_at("climate --from 2024-01 --to 2024-06", now).unwrap();
    let d = plan.date_filter.unwrap();
    // from the first instant of January to the last of June 2024
    assert_eq!(d.after, Some(UtcTime { secs: 1_704_067_200, nanos: 0 }));
    assert_eq!(d.before, Some(UtcTime { secs: 1_719_791_999, nanos: 999_999_999 }));
    assert_eq!(plan.keywords, vec!["climate".to_string()]);

    let plan = parse_query_at("budget --from 2024-02-29", now).unwrap();
    let d = plan.date_filter.unwrap();
    assert_eq!(d.after, Some(UtcTime { secs: 1_709_164_800, nanos: 0 }));
    assert_eq!(d.before, None);

    let plan = parse_query_at("audit --to 2023-12", now).unwrap();
    assert_eq!(plan.date_filter.unwrap().before, Some(UtcTime { secs: 1_704_067_199, nanos: 999_999_999 }));

    // an explicit bound replaces that end of a phrase's window
    let plan = parse_query_at("reports last month --from 2023-12", now).unwrap();
    let d = plan.date_filter.unwrap();
    assert_eq!(d.after, Some(UtcTime { secs: 1_701_388_800, nanos: 0 }));
    assert_eq!(d.before, Some(now));
    assert_eq!(plan.keywords, vec!["reports".to_string()]);
}

#[test]
fn a_date_that_does_not_exist_is_left_in_the_query() {
    let now = UtcTime { secs: 1_704_283_200, nanos: 5 };
    let plan = parse_query_at("audit --to 2023-02-29", now).unwrap();
    assert!(plan.date_filter.is_none());
    assert_eq!(plan.keywords, vec!["audit".to_string(), "--to".to_string(), "2023-02-29".to_string()]);
}

#[test]
fn a_clock_reading_dates_the_query() {
    // 2024-01-03 12:00:00.000000005 UTC
    let plan = parse_query_at_reading("incidents last month", 1_704_283_200, 5).unwrap();
    let d = plan.date_filter.unwrap();
    assert_eq!(d.before, Some(UtcTime { secs: 1_704_283_200, nanos: 5 }));
    assert_eq!(d.after, Some(UtcTime { secs: 1_704_283_200 - 30 * 86_400, nanos: 5 }));
    assert_eq!(plan.keywords, vec!["incidents".to_string()]);
}

#[test]
fn a_clock_reading_out_of_range_gives_no_plan() {
    assert!(parse_query_at_reading("deployment", u64::MAX, 0).is_none());
    assert!(parse_query_at_reading("deployment", 1_000_000_000_000_000, 0).is_none());
    assert!(parse_query_at_reading("deployment", 0, 2_000_000_000).is_none());
    assert!(parse_query_at_reading("deployment", 0, 0).is_some());
}

#[test]
fn keywords_are_their_own_lowercase() {
    let plan = parse_query("Kubernetes DEPLOYMENT Ärger").unwrap();
    assert_eq!(plan.keywords, vec!["kubernetes".to_string(), "deployment".to_string(), "ärger".to_string()]);
    for k in &plan.keywords {
        assert_eq!(*k, k.to_lowercase());
    }
}
