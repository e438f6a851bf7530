use cpaste::classifier::{classify, classify_untimed, classify_with_budget, SmartGroupConfig};
use cpaste::models::{SmartGroup, SmartGroupExample, SmartGroupRule};
use std::time::Duration;

fn group(id: i64, name: &str) -> SmartGroup {
    SmartGroup {
        id,
        name: name.into(),
        description: "".into(),
        color: "#000".into(),
        icon: "".into(),
        enabled: true,
        auto_match_enabled: true,
        is_sensitive: false,
        sort_order: 0,
        created_at: 0,
        updated_at: 0,
    }
}

fn rule(id: i64, group_id: i64, rule_type: &str, pattern: &str, weight_milli: i32) -> SmartGroupRule {
    SmartGroupRule {
        id,
        group_id,
        rule_type: rule_type.into(),
        pattern: pattern.into(),
        weight_milli,
        enabled: true,
        created_at: 0,
        updated_at: 0,
    }
}

fn example(id: i64, group_id: i64, text: &str) -> SmartGroupExample {
    SmartGroupExample {
        id,
        group_id,
        example_text: text.into(),
        note: "".into(),
        enabled: true,
        created_at: 0,
        updated_at: 0,
    }
}

#[test]
fn test_simple_keyword_match() {
    let g = SmartGroup {
        id: 1, name: "Book IDs".into(), description: "".into(), color: "#000".into(),
        icon: "".into(), enabled: true, auto_match_enabled: true, is_sensitive: false,
        sort_order: 0, created_at: 0, updated_at: 0,
    };
    // weight 1.0
    let rules = vec![SmartGroupRule {
        id: 1, group_id: 1, rule_type: "keyword".into(), pattern: "book_id".into(),
        weight_milli: 1000, enabled: true, created_at: 0, updated_at: 0,
    }];
    let config = SmartGroupConfig::build(vec![g], rules, vec![]);

    let result = classify("book_id: 123456", "text", &config, None);
    assert!(result.smart_group_id.is_some());
    assert_eq!(result.smart_group_name, "Book IDs");
    assert!(result.confidence_e5 > 0);
}

#[test]
fn test_regex_match() {
    let g = SmartGroup {
        id: 2, name: "Table Names".into(), description: "".into(), color: "#000".into(),
        icon: "".into(), enabled: true, auto_match_enabled: true, is_sensitive: false,
        sort_order: 0, created_at: 0, updated_at: 0,
    };
    let rules = vec![SmartGroupRule {
        id: 2, group_id: 2, rule_type: "regex".into(), pattern: r"^dwd_".into(),
        weight_milli: 1000, enabled: true, created_at: 0, updated_at: 0,
    }];
    let config = SmartGroupConfig::build(vec![g], rules, vec![]);

    let result = classify("dwd_content_publish", "text", &config, None);
    assert!(result.smart_group_id.is_some());
    assert_eq!(result.smart_group_name, "Table Names");
}

#[test]
fn test_no_match_below_threshold() {
    let g = SmartGroup {
        id: 3, name: "Test".into(), description: "".into(), color: "#000".into(),
        icon: "".into(), enabled: true, auto_match_enabled: true, is_sensitive: false,
        sort_order: 0, created_at: 0, updated_at: 0,
    };
    let rules = vec![SmartGroupRule {
        id: 3, group_id: 3, rule_type: "keyword".into(), pattern: "xyz_nonexistent".into(),
        weight_milli: 1000, enabled: true, created_at: 0, updated_at: 0,
    }];
    let config = SmartGroupConfig::build(vec![g], rules, vec![]);

    let result = classify("hello world", "text", &config, None);
    assert!(result.smart_group_id.is_none());
}

#[test]
fn test_skip_image() {
    let g = SmartGroup {
        id: 4, name: "Any".into(), description: "".into(), color: "#000".into(),
        icon: "".into(), enabled: true, auto_match_enabled: true, is_sensitive: false,
        sort_order: 0, created_at: 0, updated_at: 0,
    };
    let config = SmartGroupConfig::build(vec![g], vec![], vec![]);
    let result = classify("something", "image", &config, None);
    assert!(result.smart_group_id.is_none());
    assert_eq!(result.reason, "non-text content");
}

#[test]
fn test_example_template_match() {
    let g = SmartGroup {
        id: 5, name: "IDs".into(), description: "".into(), color: "#000".into(),
        icon: "".into(), enabled: true, auto_match_enabled: true, is_sensitive: false,
        sort_order: 0, created_at: 0, updated_at: 0,
    };
    let examples = vec![SmartGroupExample {
        id: 1, group_id: 5, example_text: "book_id: 123456".into(),
        note: "".into(), enabled: true, created_at: 0, updated_at: 0,
    }];
    let config = SmartGroupConfig::build(vec![g], vec![], examples);

    let result = classify("drama_id: ABC_789", "text", &config, None);
    // Should match the template (contains _ and : and digits)
    assert!(result.smart_group_id.is_some());
}

#[test]
fn test_budget_timeout() {
    let g = SmartGroup {
        id: 6, name: "Slow".into(), description: "".into(), color: "#000".into(),
        icon: "".into(), enabled: true, auto_match_enabled: true, is_sensitive: false,
        sort_order: 0, created_at: 0, updated_at: 0,
    };
    let config = SmartGroupConfig::build(vec![g], vec![], vec![]);
    // Use extremely short budget
    let result = classify("test", "text", &config, Some(Duration::from_nanos(1)));
    // Should timeout and return none
    assert!(result.smart_group_id.is_none());
}

// ───────── further cases ─────────

#[test]
fn keyword_match_records_score_reason_and_confidence() {
    let config = SmartGroupConfig::build(
        vec![group(1, "Book IDs")],
        vec![rule(1, 1, "keyword", "  Book_ID ", 1500)],
        vec![],
    );
    let r = classify("my BOOK_ID: 42", "text", &config, None);
    assert_eq!(r.smart_group_id, Some(1));
    assert_eq!(r.reason, "keyword:  Book_ID  (75)");
    assert_eq!(r.confidence_e5, 75_000);
    assert_eq!(r.match_type, "auto");
}

#[test]
fn fractional_scores_are_written_in_decimal() {
    let config = SmartGroupConfig::build(
        vec![group(1, "G")],
        vec![rule(1, 1, "regex", "x", 1234), rule(2, 1, "keyword", "x", 0)],
        vec![],
    );
    // 80 * 1.234 = 98.72 points
    let r = classify("x", "text", &config, None);
    assert_eq!(r.smart_group_id, Some(1));
    assert_eq!(r.reason, "regex:x (98.72); keyword:x (0)");
    assert_eq!(r.confidence_e5, 98_720);
}

#[test]
fn weak_single_keyword_is_below_threshold() {
    let config = SmartGroupConfig::build(
        vec![group(1, "G")],
        vec![rule(1, 1, "contains", "abc", 1000)],
        vec![],
    );
    let r = classify("xxabcxx", "text", &config, None);
    assert_eq!(r.smart_group_id, None);
    assert_eq!(r.reason, "score below threshold");
    assert_eq!(r.confidence_e5, 0);
}

#[test]
fn close_scores_are_ambiguous() {
    let config = SmartGroupConfig::build(
        vec![group(1, "A"), group(2, "B")],
        vec![rule(1, 1, "regex", "foo", 1000), rule(2, 2, "keyword", "foo", 1500)],
        vec![],
    );
    // 80 against 75 points
    let r = classify("foo", "text", &config, None);
    assert_eq!(r.smart_group_id, None);
    assert_eq!(r.reason, "ambiguous match");
}

#[test]
fn clear_lead_wins_and_first_of_equals_is_chosen() {
    let config = SmartGroupConfig::build(
        vec![group(1, "A"), group(2, "B"), group(3, "C")],
        vec![
            rule(1, 1, "regex", "foo", 1000),
            rule(2, 2, "prefix", "fo", 1000),
            rule(3, 3, "regex", "oo", 1000),
        ],
        vec![],
    );
    // A and C score 80, B scores 45: A and C tie, which is ambiguous.
    let r = classify("foo", "text", &config, None);
    assert_eq!(r.reason, "ambiguous match");

    let config = SmartGroupConfig::build(
        vec![group(1, "A"), group(2, "B")],
        vec![rule(1, 1, "regex", "foo", 2000), rule(2, 2, "suffix", "oo", 1000)],
        vec![],
    );
    let r = classify("foo", "text", &config, None);
    assert_eq!(r.smart_group_id, Some(1));
    // 160 points are capped at 150
    assert_eq!(r.confidence_e5, 100_000);
}

#[test]
fn no_groups_and_empty_content() {
    let config = SmartGroupConfig::build(vec![], vec![], vec![]);
    assert!(config.is_empty());
    assert_eq!(classify("x", "text", &config, None).reason, "no groups configured");
    let config = SmartGroupConfig::build(vec![group(1, "G")], vec![], vec![]);
    assert_eq!(classify("   \n\t", "text", &config, None).reason, "empty content");
    assert_eq!(classify("x", "files", &config, None).reason, "non-text content");
    assert_eq!(classify("x", "text", &config, None).reason, "no rule matched");
}

#[test]
fn disabled_rules_and_empty_patterns_do_not_count() {
    let mut disabled = rule(1, 1, "regex", "x", 1000);
    disabled.enabled = false;
    let config = SmartGroupConfig::build(
        vec![group(1, "G")],
        vec![disabled, rule(2, 1, "keyword", "   ", 5000), rule(3, 1, "bogus", "x", 5000)],
        vec![],
    );
    assert_eq!(classify("x", "text", &config, None).reason, "no rule matched");
}

#[test]
fn invalid_regex_never_matches() {
    let config = SmartGroupConfig::build(
        vec![group(1, "G")],
        vec![rule(1, 1, "regex", "(", 5000)],
        vec![],
    );
    assert_eq!(classify("(", "text", &config, None).reason, "no rule matched");
}

#[test]
fn example_containment_and_template_reasons() {
    let config = SmartGroupConfig::build(
        vec![group(7, "IDs")],
        vec![],
        vec![example(1, 7, "book_id: 123456")],
    );
    let r = classify("see BOOK_ID: 123456 here", "text", &config, None);
    assert_eq!(r.smart_group_id, Some(7));
    assert_eq!(r.reason, "example_contains:book_id: 123456; example_template");
    assert_eq!(r.confidence_e5, 100_000);
}

#[test]
fn rules_go_to_the_first_group_with_their_id() {
    let config = SmartGroupConfig::build(
        vec![group(1, "First"), group(1, "Second")],
        vec![rule(1, 1, "regex", "abc", 1000)],
        vec![],
    );
    let r = classify("abc", "text", &config, None);
    assert_eq!(r.smart_group_id, Some(1));
    assert_eq!(r.smart_group_name, "First");
}

#[test]
fn only_the_first_five_thousand_chars_are_classified() {
    let config = SmartGroupConfig::build(
        vec![group(1, "G")],
        vec![rule(1, 1, "suffix", "needle", 2000)],
        vec![],
    );
    let mut text = "a".repeat(5000);
    text.push_str("needle");
    assert_eq!(classify(&text, "text", &config, None).reason, "no rule matched");
    let mut text = "a".repeat(4994);
    text.push_str("needle");
    assert_eq!(classify(&text, "text", &config, None).smart_group_id, Some(1));
}

#[test]
fn whitespace_runs_are_normalized_in_the_text_only() {
    let config = SmartGroupConfig::build(
        vec![group(1, "G")],
        vec![rule(1, 1, "keyword", " Book ID ", 1000)],
        vec![],
    );
    let r = classify_untimed("my book \t\n id here", "text", &config);
    assert_eq!(r.smart_group_id, Some(1));
    let r = classify_untimed("my bookid here", "text", &config);
    assert_eq!(r.smart_group_id, None);
    // the pattern keeps its inner whitespace
    let config = SmartGroupConfig::build(vec![group(1, "G")], vec![rule(1, 1, "keyword", "a\tb", 1000)], vec![]);
    assert_eq!(classify_untimed("a b", "text", &config).smart_group_id, None);
    assert_eq!(classify_untimed("a\tb", "text", &config).smart_group_id, None);
}

#[test]
fn untimed_classification_of_the_basic_cases() {
    let config = SmartGroupConfig::build(
        vec![group(1, "Book IDs")],
        vec![rule(1, 1, "keyword", "book_id", 1000)],
        vec![],
    );
    let r = classify_untimed("book_id: 123456", "text", &config);
    assert_eq!(r.smart_group_id, Some(1));
    assert_eq!(r.smart_group_name, "Book IDs");
    assert_eq!(r.confidence_e5, 50_000);
    assert_eq!(r.reason, "keyword:book_id (50)");

    let config = SmartGroupConfig::build(
        vec![group(2, "Table Names")],
        vec![rule(2, 2, "regex", "^dwd_", 750)],
        vec![],
    );
    let r = classify_untimed("dwd_content_publish", "text", &config);
    assert_eq!(r.smart_group_id, Some(2));
    assert_eq!(r.smart_group_name, "Table Names");
    assert_eq!(r.confidence_e5, 60_000);
    assert_eq!(r.reason, "regex:^dwd_ (60)");
    assert_eq!(r.match_type, "auto");

    let config = SmartGroupConfig::build(
        vec![group(1, "A"), group(2, "B")],
        vec![
            rule(1, 1, "regex", "^dwd_", 1000),
            rule(2, 1, "regex", "publish$", 1000),
            rule(3, 2, "regex", "^dwd", 1750),
        ],
        vec![],
    );
    let r = classify_untimed("dwd_content_publish", "text", &config);
    assert_eq!(r.smart_group_id, None);
    assert_eq!(r.reason, "ambiguous match");

    let config = SmartGroupConfig::build(vec![group(5, "IDs")], vec![], vec![example(1, 5, "book_id: 123456")]);
    assert_eq!(classify_untimed("drama_id: ABC_789", "text", &config).smart_group_id, Some(5));
    assert_eq!(classify_with_budget("drama_id: ABC_789", "text", &config, u128::MAX).smart_group_id, Some(5));
}

#[test]
fn texts_equal_once_normalized_classify_alike() {
    let config = SmartGroupConfig::build(
        vec![group(1, "IDs"), group(2, "Other")],
        vec![rule(1, 1, "prefix", "book_id:", 1200), rule(2, 2, "keyword", "zzz", 1000)],
        vec![example(1, 1, "book_id: 123")],
    );
    let a = classify("  BOOK_ID:   42  ", "text", &config, None);
    let b = classify("book_id: 42", "text", &config, None);
    assert_eq!(a.smart_group_id, b.smart_group_id);
    assert_eq!(a.smart_group_name, b.smart_group_name);
    assert_eq!(a.confidence_e5, b.confidence_e5);
    assert_eq!(a.reason, b.reason);
    assert_eq!(a.match_type, b.match_type);
    assert_eq!(a.smart_group_id, Some(1));
}

#[test]
fn empty_config_means_no_active_group() {
    let mut disabled = group(1, "G");
    disabled.enabled = false;
    disabled.auto_match_enabled = false;
    let config = SmartGroupConfig::build(vec![disabled], vec![rule(1, 1, "keyword", "x", 1000)], vec![]);
    assert!(config.is_empty());
    let config = SmartGroupConfig::build(vec![group(1, "G")], vec![], vec![]);
    assert!(config.is_empty());
    let mut manual = group(1, "G");
    manual.auto_match_enabled = false;
    let config = SmartGroupConfig::build(vec![manual], vec![], vec![example(1, 1, "abc")]);
    assert!(config.is_empty());
    let config = SmartGroupConfig::build(vec![group(1, "G")], vec![], vec![example(1, 1, "abc")]);
    assert!(!config.is_empty());
    let config = SmartGroupConfig::build(
        vec![group(1, "A"), group(2, "B")],
        vec![rule(1, 2, "keyword", "x", 1000)],
        vec![],
    );
    assert!(!config.is_empty());
}
