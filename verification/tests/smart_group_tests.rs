use cpaste::classifier::SmartGroupConfig;
use cpaste::export::export_group_markdown;
use cpaste::models::{ClipboardEntry, SmartGroup, SmartGroupMatchResult, SmartGroupRule};
use cpaste::reclassify::{plan_reclassification, reclassify_session, reclassify_target};
use cpaste::smart_groups::{
    apply_group_update, examples_for_groups_sql, group_ids, new_group_example, new_smart_group,
    prepare_rule, rules_for_groups_sql, sql_placeholders, validate_rule_pattern,
};
use std::collections::VecDeque;

fn group(id: i64, name: &str) -> SmartGroup {
    let mut g = new_smart_group(name.to_string(), None, None, None, None, None, None, None, 7);
    g.id = id;
    g
}

fn entry(id: i64, ts: i64, content: &str) -> ClipboardEntry {
    ClipboardEntry {
        id,
        timestamp: ts,
        content_type: "text".to_string(),
        content: content.to_string(),
        ..Default::default()
    }
}

#[test]
fn new_group_defaults() {
    let g = new_smart_group("Work".to_string(), None, None, None, None, None, None, None, 123);
    assert_eq!(g.id, 0);
    assert_eq!(g.color, "#64748b");
    assert_eq!(g.description, "");
    assert!(g.enabled && g.auto_match_enabled && !g.is_sensitive);
    assert_eq!((g.sort_order, g.created_at, g.updated_at), (0, 123, 123));
    let g = new_smart_group("W".into(), Some("d".into()), Some("#fff".into()), Some("i".into()), Some(false), Some(false), Some(true), Some(4), 1);
    assert_eq!((g.description.as_str(), g.color.as_str(), g.icon.as_str()), ("d", "#fff", "i"));
    assert!(!g.enabled && !g.auto_match_enabled && g.is_sensitive);
    assert_eq!(g.sort_order, 4);
}

#[test]
fn updates_replace_only_given_fields() {
    let mut g = group(3, "Old");
    apply_group_update(&mut g, Some("New".into()), None, Some("#000".into()), None, Some(false), None, None, Some(9), 500);
    assert_eq!(g.name, "New");
    assert_eq!(g.color, "#000");
    assert_eq!(g.description, "");
    assert!(!g.enabled);
    assert!(g.auto_match_enabled);
    assert_eq!((g.id, g.sort_order, g.created_at, g.updated_at), (3, 9, 7, 500));
}

#[test]
fn examples_and_rules_are_prepared() {
    let e = new_group_example(4, "text".into(), None, 9);
    assert_eq!((e.id, e.group_id, e.enabled, e.created_at), (0, 4, true, 9));
    assert_eq!(e.note, "");
    let r = prepare_rule(4, "keyword".into(), "k".into(), None, 2).unwrap();
    assert_eq!(r.weight_milli, 1000);
    assert!(r.enabled);
    let r = prepare_rule(4, "regex".into(), "^a+$".into(), Some(2500), 2).unwrap();
    assert_eq!(r.weight_milli, 2500);
}

#[test]
fn regex_patterns_are_checked() {
    assert_eq!(validate_rule_pattern("regex", "("), Err("正则格式不正确".to_string()));
    assert_eq!(validate_rule_pattern("regex", &"a".repeat(501)), Err("正则 pattern 不能超过 500 字符".to_string()));
    assert_eq!(validate_rule_pattern("regex", &"a".repeat(500)), Ok(()));
    assert_eq!(validate_rule_pattern("keyword", "("), Ok(()));
    assert!(prepare_rule(1, "regex".into(), "[".into(), None, 0).is_err());
}

#[test]
fn sql_for_a_set_of_groups() {
    assert_eq!(sql_placeholders(0), "");
    assert_eq!(sql_placeholders(3), "?,?,?");
    assert_eq!(
        rules_for_groups_sql(2),
        "SELECT id, group_id, rule_type, pattern, weight, enabled, created_at, updated_at FROM smart_group_rules WHERE group_id IN (?,?) AND enabled = 1 ORDER BY group_id, id"
    );
    assert!(examples_for_groups_sql(1).contains("FROM smart_group_examples WHERE group_id IN (?) AND enabled = 1"));
    assert_eq!(group_ids(&vec![group(4, "a"), group(2, "b")]), vec![4, 2]);
}

#[test]
fn export_lists_group_entries_newest_first_once() {
    let mut a = entry(1, 10, "first");
    a.smart_group_id = Some(5);
    let mut s1 = entry(-1, 30, "session \"quoted\"");
    s1.smart_group_id = Some(5);
    let mut s_dup = entry(1, 5, "older copy");
    s_dup.smart_group_id = Some(5);
    let other = entry(-2, 40, "other group");
    let session: VecDeque<ClipboardEntry> = vec![s1, s_dup, other].into_iter().collect();
    let out = export_group_markdown(vec![a], &session, 5, Some("A/B".to_string()), "20240101").unwrap();
    let v: serde_json::Value = serde_json::from_str(&out).unwrap();
    assert_eq!(v["filename"], "A_B_20240101.md");
    assert_eq!(
        v["content"],
        "# A/B\n\n> 2 条内容\n\n---\n\nsession \"quoted\"\n\n---\n\nfirst\n\n"
    );
    assert!(out.starts_with("{\"content\":\"# A/B"));
}

#[test]
fn export_of_an_empty_or_missing_group() {
    let r = export_group_markdown(vec![], &VecDeque::new(), 8, None, "20240101");
    assert_eq!(r, Err("该分组下没有数据".to_string()));
    let mut img = entry(2, 1, &"p".repeat(100));
    img.content_type = "image".to_string();
    let out = export_group_markdown(vec![img], &VecDeque::new(), 8, None, "d").unwrap();
    let v: serde_json::Value = serde_json::from_str(&out).unwrap();
    assert_eq!(v["filename"], "group-8_d.md");
    let doc = format!("# group-8\n\n> 1 条内容\n\n---\n\n> 图片: {}...\n\n", "p".repeat(80));
    assert_eq!(v["content"], doc);
    assert_eq!(
        out,
        format!("{{\"content\":{},\"filename\":\"group-8_d.md\"}}", serde_json::to_string(&doc).unwrap())
    );
    let long = "中".repeat(700);
    let out = export_group_markdown(vec![entry(3, 1, &long)], &VecDeque::new(), 8, None, "d").unwrap();
    let v: serde_json::Value = serde_json::from_str(&out).unwrap();
    assert!(v["content"].as_str().unwrap().ends_with("> *内容已截断*\n\n"));
}

fn config_for(id: i64) -> SmartGroupConfig {
    SmartGroupConfig::build(
        vec![group(id, "Tables")],
        vec![SmartGroupRule {
            id: 1, group_id: id, rule_type: "regex".into(), pattern: "^dwd_".into(),
            weight_milli: 1000, enabled: true, created_at: 0, updated_at: 0,
        }],
        vec![],
    )
}

#[test]
fn reclassification_plan() {
    let config = config_for(3);
    let entries = vec![entry(1, 1, "dwd_x"), entry(2, 1, "hello")];
    let plan: Vec<Option<SmartGroupMatchResult>> = plan_reclassification(&entries, &config, None, u128::MAX);
    assert_eq!(plan.len(), 2);
    assert_eq!(plan[0].as_ref().unwrap().smart_group_id, Some(3));
    assert!(plan[1].is_none());
    let plan = plan_reclassification(&entries, &config, Some(4), u128::MAX);
    assert!(plan[0].is_none());
}

#[test]
fn reclassification_target_group() {
    assert!(reclassify_target(None).is_none());
    let mut g = group(2, "G");
    g.enabled = false;
    assert!(reclassify_target(Some(g)).is_none());
    let mut g = group(2, "G");
    g.auto_match_enabled = false;
    let (g2, store) = reclassify_target(Some(g)).unwrap();
    assert!(store && g2.auto_match_enabled);
    let (_, store) = reclassify_target(Some(group(2, "G"))).unwrap();
    assert!(!store);
}

#[test]
fn session_reclassification_updates_entries_in_place() {
    let config = config_for(3);
    let mut assigned = entry(-3, 1, "zzz");
    assigned.smart_group_id = Some(9);
    assigned.smart_group_name = "Nine".to_string();
    let mut session: VecDeque<ClipboardEntry> =
        vec![entry(-1, 1, "dwd_a"), entry(-2, 1, "nope"), assigned].into_iter().collect();
    let r = reclassify_session(&mut session, &config, 3, u128::MAX);
    assert_eq!(r.matched, 1);
    assert_eq!(session[0].smart_group_id, Some(3));
    assert_eq!(session[0].smart_group_name, "Tables");
    assert_eq!(session[1].smart_group_id, None);
    assert_eq!(session[2].smart_group_id, Some(9));
    assert_eq!(r.updated.len(), 2);
}
