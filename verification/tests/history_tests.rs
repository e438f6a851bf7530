use cpaste::history::{
    build_history_page, find_session_entry, html_needs_cut, merge_search_results,
    normalize_rich_text_item_content, present_page_items, present_tag_items, remove_session_entry,
    remove_tagged_session_entries, rename_in_tags, rename_tag_in_session, resolve_entry_content,
    retain_on_clear, session_group_count, sort_entries, stored_in_database, EntryOrder,
};
use cpaste::models::ClipboardEntry;
use std::collections::VecDeque;

fn entry(id: i64, ts: i64, content: &str) -> ClipboardEntry {
    ClipboardEntry {
        id,
        timestamp: ts,
        content_type: "text".to_string(),
        content: content.to_string(),
        ..Default::default()
    }
}

fn blanks(n: usize) -> Vec<String> {
    vec![String::new(); n]
}

fn ids(v: &[ClipboardEntry]) -> Vec<i64> {
    v.iter().map(|e| e.id).collect()
}

#[test]
fn page_cursor_counts_stored_rows_only() {
    // limit 2, three rows fetched (limit + 1)
    let db = vec![entry(3, 30, "c"), entry(2, 20, "b"), entry(1, 10, "a")];
    let mut session = VecDeque::new();
    session.push_back(entry(-1, 25, "s1"));
    session.push_back(entry(-2, 35, "s2"));
    let page = build_history_page(db, &session, 2, 0, None, None);
    assert!(page.has_more);
    assert_eq!(page.next_offset, 2);
    assert_eq!(ids(&page.items), vec![-2, 3, -1, 2]);
}

#[test]
fn later_pages_do_not_show_session_entries() {
    let db = vec![entry(1, 10, "a")];
    let mut session = VecDeque::new();
    session.push_back(entry(-1, 25, "s1"));
    let page = build_history_page(db, &session, 5, 5, None, None);
    assert!(!page.has_more);
    assert_eq!(page.next_offset, 6);
    assert_eq!(ids(&page.items), vec![1]);
}

#[test]
fn pinned_entries_come_first_and_filters_apply() {
    let mut pinned = entry(1, 1, "old but pinned");
    pinned.is_pinned = true;
    let db = vec![entry(2, 50, "x"), pinned];
    let mut session = VecDeque::new();
    let mut img = entry(-1, 99, "img");
    img.content_type = "image".to_string();
    session.push_back(img);
    session.push_back(entry(-2, 60, "t"));
    session.push_back(entry(2, 70, "duplicate id"));
    let page = build_history_page(db, &session, 10, 0, Some("text"), None);
    assert_eq!(ids(&page.items), vec![1, -2, 2]);
    assert_eq!(page.items[2].content, "x");
}

#[test]
fn group_filter_on_session_entries() {
    let mut a = entry(-1, 5, "a");
    a.smart_group_id = Some(4);
    let b = entry(-2, 6, "b");
    let session: VecDeque<ClipboardEntry> = vec![a, b].into_iter().collect();
    let page = build_history_page(vec![], &session, 10, 0, None, Some(4));
    assert_eq!(ids(&page.items), vec![-1]);
}

#[test]
fn long_text_is_cut_for_speed() {
    let long = "x".repeat(2001);
    let page = build_history_page(vec![entry(1, 1, &long)], &VecDeque::new(), 10, 0, None, None);
    assert_eq!(page.items[0].content.len(), 2001);
    let items = present_page_items(page.items, &blanks(1));
    let shown = &items[0].content;
    assert!(shown.ends_with("... [Truncated for speed]"));
    assert_eq!(shown.chars().count(), 2000 + "... [Truncated for speed]".len());
    let mut img = entry(2, 1, &long);
    img.content_type = "image".to_string();
    let page = build_history_page(vec![img], &VecDeque::new(), 10, 0, None, None);
    let items = present_page_items(page.items, &blanks(1));
    assert_eq!(items[0].content.len(), 2001);
    let exact = "z".repeat(2000);
    let items = present_page_items(vec![entry(3, 1, &exact)], &blanks(1));
    assert_eq!(items[0].content, exact);
}

#[test]
fn search_merges_session_hits_newest_first() {
    let db = vec![entry(1, 10, "apple pie")];
    let mut tagged = entry(-1, 30, "nothing");
    tagged.tags = vec!["Fruit".to_string()];
    let mut from_app = entry(-2, 20, "zzz");
    from_app.source_app = "AppleMusic".to_string();
    let zero = entry(0, 5, "apple zero");
    let session: VecDeque<ClipboardEntry> =
        vec![tagged, from_app, zero, entry(1, 40, "apple dup")].into_iter().collect();
    let r = merge_search_results(db, &session, "APPLE", 10, false);
    assert_eq!(ids(&r), vec![-2, 1, 0]);
    let r = merge_search_results(vec![], &session, "fru", 10, true);
    assert_eq!(ids(&r), vec![-1]);
    let session2: VecDeque<ClipboardEntry> = vec![entry(-3, 1, "apple"), entry(-4, 2, "apple")].into_iter().collect();
    let r = merge_search_results(vec![entry(5, 3, "apple")], &session2, "apple", 2, false);
    assert_eq!(ids(&r), vec![5, -4]);
}

#[test]
fn sorting_is_stable_and_orders_by_kind() {
    let v = vec![entry(1, 5, "a"), entry(2, 9, "b"), entry(3, 5, "c")];
    let r = sort_entries(v, EntryOrder::Newest);
    assert_eq!(ids(&r), vec![2, 1, 3]);
    let v = vec![entry(1, 5, "a"), entry(2, 9, "b"), entry(3, 5, "c")];
    let r = sort_entries(v, EntryOrder::Search);
    assert_eq!(ids(&r), vec![2, 3, 1]);
}

#[test]
fn tag_view_cuts_at_fifty_thousand_chars() {
    let long = "y".repeat(50001);
    let r = present_tag_items(vec![entry(1, 1, &long), entry(2, 1, "short")], &blanks(2));
    assert!(r[0].content.ends_with("... [Content Truncated]"));
    assert_eq!(r[0].content.chars().count(), 50000 + "... [Content Truncated]".len());
    assert_eq!(r[1].content, "short");
}

#[test]
fn rich_text_uses_derived_text_unless_blank() {
    assert_eq!(resolve_entry_content("<b>x</b>", "rich_text", "x"), "x");
    assert_eq!(resolve_entry_content("<b>x</b>", "rich_text", "   "), "<b>x</b>");
    assert_eq!(resolve_entry_content("plain", "text", "other"), "plain");
    let mut e = entry(1, 1, "<i>y</i>");
    e.content_type = "rich_text".to_string();
    normalize_rich_text_item_content(&mut e, "y");
    assert_eq!(e.content, "y");
}

#[test]
fn rich_text_is_replaced_before_it_is_cut() {
    let mut rich = entry(1, 1, "<p>short</p>");
    rich.content_type = "rich_text".to_string();
    let derived = vec!["w".repeat(2500), "ignored".to_string()];
    let items = present_page_items(vec![rich, entry(2, 1, "plain")], &derived);
    assert_eq!(items[0].content, format!("{}... [Truncated for speed]", "w".repeat(2000)));
    assert_eq!(items[1].content, "plain");
    let mut blank = entry(3, 1, "<p>kept</p>");
    blank.content_type = "rich_text".to_string();
    let items = present_page_items(vec![blank], &vec!["  ".to_string()]);
    assert_eq!(items[0].content, "<p>kept</p>");
}

#[test]
fn only_long_html_is_cut() {
    assert!(!html_needs_cut(&"h".repeat(5000)));
    assert!(html_needs_cut(&"h".repeat(5001)));
    assert!(html_needs_cut(&"é".repeat(5001)));
    assert!(!html_needs_cut(&"é".repeat(3000)));
}

#[test]
fn session_edits() {
    let mut pinned = entry(-1, 1, "p");
    pinned.is_pinned = true;
    let mut tagged = entry(-2, 2, "t");
    tagged.tags = vec!["work".to_string()];
    let plain = entry(-3, 3, "x");
    let mut session: VecDeque<ClipboardEntry> = vec![pinned, tagged, plain].into_iter().collect();
    assert_eq!(find_session_entry(&session, -3), Some(2));
    assert_eq!(find_session_entry(&session, 99), None);
    remove_session_entry(&mut session, -3);
    assert_eq!(session.len(), 2);
    session.push_back(entry(-4, 4, "y"));
    retain_on_clear(&mut session);
    let left: Vec<i64> = session.iter().map(|e| e.id).collect();
    assert_eq!(left, vec![-1, -2]);
    remove_tagged_session_entries(&mut session, "work");
    let left: Vec<i64> = session.iter().map(|e| e.id).collect();
    assert_eq!(left, vec![-1]);
}

#[test]
fn renaming_a_tag_sorts_and_dedups() {
    let tags = vec!["zeta".to_string(), "old".to_string(), "alpha".to_string(), "new".to_string()];
    assert_eq!(rename_in_tags(tags, "old", "new"), vec!["alpha", "new", "zeta"]);
    let mut e = entry(-1, 1, "c");
    e.tags = vec!["b".to_string(), "a".to_string(), "b".to_string()];
    let mut session: VecDeque<ClipboardEntry> = vec![e].into_iter().collect();
    rename_tag_in_session(&mut session, "a", "c");
    assert_eq!(session[0].tags, vec!["b", "c"]);
    let tags = vec!["b".to_string(), "a".to_string()];
    assert_eq!(rename_in_tags(tags, "x", "y"), vec!["a", "b"]);
    let tags = vec!["b".to_string(), "a".to_string()];
    assert_eq!(rename_in_tags(tags, "a", "a"), vec!["a", "b"]);
}

#[test]
fn counting_session_entries_of_a_group() {
    let mut a = entry(-1, 1, "a");
    a.smart_group_id = Some(2);
    let mut b = entry(-2, 1, "b");
    b.smart_group_id = Some(3);
    let mut c = entry(-3, 1, "c");
    c.smart_group_id = Some(2);
    let session: VecDeque<ClipboardEntry> = vec![a, b, c].into_iter().collect();
    assert_eq!(session_group_count(&session, 2), 2);
    assert_eq!(session_group_count(&session, 9), 0);
}

#[test]
fn positive_ids_are_stored() {
    assert!(stored_in_database(1));
    assert!(!stored_in_database(0));
    assert!(!stored_in_database(-5));
}
