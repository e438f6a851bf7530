//! The clipboard history as the front end sees it: pages of stored entries
//! merged with the in-memory session entries, search results, and the edits
//! that apply to the session history.
use vstd::prelude::*;
use std::collections::VecDeque;

use crate::models::{same_entries, same_entry, ClipboardEntry};
use crate::text::views;
use crate::text::{
    push_str, seq_contains, spec_lowercase, spec_take_chars, spec_trim, str_to_lowercase,
    take_chars, text_contains, text_eq, trim, chars_of,
};

verus! {

// ───────────────────────────── ordering ─────────────────────────────

/// The orders in which entries are listed.
#[derive(Clone, Copy, PartialEq, Eq, Structural)]
pub enum EntryOrder {
    /// History view: pinned first, then by pinned order, time stamp and id, each high to low.
    History,
    /// Search results: by time stamp, then id, high to low.
    Search,
    /// Exports: by time stamp only, newest first.
    Newest,
}

/// `a` comes strictly before `b` in the order.
pub open spec fn precedes(a: ClipboardEntry, b: ClipboardEntry, order: EntryOrder) -> bool {
    let by_pin = order == EntryOrder::History;
    if by_pin && a.is_pinned != b.is_pinned {
        a.is_pinned
    } else if by_pin && a.pinned_order != b.pinned_order {
        a.pinned_order > b.pinned_order
    } else if a.timestamp != b.timestamp {
        a.timestamp > b.timestamp
    } else {
        order != EntryOrder::Newest && a.id > b.id
    }
}

fn precedes_exec(a: &ClipboardEntry, b: &ClipboardEntry, order: EntryOrder) -> (r: bool)
    ensures
        r == precedes(*a, *b, order),
{
    let by_pin = order == EntryOrder::History;
    if by_pin && a.is_pinned != b.is_pinned {
        a.is_pinned
    } else if by_pin && a.pinned_order != b.pinned_order {
        a.pinned_order > b.pinned_order
    } else if a.timestamp != b.timestamp {
        a.timestamp > b.timestamp
    } else {
        order != EntryOrder::Newest && a.id > b.id
    }
}

/// Where `x` goes in the ordered `s`: before the first entry it precedes,
/// after all entries it does not precede (so equal entries keep their order).
pub open spec fn insert_pos(s: Seq<ClipboardEntry>, x: ClipboardEntry, order: EntryOrder) -> nat
    decreases s.len(),
{
    if s.len() == 0 {
        0
    } else if precedes(x, s[0], order) {
        0
    } else {
        1 + insert_pos(s.drop_first(), x, order)
    }
}

/// The entries in order, as the stable `sort_by` leaves them.
pub open spec fn sorted_entries(s: Seq<ClipboardEntry>, order: EntryOrder) -> Seq<ClipboardEntry>
    decreases s.len(),
{
    if s.len() == 0 {
        s
    } else {
        let r = sorted_entries(s.drop_last(), order);
        r.insert(insert_pos(r, s.last(), order) as int, s.last())
    }
}

proof fn lemma_insert_pos_bound(s: Seq<ClipboardEntry>, x: ClipboardEntry, order: EntryOrder)
    ensures
        insert_pos(s, x, order) <= s.len(),
    decreases s.len(),
{
    if s.len() > 0 {
        lemma_insert_pos_bound(s.drop_first(), x, order);
    }
}

proof fn lemma_sorted_len(s: Seq<ClipboardEntry>, order: EntryOrder)
    ensures
        sorted_entries(s, order).len() == s.len(),
    decreases s.len(),
{
    if s.len() > 0 {
        lemma_sorted_len(s.drop_last(), order);
        let r = sorted_entries(s.drop_last(), order);
        lemma_insert_pos_bound(r, s.last(), order);
    }
}

/// Sorts entries stably in the given order.
pub fn sort_entries(v: Vec<ClipboardEntry>, order: EntryOrder) -> (r: Vec<ClipboardEntry>)
    ensures
        r@ == sorted_entries(v@, order),
{
    let ghost s = v@;
    let mut r: Vec<ClipboardEntry> = Vec::new();
    assert(s.take(0) =~= Seq::<ClipboardEntry>::empty());
    for x in it: v
        invariant
            it.seq() == s,
            r@ == sorted_entries(s.take(it.index() as int), order),
    {
        let ghost k = it.index();
        let mut p: usize = 0;
        assert(r@.skip(0) =~= r@);
        while p < r.len() && !precedes_exec(&x, &r[p], order)
            invariant
                p <= r.len(),
                insert_pos(r@, x, order) == p + insert_pos(r@.skip(p as int), x, order),
            decreases r.len() - p,
        {
            proof {
                let t = r@.skip(p as int);
                assert(t[0] == r@[p as int]);
                assert(t.drop_first() =~= r@.skip(p + 1));
            }
            p = p + 1;
        }
        proof {
            let t = r@.skip(p as int);
            if p < r.len() {
                assert(t[0] == r@[p as int]);
            } else {
                assert(t.len() == 0);
            }
            let u = s.take(k + 1);
            assert(u.drop_last() =~= s.take(k as int));
            assert(u.last() == x);
        }
        r.insert(p, x);
    }
    assert(s.take(s.len() as int) =~= s);
    r
}

proof fn lemma_insert_pos_same(a: Seq<ClipboardEntry>, b: Seq<ClipboardEntry>, x: ClipboardEntry, y: ClipboardEntry, order: EntryOrder)
    requires
        same_entries(a, b),
        same_entry(x, y),
    ensures
        insert_pos(a, x, order) == insert_pos(b, y, order),
    decreases a.len(),
{
    if a.len() > 0 {
        assert(same_entry(a[0], b[0]));
        assert forall|i: int| 0 <= i < a.len() - 1 implies same_entry(#[trigger] a.drop_first()[i], b.drop_first()[i]) by {
            assert(same_entry(a[i + 1], b[i + 1]));
        }
        lemma_insert_pos_same(a.drop_first(), b.drop_first(), x, y, order);
    }
}

/// Sorting entries that hold the same data gives entries that hold the same data.
pub(crate) proof fn lemma_sorted_same(a: Seq<ClipboardEntry>, b: Seq<ClipboardEntry>, order: EntryOrder)
    requires
        same_entries(a, b),
    ensures
        same_entries(sorted_entries(a, order), sorted_entries(b, order)),
    decreases a.len(),
{
    if a.len() > 0 {
        assert forall|i: int| 0 <= i < a.len() - 1 implies same_entry(#[trigger] a.drop_last()[i], b.drop_last()[i]) by {
            assert(same_entry(a[i], b[i]));
        }
        lemma_sorted_same(a.drop_last(), b.drop_last(), order);
        let ra = sorted_entries(a.drop_last(), order);
        let rb = sorted_entries(b.drop_last(), order);
        assert(same_entry(a.last(), b.last()));
        lemma_insert_pos_same(ra, rb, a.last(), b.last(), order);
        lemma_insert_pos_bound(ra, a.last(), order);
        lemma_sorted_len(a.drop_last(), order);
        lemma_sorted_len(b.drop_last(), order);
        let p = insert_pos(ra, a.last(), order) as int;
        let sa = ra.insert(p, a.last());
        let sb = rb.insert(p, b.last());
        assert forall|i: int| 0 <= i < sa.len() implies same_entry(#[trigger] sa[i], sb[i]) by {
            if i < p {
                assert(sa[i] == ra[i]);
                assert(sb[i] == rb[i]);
            } else if i == p {
            } else {
                assert(sa[i] == ra[i - 1]);
                assert(sb[i] == rb[i - 1]);
            }
        }
    }
}

// ───────────────────────────── content truncation ─────────────────────────────

/// Content types shown as text.
pub open spec fn is_text_like(content_type: Seq<char>) -> bool {
    content_type == "text"@ || content_type == "code"@ || content_type == "url"@ || content_type
        == "rich_text"@
}

pub fn text_like(content_type: &str) -> (b: bool)
    ensures
        b == is_text_like(content_type@),
{
    text_eq(content_type, "text") || text_eq(content_type, "code") || text_eq(content_type, "url")
        || text_eq(content_type, "rich_text")
}

/// Text content longer than `max` chars cut to `max` chars followed by
/// `marker`; other content as it is.
pub open spec fn cut_text(content_type: Seq<char>, content: Seq<char>, max: int, marker: Seq<char>) -> Seq<char> {
    if is_text_like(content_type) && content.len() > max {
        content.take(max) + marker
    } else {
        content
    }
}

/// The content shown for an entry: text longer than `max` chars is cut to
/// `max` chars followed by `marker`.
pub open spec fn shown_content(e: ClipboardEntry, max: int, marker: Seq<char>) -> Seq<char> {
    cut_text(e.content_type@, e.content@, max, marker)
}

/// All fields of `r` and `e` agree except the content.
pub open spec fn same_but_content(r: ClipboardEntry, e: ClipboardEntry) -> bool {
    &&& r.id == e.id
    &&& r.content_type == e.content_type
    &&& r.html_content == e.html_content
    &&& r.source_app == e.source_app
    &&& r.source_app_path == e.source_app_path
    &&& r.timestamp == e.timestamp
    &&& r.preview == e.preview
    &&& r.is_pinned == e.is_pinned
    &&& r.tags@ == e.tags@
    &&& r.use_count == e.use_count
    &&& r.is_external == e.is_external
    &&& r.pinned_order == e.pinned_order
    &&& r.file_preview_exists == e.file_preview_exists
    &&& r.smart_group_id == e.smart_group_id
    &&& r.smart_group_name == e.smart_group_name
    &&& r.note == e.note
    &&& r.group_confidence_e5 == e.group_confidence_e5
    &&& r.group_reason == e.group_reason
    &&& r.group_match_type == e.group_match_type
    &&& r.group_manual_override == e.group_manual_override
}

/// `r` is `e` with its content shown as `shown_content` says.
pub open spec fn shortened(r: ClipboardEntry, e: ClipboardEntry, max: int, marker: Seq<char>) -> bool {
    &&& r.content@ == shown_content(e, max, marker)
    &&& same_but_content(r, e)
}

/// The marker put after history content cut for speed.
pub open spec fn speed_marker() -> Seq<char> {
    "... [Truncated for speed]"@
}

/// The marker put after tag-view content that was cut.
pub open spec fn tag_marker() -> Seq<char> {
    "... [Content Truncated]"@
}

/// Cuts long text content of an entry to `max` chars followed by `marker`.
pub fn shorten_content(item: &mut ClipboardEntry, max: usize, marker: &str)
    ensures
        shortened(*final(item), *old(item), max as int, marker@),
{
    if text_like(item.content_type.as_str()) {
        let n = chars_of(item.content.as_str()).len();
        if n > max {
            let mut c = take_chars(item.content.as_str(), max);
            push_str(&mut c, marker);
            item.content = c;
        }
    }
}

/// Rich text is shown by the text derived from it, unless that text is blank.
pub open spec fn rich_text_shown(content_type: Seq<char>, content: Seq<char>, derived: Seq<char>) -> Seq<char> {
    if content_type == "rich_text"@ && spec_trim(derived).len() > 0 {
        derived
    } else {
        content
    }
}

/// The content to hand out for an entry: for rich text the text derived
/// from it (`derived`), unless that is blank; else the stored content.
pub fn resolve_entry_content(content: &str, content_type: &str, derived: &str) -> (r: String)
    ensures
        r@ == rich_text_shown(content_type@, content@, derived@),
{
    if text_eq(content_type, "rich_text") {
        let t = trim(derived);
        if !t.as_str().is_empty() {
            return derived.to_owned();
        }
    }
    content.to_owned()
}

/// Replaces the content of a rich-text entry by the text derived from it,
/// unless that text is blank.
pub fn normalize_rich_text_item_content(item: &mut ClipboardEntry, derived: &str)
    ensures
        final(item).content@ == rich_text_shown(old(item).content_type@, old(item).content@, derived@),
        same_but_content(*final(item), *old(item)),
{
    if !text_eq(item.content_type.as_str(), "rich_text") {
        return;
    }
    let t = trim(derived);
    if !t.as_str().is_empty() {
        item.content = derived.to_owned();
    }
}

/// `r` is `e` as the front end is shown it: rich text replaced by the text
/// derived from it (unless blank), then long text cut to `max` chars
/// followed by `marker`.
pub open spec fn presented(r: ClipboardEntry, e: ClipboardEntry, derived: Seq<char>, max: int, marker: Seq<char>) -> bool {
    &&& r.content@ == cut_text(e.content_type@, rich_text_shown(e.content_type@, e.content@, derived), max, marker)
    &&& same_but_content(r, e)
}

/// Prepares entries for display, in order: `derived[i]` is the text derived
/// from the rich text of `items[i]` (anything, blank included, for other
/// entries).
pub fn present_entries(items: Vec<ClipboardEntry>, derived: &Vec<String>, max: usize, marker: &str) -> (r: Vec<
    ClipboardEntry,
>)
    requires
        derived@.len() == items@.len(),
    ensures
        r@.len() == items@.len(),
        forall|i: int|
            0 <= i < r@.len() ==> presented(#[trigger] r@[i], items@[i], derived@[i]@, max as int, marker@),
{
    let ghost s = items@;
    let mut r: Vec<ClipboardEntry> = Vec::new();
    for x in it: items
        invariant
            it.seq() == s,
            derived@.len() == s.len(),
            r@.len() == it.index(),
            forall|i: int|
                0 <= i < it.index() ==> presented(#[trigger] r@[i], s[i], derived@[i]@, max as int, marker@),
    {
        let k = r.len();
        let mut y = x;
        normalize_rich_text_item_content(&mut y, derived[k].as_str());
        shorten_content(&mut y, max, marker);
        r.push(y);
    }
    r
}

/// Entries of the history view and of search results as shown: text content
/// longer than 2000 chars is cut.
pub fn present_page_items(items: Vec<ClipboardEntry>, derived: &Vec<String>) -> (r: Vec<ClipboardEntry>)
    requires
        derived@.len() == items@.len(),
    ensures
        r@.len() == items@.len(),
        forall|i: int|
            0 <= i < r@.len() ==> presented(#[trigger] r@[i], items@[i], derived@[i]@, 2000, speed_marker()),
{
    present_entries(items, derived, 2000, "... [Truncated for speed]")
}

/// The entries of a tag as shown: text content longer than 50000 chars is cut.
pub fn present_tag_items(items: Vec<ClipboardEntry>, derived: &Vec<String>) -> (r: Vec<ClipboardEntry>)
    requires
        derived@.len() == items@.len(),
    ensures
        r@.len() == items@.len(),
        forall|i: int|
            0 <= i < r@.len() ==> presented(#[trigger] r@[i], items@[i], derived@[i]@, 50000, tag_marker()),
{
    present_entries(items, derived, 50000, "... [Content Truncated]")
}

/// HTML longer than this many chars is replaced by a shortened preview.
pub const HTML_PREVIEW_CHARS: usize = 5000;

/// Whether the HTML of an entry is too long to show and is to be replaced by
/// a shortened preview.
pub fn html_needs_cut(html: &str) -> (b: bool)
    ensures
        b == (html@.len() > HTML_PREVIEW_CHARS),
{
    chars_of(html).len() > HTML_PREVIEW_CHARS
}

// ───────────────────────────── history pages ─────────────────────────────

/// A page of the history view. The cursor (`has_more`, `next_offset`) is
/// driven by stored rows alone; session entries only join the first page.
#[derive(Debug)]
pub struct HistoryPage {
    pub items: Vec<ClipboardEntry>,
    pub has_more: bool,
    pub next_offset: i64,
}

/// The page size as a count (a negative limit converts as `as usize` does).
pub open spec fn limit_len(limit: i32) -> int {
    (limit as usize) as int
}

pub open spec fn opt_view(o: Option<&str>) -> Option<Seq<char>> {
    match o {
        Some(s) => Some(s@),
        None => None,
    }
}

/// A session entry passes the view's content-type and group filters.
pub open spec fn admits(e: ClipboardEntry, content_type: Option<Seq<char>>, group: Option<i64>) -> bool {
    &&& (match content_type {
        Some(ct) => e.content_type@ == ct,
        None => true,
    })
    &&& (match group {
        Some(g) => e.smart_group_id == Some(g),
        None => true,
    })
}

/// Some entry of `s` has the id.
pub open spec fn has_id(s: Seq<ClipboardEntry>, id: i64) -> bool {
    exists|k: int| 0 <= k < s.len() && (#[trigger] s[k]).id == id
}

/// `items` followed by the `incoming` entries, in order, that pass the
/// filters and whose id is not yet present.
pub open spec fn merge_session(
    items: Seq<ClipboardEntry>,
    incoming: Seq<ClipboardEntry>,
    content_type: Option<Seq<char>>,
    group: Option<i64>,
) -> Seq<ClipboardEntry>
    decreases incoming.len(),
{
    if incoming.len() == 0 {
        items
    } else {
        let m = merge_session(items, incoming.drop_last(), content_type, group);
        let x = incoming.last();
        if admits(x, content_type, group) && !has_id(m, x.id) {
            m.push(x)
        } else {
            m
        }
    }
}

/// The stored rows of a page: at most `limit` of them.
pub open spec fn db_page(db: Seq<ClipboardEntry>, limit: i32) -> Seq<ClipboardEntry> {
    if db.len() > limit_len(limit) {
        db.take(limit_len(limit))
    } else {
        db
    }
}

/// The entries of a history page: the
/// stored rows, on the first page the session entries newest first, all in
/// history order.
pub open spec fn page_entries(
    db: Seq<ClipboardEntry>,
    session: Seq<ClipboardEntry>,
    limit: i32,
    offset: i32,
    content_type: Option<Seq<char>>,
    group: Option<i64>,
) -> Seq<ClipboardEntry> {
    let p = db_page(db, limit);
    let merged = if offset == 0 {
        merge_session(p, session.reverse(), content_type, group)
    } else {
        p
    };
    sorted_entries(merged, EntryOrder::History)
}

pub(crate) fn contains_id(items: &Vec<ClipboardEntry>, id: i64) -> (b: bool)
    ensures
        b == has_id(items@, id),
{
    let mut k: usize = 0;
    while k < items.len()
        invariant
            k <= items.len(),
            forall|j: int| 0 <= j < k ==> (#[trigger] items@[j]).id != id,
        decreases items.len() - k,
    {
        if items[k].id == id {
            assert(items@[k as int].id == id);
            return true;
        }
        k = k + 1;
    }
    false
}

fn admits_exec(e: &ClipboardEntry, content_type: Option<&str>, group: Option<i64>) -> (b: bool)
    ensures
        b == admits(*e, opt_view(content_type), group),
{
    let type_ok = match content_type {
        Some(ct) => text_eq(e.content_type.as_str(), ct),
        None => true,
    };
    let group_ok = match group {
        Some(g) => match e.smart_group_id {
            Some(x) => x == g,
            None => false,
        },
        None => true,
    };
    type_ok && group_ok
}

pub(crate) proof fn lemma_has_id_same(a: Seq<ClipboardEntry>, b: Seq<ClipboardEntry>, id: i64)
    requires
        same_entries(a, b),
    ensures
        has_id(a, id) == has_id(b, id),
{
    if has_id(a, id) {
        let k = choose|k: int| 0 <= k < a.len() && (#[trigger] a[k]).id == id;
        assert(same_entry(a[k], b[k]));
    }
    if has_id(b, id) {
        let k = choose|k: int| 0 <= k < b.len() && (#[trigger] b[k]).id == id;
        assert(same_entry(a[k], b[k]));
    }
}

/// Builds a page of the history view from the stored rows (fetched with one
/// row more than the limit) and the session history (oldest first).
pub fn build_history_page(
    db_items: Vec<ClipboardEntry>,
    session: &VecDeque<ClipboardEntry>,
    limit: i32,
    offset: i32,
    content_type: Option<&str>,
    smart_group_id: Option<i64>,
) -> (page: HistoryPage)
    requires
        db_items@.len() < 0x4000_0000_0000_0000,
    ensures
        page.has_more == (db_items@.len() > limit_len(limit)),
        page.next_offset == offset + db_page(db_items@, limit).len(),
        same_entries(
            page.items@,
            page_entries(db_items@, session@, limit, offset, opt_view(content_type), smart_group_id),
        ),
{
    let ghost ct = opt_view(content_type);
    let has_more = db_items.len() > limit as usize;
    let mut items = db_items;
    items.truncate(limit as usize);
    let ghost p = items@;
    assert(p == db_page(db_items@, limit));
    let next_offset = offset as i64 + items.len() as i64;
    let ghost merged = if offset == 0 {
        merge_session(p, session@.reverse(), ct, smart_group_id)
    } else {
        p
    };
    if offset == 0 {
        let ghost rev = session@.reverse();
        let n = session.len();
        let mut k: usize = n;
        assert(rev.take(0) =~= Seq::<ClipboardEntry>::empty());
        assert forall|i: int| 0 <= i < items@.len() implies same_entry(#[trigger] items@[i], p[i]) by {}
        while k > 0
            invariant
                n == session@.len(),
                rev == session@.reverse(),
                ct == opt_view(content_type),
                k <= n,
                same_entries(items@, merge_session(p, rev.take(n - k), ct, smart_group_id)),
            decreases k,
        {
            k = k - 1;
            let item = &session[k];
            proof {
                let j = n - 1 - k;
                let t = rev.take(j + 1);
                assert(t.drop_last() =~= rev.take(j as int));
                assert(t.last() == session@[k as int]);
                lemma_has_id_same(items@, merge_session(p, rev.take(j as int), ct, smart_group_id), item.id);
                let m = merge_session(p, rev.take(j as int), ct, smart_group_id);
                assert(merge_session(p, t, ct, smart_group_id) == if admits(*item, ct, smart_group_id) && !has_id(m, item.id) {
                    m.push(*item)
                } else {
                    m
                });
            }
            let ghost before = items@;
            if admits_exec(item, content_type, smart_group_id) && !contains_id(&items, item.id) {
                items.push(item.copy());
                proof {
                    let m = merge_session(p, rev.take((n - 1 - k) as int), ct, smart_group_id);
                    assert forall|i: int| 0 <= i < items@.len() implies same_entry(#[trigger] items@[i], m.push(*item)[i]) by {
                        if i < before.len() {
                            assert(items@[i] == before[i]);
                        }
                    }
                }
            }
        }
        assert(rev.take(n as int) =~= rev);
    }
    assert(same_entries(items@, merged));
    let sorted = sort_entries(items, EntryOrder::History);
    proof {
        lemma_sorted_same(items@, merged, EntryOrder::History);
    }
    HistoryPage { items: sorted, has_more, next_offset }
}

// ───────────────────────────── search ─────────────────────────────

/// Some tag of the entry contains the (lower-case) term, compared in lower case.
pub open spec fn tag_hit(e: ClipboardEntry, term: Seq<char>) -> bool {
    exists|k: int| 0 <= k < e.tags@.len() && seq_contains(spec_lowercase((#[trigger] e.tags@[k])@), term)
}

/// A session entry matches the search: by tag only, or by content, source
/// application or tag, compared in lower case.
pub open spec fn search_hit(e: ClipboardEntry, term: Seq<char>, tag_only: bool) -> bool {
    if tag_only {
        tag_hit(e, term)
    } else {
        seq_contains(spec_lowercase(e.content@), term) || seq_contains(spec_lowercase(e.source_app@), term)
            || tag_hit(e, term)
    }
}

/// `items` followed by the matching `incoming` entries, in order, whose id is
/// zero or not yet present.
pub open spec fn merge_search(
    items: Seq<ClipboardEntry>,
    incoming: Seq<ClipboardEntry>,
    term: Seq<char>,
    tag_only: bool,
) -> Seq<ClipboardEntry>
    decreases incoming.len(),
{
    if incoming.len() == 0 {
        items
    } else {
        let m = merge_search(items, incoming.drop_last(), term, tag_only);
        let x = incoming.last();
        if search_hit(x, term, tag_only) && !(x.id != 0 && has_id(m, x.id)) {
            m.push(x)
        } else {
            m
        }
    }
}

/// The search results: the stored hits and
/// the session hits (newest first), newest first, at most `limit` of them.
pub open spec fn search_entries(
    db: Seq<ClipboardEntry>,
    session: Seq<ClipboardEntry>,
    search_term: Seq<char>,
    limit: i32,
    tag_only: bool,
) -> Seq<ClipboardEntry> {
    let ordered = sorted_entries(
        merge_search(db, session.reverse(), spec_lowercase(search_term), tag_only),
        EntryOrder::Search,
    );
    if ordered.len() > limit_len(limit) {
        ordered.take(limit_len(limit))
    } else {
        ordered
    }
}

fn tag_hit_exec(e: &ClipboardEntry, term: &str) -> (b: bool)
    ensures
        b == tag_hit(*e, term@),
{
    let mut k: usize = 0;
    while k < e.tags.len()
        invariant
            k <= e.tags@.len(),
            forall|j: int| 0 <= j < k ==> !seq_contains(spec_lowercase((#[trigger] e.tags@[j])@), term@),
        decreases e.tags@.len() - k,
    {
        let low = str_to_lowercase(e.tags[k].as_str());
        if text_contains(low.as_str(), term) {
            return true;
        }
        k = k + 1;
    }
    false
}

fn search_hit_exec(e: &ClipboardEntry, term: &str, tag_only: bool) -> (b: bool)
    ensures
        b == search_hit(*e, term@, tag_only),
{
    if tag_only {
        tag_hit_exec(e, term)
    } else {
        let c = str_to_lowercase(e.content.as_str());
        if text_contains(c.as_str(), term) {
            return true;
        }
        let a = str_to_lowercase(e.source_app.as_str());
        if text_contains(a.as_str(), term) {
            return true;
        }
        tag_hit_exec(e, term)
    }
}

/// Merges the stored search hits with the matching session entries, orders
/// them newest first and keeps at most `limit`.
pub fn merge_search_results(
    history: Vec<ClipboardEntry>,
    session: &VecDeque<ClipboardEntry>,
    search_term: &str,
    limit: i32,
    tag_only: bool,
) -> (r: Vec<ClipboardEntry>)
    ensures
        same_entries(r@, search_entries(history@, session@, search_term@, limit, tag_only)),
{
    let term = str_to_lowercase(search_term);
    let ghost t = term@;
    let ghost h0 = history@;
    let mut items = history;
    let ghost rev = session@.reverse();
    let n = session.len();
    let mut k: usize = n;
    assert(rev.take(0) =~= Seq::<ClipboardEntry>::empty());
    assert forall|i: int| 0 <= i < items@.len() implies same_entry(#[trigger] items@[i], h0[i]) by {}
    while k > 0
        invariant
            n == session@.len(),
            rev == session@.reverse(),
            k <= n,
            t == term@,
            same_entries(items@, merge_search(h0, rev.take(n - k), t, tag_only)),
        decreases k,
    {
        k = k - 1;
        let item = &session[k];
        proof {
            let j = n - 1 - k;
            let u = rev.take(j + 1);
            assert(u.drop_last() =~= rev.take(j as int));
            assert(u.last() == session@[k as int]);
            lemma_has_id_same(items@, merge_search(h0, rev.take(j as int), t, tag_only), item.id);
        }
        let ghost before = items@;
        if search_hit_exec(item, term.as_str(), tag_only) && !(item.id != 0 && contains_id(&items, item.id)) {
            items.push(item.copy());
            proof {
                let m = merge_search(h0, rev.take((n - 1 - k) as int), t, tag_only);
                assert forall|i: int| 0 <= i < items@.len() implies same_entry(#[trigger] items@[i], m.push(*item)[i]) by {
                    if i < before.len() {
                        assert(items@[i] == before[i]);
                    }
                }
            }
        }
    }
    assert(rev.take(n as int) =~= rev);
    let ghost merged = merge_search(h0, rev, t, tag_only);
    let mut sorted = sort_entries(items, EntryOrder::Search);
    proof {
        lemma_sorted_same(items@, merged, EntryOrder::Search);
    }
    let ghost full = sorted@;
    if sorted.len() > limit as usize {
        sorted.truncate(limit as usize);
    }
    proof {
        let target = search_entries(h0, session@, search_term@, limit, tag_only);
        assert forall|i: int| 0 <= i < sorted@.len() implies same_entry(#[trigger] sorted@[i], target[i]) by {
            assert(sorted@[i] == full[i]);
        }
    }
    sorted
}

// ───────────────────────────── session edits ─────────────────────────────

/// Which session entries an edit keeps.
pub enum SessionFilter {
    /// Entries with another id (deleting one entry).
    WithoutId(i64),
    /// Pinned or tagged entries (clearing the history).
    PinnedOrTagged,
    /// Entries that do not carry the tag (deleting a tag everywhere).
    WithoutTag(String),
}

/// The entry carries the tag.
pub open spec fn carries_tag(e: ClipboardEntry, tag: Seq<char>) -> bool {
    exists|k: int| 0 <= k < e.tags@.len() && (#[trigger] e.tags@[k])@ == tag
}

/// What a filter keeps, with the tag held as text.
pub enum FilterModel {
    WithoutId(i64),
    PinnedOrTagged,
    WithoutTag(Seq<char>),
}

impl SessionFilter {
    pub open spec fn model(self) -> FilterModel {
        match self {
            SessionFilter::WithoutId(id) => FilterModel::WithoutId(id),
            SessionFilter::PinnedOrTagged => FilterModel::PinnedOrTagged,
            SessionFilter::WithoutTag(tag) => FilterModel::WithoutTag(tag@),
        }
    }
}

pub open spec fn filter_keeps(f: FilterModel, e: ClipboardEntry) -> bool {
    match f {
        FilterModel::WithoutId(id) => e.id != id,
        FilterModel::PinnedOrTagged => e.is_pinned || e.tags@.len() > 0,
        FilterModel::WithoutTag(tag) => !carries_tag(e, tag),
    }
}

/// The entries that the filter keeps, in order.
pub open spec fn kept_entries(s: Seq<ClipboardEntry>, f: FilterModel) -> Seq<ClipboardEntry>
    decreases s.len(),
{
    if s.len() == 0 {
        s
    } else {
        let r = kept_entries(s.drop_last(), f);
        if filter_keeps(f, s.last()) {
            r.push(s.last())
        } else {
            r
        }
    }
}

fn carries_tag_exec(e: &ClipboardEntry, tag: &str) -> (b: bool)
    ensures
        b == carries_tag(*e, tag@),
{
    let mut k: usize = 0;
    while k < e.tags.len()
        invariant
            k <= e.tags@.len(),
            forall|j: int| 0 <= j < k ==> (#[trigger] e.tags@[j])@ != tag@,
        decreases e.tags@.len() - k,
    {
        if text_eq(e.tags[k].as_str(), tag) {
            return true;
        }
        k = k + 1;
    }
    false
}

fn filter_keeps_exec(f: &SessionFilter, e: &ClipboardEntry) -> (b: bool)
    ensures
        b == filter_keeps(f.model(), *e),
{
    match f {
        SessionFilter::WithoutId(id) => e.id != *id,
        SessionFilter::PinnedOrTagged => e.is_pinned || e.tags.len() > 0,
        SessionFilter::WithoutTag(tag) => !carries_tag_exec(e, tag.as_str()),
    }
}

/// Keeps the session entries that the filter keeps, in order.
pub fn retain_session(session: &mut VecDeque<ClipboardEntry>, f: &SessionFilter)
    ensures
        final(session)@ == kept_entries(old(session)@, f.model()),
{
    let ghost s = session@;
    let n = session.len();
    let mut j: usize = 0;
    assert(s.skip(0) =~= s);
    assert(s.take(0) =~= Seq::<ClipboardEntry>::empty());
    assert(session@ =~= s.skip(0) + kept_entries(s.take(0), f.model()));
    while j < n
        invariant
            n == s.len(),
            j <= n,
            session@ == s.skip(j as int) + kept_entries(s.take(j as int), f.model()),
        decreases n - j,
    {
        let x = session.pop_front();
        match x {
            Some(e) => {
                proof {
                    assert(e == s[j as int]);
                    let u = s.take(j + 1);
                    assert(u.drop_last() =~= s.take(j as int));
                    assert(u.last() == e);
                }
                let ghost rest = session@;
                if filter_keeps_exec(f, &e) {
                    session.push_back(e);
                }
                proof {
                    assert(rest =~= s.skip(j + 1) + kept_entries(s.take(j as int), f.model()));
                    assert(session@ =~= s.skip(j + 1) + kept_entries(s.take(j + 1), f.model()));
                }
            },
            None => {
                assert(false);
            },
        }
        j = j + 1;
    }
    assert(s.skip(n as int) =~= Seq::<ClipboardEntry>::empty());
    assert(s.take(n as int) =~= s);
    assert(session@ =~= kept_entries(s, f.model()));
}

/// Deletes an entry from the session history.
pub fn remove_session_entry(session: &mut VecDeque<ClipboardEntry>, id: i64)
    ensures
        final(session)@ == kept_entries(old(session)@, FilterModel::WithoutId(id)),
{
    retain_session(session, &SessionFilter::WithoutId(id));
}

/// Clearing the history keeps the pinned and the tagged session entries.
pub fn retain_on_clear(session: &mut VecDeque<ClipboardEntry>)
    ensures
        final(session)@ == kept_entries(old(session)@, FilterModel::PinnedOrTagged),
{
    retain_session(session, &SessionFilter::PinnedOrTagged);
}

/// Deleting a tag everywhere drops the session entries that carry it.
pub fn remove_tagged_session_entries(session: &mut VecDeque<ClipboardEntry>, tag: &str)
    ensures
        final(session)@ == kept_entries(old(session)@, FilterModel::WithoutTag(tag@)),
{
    retain_session(session, &SessionFilter::WithoutTag(tag.to_owned()));
}

/// Stored entries have positive ids; session entries do not.
pub open spec fn is_stored_id(id: i64) -> bool {
    id > 0
}

/// Whether an entry with this id lives in the database (else in the session).
pub fn stored_in_database(id: i64) -> (b: bool)
    ensures
        b == is_stored_id(id),
{
    id > 0
}

/// The number of session entries in the group.
pub open spec fn count_in_group(s: Seq<ClipboardEntry>, group_id: i64) -> nat
    decreases s.len(),
{
    if s.len() == 0 {
        0
    } else {
        count_in_group(s.drop_last(), group_id) + if s.last().smart_group_id == Some(group_id) {
            1nat
        } else {
            0nat
        }
    }
}

/// Counts the session entries assigned to a group.
pub fn session_group_count(session: &VecDeque<ClipboardEntry>, group_id: i64) -> (c: i64)
    ensures
        c == count_in_group(session@, group_id) as i64,
{
    let mut c: usize = 0;
    let mut k: usize = 0;
    assert(session@.take(0) =~= Seq::<ClipboardEntry>::empty());
    while k < session.len()
        invariant
            k <= session@.len(),
            c == count_in_group(session@.take(k as int), group_id),
            c <= k,
        decreases session@.len() - k,
    {
        let hit = match session[k].smart_group_id {
            Some(g) => g == group_id,
            None => false,
        };
        proof {
            let u = session@.take(k + 1);
            assert(u.drop_last() =~= session@.take(k as int));
            assert(u.last() == session@[k as int]);
        }
        if hit {
            c = c + 1;
        }
        k = k + 1;
    }
    assert(session@.take(session@.len() as int) =~= session@);
    c as i64
}

/// The position of the first session entry with the id.
pub fn find_session_entry(session: &VecDeque<ClipboardEntry>, id: i64) -> (r: Option<usize>)
    ensures
        match r {
            Some(k) => k < session@.len() && session@[k as int].id == id && forall|j: int|
                0 <= j < k ==> (#[trigger] session@[j]).id != id,
            None => forall|j: int| 0 <= j < session@.len() ==> (#[trigger] session@[j]).id != id,
        },
{
    let mut k: usize = 0;
    while k < session.len()
        invariant
            k <= session@.len(),
            forall|j: int| 0 <= j < k ==> (#[trigger] session@[j]).id != id,
        decreases session@.len() - k,
    {
        if session[k].id == id {
            return Some(k);
        }
        k = k + 1;
    }
    None
}

// ───────────────────────────── renaming tags ─────────────────────────────

/// `a` sorts before `b` as `String`s do: lexicographically by chars (UTF-8
/// bytes order text as their chars do).
pub open spec fn text_lt(a: Seq<char>, b: Seq<char>) -> bool
    decreases a.len(),
{
    if a.len() == 0 {
        b.len() > 0
    } else if b.len() == 0 {
        false
    } else if a[0] != b[0] {
        a[0] < b[0]
    } else {
        text_lt(a.drop_first(), b.drop_first())
    }
}

fn text_lt_exec(a: &str, b: &str) -> (r: bool)
    ensures
        r == text_lt(a@, b@),
{
    let va = chars_of(a);
    let vb = chars_of(b);
    let mut i: usize = 0;
    assert(va@.skip(0) =~= va@);
    assert(vb@.skip(0) =~= vb@);
    while i < va.len() && i < vb.len() && va[i] == vb[i]
        invariant
            i <= va.len(),
            i <= vb.len(),
            va@ == a@,
            vb@ == b@,
            text_lt(a@, b@) == text_lt(va@.skip(i as int), vb@.skip(i as int)),
        decreases va.len() - i,
    {
        proof {
            assert(va@.skip(i as int).drop_first() =~= va@.skip(i + 1));
            assert(vb@.skip(i as int).drop_first() =~= vb@.skip(i + 1));
        }
        i = i + 1;
    }
    proof {
        if i < va.len() {
            assert(va@.skip(i as int)[0] == va@[i as int]);
        }
        if i < vb.len() {
            assert(vb@.skip(i as int)[0] == vb@[i as int]);
        }
    }
    if i == va.len() {
        i < vb.len()
    } else if i == vb.len() {
        false
    } else {
        va[i] < vb[i]
    }
}

/// The tags with `old` replaced by `new`.
pub open spec fn replaced(tags: Seq<Seq<char>>, old: Seq<char>, new: Seq<char>) -> Seq<Seq<char>> {
    tags.map_values(|t: Seq<char>| if t == old { new } else { t })
}

pub open spec fn text_insert_pos(s: Seq<Seq<char>>, x: Seq<char>) -> nat
    decreases s.len(),
{
    if s.len() == 0 {
        0
    } else if text_lt(x, s[0]) {
        0
    } else {
        1 + text_insert_pos(s.drop_first(), x)
    }
}

/// The texts in ascending order, as `Vec<String>::sort` leaves them.
pub open spec fn sorted_texts(s: Seq<Seq<char>>) -> Seq<Seq<char>>
    decreases s.len(),
{
    if s.len() == 0 {
        s
    } else {
        let r = sorted_texts(s.drop_last());
        r.insert(text_insert_pos(r, s.last()) as int, s.last())
    }
}

/// The texts without consecutive repeats, as `Vec::dedup` leaves them.
pub open spec fn deduped(s: Seq<Seq<char>>) -> Seq<Seq<char>>
    decreases s.len(),
{
    if s.len() <= 1 {
        s
    } else {
        let r = deduped(s.drop_last());
        if s.last() == s[s.len() - 2] {
            r
        } else {
            r.push(s.last())
        }
    }
}

/// The tags of an entry after `old` is renamed to `new`: replaced, sorted,
/// repeats removed.
pub open spec fn renamed_tags(tags: Seq<Seq<char>>, old: Seq<char>, new: Seq<char>) -> Seq<Seq<char>> {
    deduped(sorted_texts(replaced(tags, old, new)))
}

proof fn lemma_text_insert_pos_bound(s: Seq<Seq<char>>, x: Seq<char>)
    ensures
        text_insert_pos(s, x) <= s.len(),
    decreases s.len(),
{
    if s.len() > 0 {
        lemma_text_insert_pos_bound(s.drop_first(), x);
    }
}

proof fn lemma_deduped_last(s: Seq<Seq<char>>)
    requires
        s.len() > 0,
    ensures
        deduped(s).len() > 0,
        deduped(s).last() == s.last(),
    decreases s.len(),
{
    if s.len() > 1 {
        lemma_deduped_last(s.drop_last());
    }
}

/// Renames the tag in a tag list, then sorts it and removes repeats.
pub fn rename_in_tags(tags: Vec<String>, old_name: &str, new_name: &str) -> (r: Vec<String>)
    ensures
        views(r@) == renamed_tags(views(tags@), old_name@, new_name@),
{
    let ghost s = views(tags@);
    let ghost rep = replaced(s, old_name@, new_name@);
    // replace and sort
    let mut sorted: Vec<String> = Vec::new();
    assert(rep.take(0) =~= Seq::<Seq<char>>::empty());
    assert(views(sorted@) =~= Seq::<Seq<char>>::empty());
    for t in it: tags
        invariant
            views(it.seq()) == s,
            rep == replaced(s, old_name@, new_name@),
            views(sorted@) == sorted_texts(rep.take(it.index() as int)),
    {
        let ghost k = it.index();
        assert(it.seq()[k as int]@ == s[k as int]);
        let x = if text_eq(t.as_str(), old_name) {
            new_name.to_owned()
        } else {
            t
        };
        assert(x@ == rep[k as int]);
        let mut p: usize = 0;
        let ghost cur = views(sorted@);
        assert(cur.skip(0) =~= cur);
        while p < sorted.len() && !text_lt_exec(x.as_str(), sorted[p].as_str())
            invariant
                p <= sorted.len(),
                cur == views(sorted@),
                text_insert_pos(cur, x@) == p + text_insert_pos(cur.skip(p as int), x@),
            decreases sorted.len() - p,
        {
            proof {
                let u = cur.skip(p as int);
                assert(u[0] == sorted@[p as int]@);
                assert(u.drop_first() =~= cur.skip(p + 1));
            }
            p = p + 1;
        }
        proof {
            let u = cur.skip(p as int);
            if p < sorted.len() {
                assert(u[0] == sorted@[p as int]@);
            } else {
                assert(u.len() == 0);
            }
            let w = rep.take(k + 1);
            assert(w.drop_last() =~= rep.take(k as int));
            assert(w.last() == x@);
        }
        let ghost xv = x@;
        sorted.insert(p, x);
        assert(views(sorted@) =~= cur.insert(p as int, xv));
    }
    assert(rep.take(rep.len() as int) =~= rep);
    // remove consecutive repeats
    let ghost srt = views(sorted@);
    let mut out: Vec<String> = Vec::new();
    assert(srt.take(0) =~= Seq::<Seq<char>>::empty());
    assert(views(out@) =~= Seq::<Seq<char>>::empty());
    for t in it: sorted
        invariant
            views(it.seq()) == srt,
            views(out@) == deduped(srt.take(it.index() as int)),
    {
        let ghost k = it.index();
        assert(it.seq()[k as int]@ == srt[k as int]);
        proof {
            let w = srt.take(k + 1);
            assert(w.drop_last() =~= srt.take(k as int));
            if k > 0 {
                lemma_deduped_last(srt.take(k as int));
                assert(w[w.len() - 2] == srt[k - 1]);
                assert(srt.take(k as int).last() == srt[k - 1]);
            }
        }
        let ghost before = views(out@);
        let ghost tv = t@;
        let repeat = out.len() > 0 && text_eq(out[out.len() - 1].as_str(), t.as_str());
        if !repeat {
            out.push(t);
            assert(views(out@) =~= before.push(tv));
        }
    }
    assert(srt.take(srt.len() as int) =~= srt);
    out
}

/// All fields of `a` and `b` agree except the tags.
pub open spec fn same_but_tags(a: ClipboardEntry, b: ClipboardEntry) -> bool {
    &&& a.id == b.id
    &&& a.content_type == b.content_type
    &&& a.content == b.content
    &&& a.html_content == b.html_content
    &&& a.source_app == b.source_app
    &&& a.source_app_path == b.source_app_path
    &&& a.timestamp == b.timestamp
    &&& a.preview == b.preview
    &&& a.is_pinned == b.is_pinned
    &&& a.use_count == b.use_count
    &&& a.is_external == b.is_external
    &&& a.pinned_order == b.pinned_order
    &&& a.file_preview_exists == b.file_preview_exists
    &&& a.smart_group_id == b.smart_group_id
    &&& a.smart_group_name == b.smart_group_name
    &&& a.note == b.note
    &&& a.group_confidence_e5 == b.group_confidence_e5
    &&& a.group_reason == b.group_reason
    &&& a.group_match_type == b.group_match_type
    &&& a.group_manual_override == b.group_manual_override
}

/// Renames a tag in every session entry; every entry's tags end up sorted
/// and without repeats.
pub fn rename_tag_in_session(session: &mut VecDeque<ClipboardEntry>, old_name: &str, new_name: &str)
    ensures
        final(session)@.len() == old(session)@.len(),
        forall|i: int|
            0 <= i < old(session)@.len() ==> {
                &&& same_but_tags(#[trigger] final(session)@[i], old(session)@[i])
                &&& views(final(session)@[i].tags@) == renamed_tags(
                    views(old(session)@[i].tags@),
                    old_name@,
                    new_name@,
                )
            },
{
    let ghost s = session@;
    let n = session.len();
    let mut j: usize = 0;
    assert(session@.skip(0) =~= s);
    while j < n
        invariant
            n == s.len(),
            j <= n,
            session@.len() == n,
            forall|i: int| 0 <= i < n - j ==> #[trigger] session@[i] == s[i + j],
            forall|i: int|
                0 <= i < j ==> {
                    &&& same_but_tags(#[trigger] session@[n - j + i], s[i])
                    &&& views(session@[n - j + i].tags@) == renamed_tags(
                        views(s[i].tags@),
                        old_name@,
                        new_name@,
                    )
                },
        decreases n - j,
    {
        let ghost before = session@;
        let x = session.pop_front();
        match x {
            Some(e) => {
                assert(e == s[j as int]);
                let mut e2 = e;
                let mut tags: Vec<String> = Vec::new();
                std::mem::swap(&mut tags, &mut e2.tags);
                e2.tags = rename_in_tags(tags, old_name, new_name);
                session.push_back(e2);
                proof {
                    assert forall|i: int| 0 <= i < n - (j + 1) implies #[trigger] session@[i] == s[i + j + 1] by {
                        assert(session@[i] == before[i + 1]);
                    }
                    assert forall|i: int| 0 <= i < j + 1 implies {
                        &&& same_but_tags(#[trigger] session@[n - (j + 1) + i], s[i])
                        &&& views(session@[n - (j + 1) + i].tags@) == renamed_tags(
                            views(s[i].tags@),
                            old_name@,
                            new_name@,
                        )
                    } by {
                        if i < j {
                            assert(session@[n - (j + 1) + i] == before[n - j + i]);
                        }
                    }
                }
            },
            None => {
                assert(false);
            },
        }
        j = j + 1;
    }
    assert forall|i: int| 0 <= i < n implies {
        &&& same_but_tags(#[trigger] session@[i], s[i])
        &&& views(session@[i].tags@) == renamed_tags(views(s[i].tags@), old_name@, new_name@)
    } by {
        assert(session@[n - j + i] == session@[i]);
    }
}

// ───────────────────────────── laws ─────────────────────────────

/// No entry of `s` comes strictly before an earlier one.
pub open spec fn in_order(s: Seq<ClipboardEntry>, order: EntryOrder) -> bool {
    forall|i: int, j: int| 0 <= i < j < s.len() ==> !precedes(#[trigger] s[j], #[trigger] s[i], order)
}

/// No two entries share an id.
pub open spec fn distinct_ids(s: Seq<ClipboardEntry>) -> bool {
    forall|i: int, j: int| 0 <= i < j < s.len() ==> (#[trigger] s[i]).id != (#[trigger] s[j]).id
}

proof fn lemma_precedes_transitive(a: ClipboardEntry, b: ClipboardEntry, c: ClipboardEntry, order: EntryOrder)
    requires
        precedes(a, b, order),
        precedes(b, c, order),
    ensures
        precedes(a, c, order),
{
}

proof fn lemma_precedes_asymmetric(a: ClipboardEntry, b: ClipboardEntry, order: EntryOrder)
    ensures
        !(precedes(a, b, order) && precedes(b, a, order)),
{
}

proof fn lemma_insert_pos_props(s: Seq<ClipboardEntry>, x: ClipboardEntry, order: EntryOrder)
    ensures
        insert_pos(s, x, order) <= s.len(),
        forall|i: int| 0 <= i < insert_pos(s, x, order) ==> !precedes(x, #[trigger] s[i], order),
        insert_pos(s, x, order) < s.len() ==> precedes(x, s[insert_pos(s, x, order) as int], order),
    decreases s.len(),
{
    if s.len() > 0 && !precedes(x, s[0], order) {
        lemma_insert_pos_props(s.drop_first(), x, order);
        assert forall|i: int| 0 <= i < insert_pos(s, x, order) implies !precedes(x, #[trigger] s[i], order) by {
            if i > 0 {
                assert(s[i] == s.drop_first()[i - 1]);
            }
        }
    }
}

/// Sorting lists every entry in order and keeps exactly the entries given.
pub proof fn law_sorted_entries_in_order(s: Seq<ClipboardEntry>, order: EntryOrder)
    ensures
        in_order(sorted_entries(s, order), order),
        sorted_entries(s, order).to_multiset() == s.to_multiset(),
    decreases s.len(),
{
    broadcast use vstd::seq_lib::to_multiset_insert, vstd::seq_lib::to_multiset_build;

    if s.len() > 0 {
        law_sorted_entries_in_order(s.drop_last(), order);
        let r = sorted_entries(s.drop_last(), order);
        let x = s.last();
        lemma_insert_pos_props(r, x, order);
        let p = insert_pos(r, x, order) as int;
        let t = r.insert(p, x);
        assert forall|i: int, j: int| 0 <= i < j < t.len() implies !precedes(#[trigger] t[j], #[trigger] t[i], order) by {
            if j < p {
                assert(t[i] == r[i] && t[j] == r[j]);
            } else if j == p {
                assert(t[i] == r[i]);
            } else if i < p {
                assert(t[i] == r[i] && t[j] == r[j - 1]);
            } else if i == p {
                assert(t[j] == r[j - 1]);
                if precedes(r[j - 1], x, order) {
                    assert(precedes(x, r[p], order));
                    if j - 1 > p {
                        lemma_precedes_transitive(r[j - 1], x, r[p], order);
                    } else {
                        lemma_precedes_asymmetric(x, r[p], order);
                    }
                }
            } else {
                assert(t[i] == r[i - 1] && t[j] == r[j - 1]);
            }
        }
        assert(s =~= s.drop_last().push(x));
    }
}

/// Merging session entries into a page never adds an id that is already
/// there, so a page whose stored rows have distinct ids has distinct ids.
pub proof fn law_page_merge_keeps_ids_distinct(
    items: Seq<ClipboardEntry>,
    incoming: Seq<ClipboardEntry>,
    content_type: Option<Seq<char>>,
    group: Option<i64>,
)
    requires
        distinct_ids(items),
    ensures
        distinct_ids(merge_session(items, incoming, content_type, group)),
    decreases incoming.len(),
{
    if incoming.len() > 0 {
        law_page_merge_keeps_ids_distinct(items, incoming.drop_last(), content_type, group);
        let m = merge_session(items, incoming.drop_last(), content_type, group);
        let x = incoming.last();
        if admits(x, content_type, group) && !has_id(m, x.id) {
            let t = m.push(x);
            assert forall|i: int, j: int| 0 <= i < j < t.len() implies (#[trigger] t[i]).id != (#[trigger] t[j]).id by {
                if j == m.len() {
                    assert(t[i] == m[i]);
                } else {
                    assert(t[i] == m[i] && t[j] == m[j]);
                }
            }
        }
    }
}

/// Sorting keeps ids distinct.
pub proof fn law_sorting_keeps_ids_distinct(s: Seq<ClipboardEntry>, order: EntryOrder)
    requires
        distinct_ids(s),
    ensures
        distinct_ids(sorted_entries(s, order)),
    decreases s.len(),
{
    if s.len() > 0 {
        let p0 = s.drop_last();
        assert forall|i: int, j: int| 0 <= i < j < p0.len() implies (#[trigger] p0[i]).id != (#[trigger] p0[j]).id by {
            assert(p0[i] == s[i] && p0[j] == s[j]);
        }
        law_sorting_keeps_ids_distinct(p0, order);
        law_sorted_entries_in_order(p0, order);
        let r = sorted_entries(p0, order);
        let x = s.last();
        lemma_insert_pos_bound(r, x, order);
        let p = insert_pos(r, x, order) as int;
        let t = r.insert(p, x);
        assert forall|k: int| 0 <= k < r.len() implies (#[trigger] r[k]).id != x.id by {
            broadcast use vstd::seq_lib::to_multiset_contains;
            assert(r.contains(r[k]));
            assert(r.to_multiset().count(r[k]) > 0);
            assert(p0.to_multiset().count(r[k]) > 0);
            assert(p0.contains(r[k]));
            let q = choose|q: int| 0 <= q < p0.len() && p0[q] == r[k];
            assert(s[q] == p0[q]);
            assert(s[s.len() - 1] == x);
        }
        assert forall|i: int, j: int| 0 <= i < j < t.len() implies (#[trigger] t[i]).id != (#[trigger] t[j]).id by {
            if j < p {
                assert(t[i] == r[i] && t[j] == r[j]);
            } else if j == p {
                assert(t[i] == r[i]);
            } else if i < p {
                assert(t[i] == r[i] && t[j] == r[j - 1]);
            } else if i == p {
                assert(t[j] == r[j - 1]);
            } else {
                assert(t[i] == r[i - 1] && t[j] == r[j - 1]);
            }
        }
    }
}

/// The entries of a first history page are in history order and, when the
/// stored rows have distinct ids, no id appears twice.
pub proof fn law_history_page_ordered_and_unique(
    db: Seq<ClipboardEntry>,
    session: Seq<ClipboardEntry>,
    limit: i32,
    offset: i32,
    content_type: Option<Seq<char>>,
    group: Option<i64>,
)
    requires
        distinct_ids(db),
    ensures
        in_order(page_entries(db, session, limit, offset, content_type, group), EntryOrder::History),
        distinct_ids(page_entries(db, session, limit, offset, content_type, group)),
{
    let p = db_page(db, limit);
    assert forall|i: int, j: int| 0 <= i < j < p.len() implies (#[trigger] p[i]).id != (#[trigger] p[j]).id by {
        assert(p[i] == db[i] && p[j] == db[j]);
    }
    let merged = if offset == 0 {
        merge_session(p, session.reverse(), content_type, group)
    } else {
        p
    };
    if offset == 0 {
        law_page_merge_keeps_ids_distinct(p, session.reverse(), content_type, group);
    }
    law_sorted_entries_in_order(merged, EntryOrder::History);
    law_sorting_keeps_ids_distinct(merged, EntryOrder::History);
}

/// Search results are newest first.
pub proof fn law_search_results_newest_first(
    db: Seq<ClipboardEntry>,
    session: Seq<ClipboardEntry>,
    search_term: Seq<char>,
    limit: i32,
    tag_only: bool,
)
    ensures
        in_order(search_entries(db, session, search_term, limit, tag_only), EntryOrder::Search),
{
    let ordered = sorted_entries(
        merge_search(db, session.reverse(), spec_lowercase(search_term), tag_only),
        EntryOrder::Search,
    );
    law_sorted_entries_in_order(
        merge_search(db, session.reverse(), spec_lowercase(search_term), tag_only),
        EntryOrder::Search,
    );
    let r = search_entries(db, session, search_term, limit, tag_only);
    assert forall|i: int, j: int| 0 <= i < j < r.len() implies !precedes(#[trigger] r[j], #[trigger] r[i], EntryOrder::Search) by {
        assert(r[i] == ordered[i] && r[j] == ordered[j]);
    }
}

proof fn lemma_text_lt_irreflexive(a: Seq<char>)
    ensures
        !text_lt(a, a),
    decreases a.len(),
{
    if a.len() > 0 {
        lemma_text_lt_irreflexive(a.drop_first());
    }
}

proof fn lemma_text_lt_transitive(a: Seq<char>, b: Seq<char>, c: Seq<char>)
    requires
        text_lt(a, b),
        text_lt(b, c),
    ensures
        text_lt(a, c),
    decreases a.len(),
{
    if a.len() > 0 && b.len() > 0 && c.len() > 0 && a[0] == b[0] && b[0] == c[0] {
        lemma_text_lt_transitive(a.drop_first(), b.drop_first(), c.drop_first());
    }
}

proof fn lemma_text_lt_total(a: Seq<char>, b: Seq<char>)
    requires
        a != b,
    ensures
        text_lt(a, b) || text_lt(b, a),
    decreases a.len(),
{
    if a.len() > 0 && b.len() > 0 && a[0] == b[0] {
        if a.drop_first() == b.drop_first() {
            assert(a =~= seq![a[0]] + a.drop_first());
            assert(b =~= seq![b[0]] + b.drop_first());
        }
        lemma_text_lt_total(a.drop_first(), b.drop_first());
    } else if a.len() == 0 && b.len() == 0 {
        assert(a =~= b);
    }
}

/// No text comes before an earlier one.
pub open spec fn texts_ascending(s: Seq<Seq<char>>) -> bool {
    forall|i: int, j: int| 0 <= i < j < s.len() ==> !text_lt(#[trigger] s[j], #[trigger] s[i])
}

/// Every text comes strictly after the earlier ones.
pub open spec fn texts_strictly_ascending(s: Seq<Seq<char>>) -> bool {
    forall|i: int, j: int| 0 <= i < j < s.len() ==> text_lt(#[trigger] s[i], #[trigger] s[j])
}

proof fn lemma_text_insert_pos_props(s: Seq<Seq<char>>, x: Seq<char>)
    ensures
        text_insert_pos(s, x) <= s.len(),
        forall|i: int| 0 <= i < text_insert_pos(s, x) ==> !text_lt(x, #[trigger] s[i]),
        text_insert_pos(s, x) < s.len() ==> text_lt(x, s[text_insert_pos(s, x) as int]),
    decreases s.len(),
{
    if s.len() > 0 && !text_lt(x, s[0]) {
        lemma_text_insert_pos_props(s.drop_first(), x);
        assert forall|i: int| 0 <= i < text_insert_pos(s, x) implies !text_lt(x, #[trigger] s[i]) by {
            if i > 0 {
                assert(s[i] == s.drop_first()[i - 1]);
            }
        }
    }
}

proof fn lemma_sorted_texts_ascending(s: Seq<Seq<char>>)
    ensures
        texts_ascending(sorted_texts(s)),
    decreases s.len(),
{
    if s.len() > 0 {
        lemma_sorted_texts_ascending(s.drop_last());
        let r = sorted_texts(s.drop_last());
        let x = s.last();
        lemma_text_insert_pos_props(r, x);
        let p = text_insert_pos(r, x) as int;
        let t = r.insert(p, x);
        assert forall|i: int, j: int| 0 <= i < j < t.len() implies !text_lt(#[trigger] t[j], #[trigger] t[i]) by {
            if j < p {
                assert(t[i] == r[i] && t[j] == r[j]);
            } else if j == p {
                assert(t[i] == r[i]);
            } else if i < p {
                assert(t[i] == r[i] && t[j] == r[j - 1]);
            } else if i == p {
                assert(t[j] == r[j - 1]);
                if text_lt(r[j - 1], x) {
                    lemma_text_lt_transitive(r[j - 1], x, r[p]);
                    if j - 1 == p {
                        lemma_text_lt_irreflexive(r[p]);
                    }
                }
            } else {
                assert(t[i] == r[i - 1] && t[j] == r[j - 1]);
            }
        }
    }
}

proof fn lemma_deduped_strict(s: Seq<Seq<char>>)
    requires
        texts_ascending(s),
    ensures
        texts_strictly_ascending(deduped(s)),
    decreases s.len(),
{
    if s.len() > 1 {
        let p = s.drop_last();
        assert forall|i: int, j: int| 0 <= i < j < p.len() implies !text_lt(#[trigger] p[j], #[trigger] p[i]) by {
            assert(p[i] == s[i] && p[j] == s[j]);
        }
        lemma_deduped_strict(p);
        let r = deduped(p);
        lemma_deduped_last(p);
        let x = s.last();
        let y = s[s.len() - 2];
        if x != y {
            assert(!text_lt(x, y));
            lemma_text_lt_total(x, y);
            let t = r.push(x);
            assert forall|i: int, j: int| 0 <= i < j < t.len() implies text_lt(#[trigger] t[i], #[trigger] t[j]) by {
                if j == r.len() {
                    assert(t[i] == r[i]);
                    if i < r.len() - 1 {
                        lemma_text_lt_transitive(r[i], r[r.len() - 1], x);
                    }
                } else {
                    assert(t[i] == r[i] && t[j] == r[j]);
                }
            }
        }
    }
}

/// After a rename the tags of an entry are in strictly ascending order: sorted,
/// with no tag twice.
pub proof fn law_renamed_tags_strictly_ascending(tags: Seq<Seq<char>>, old: Seq<char>, new: Seq<char>)
    ensures
        texts_strictly_ascending(renamed_tags(tags, old, new)),
{
    lemma_sorted_texts_ascending(replaced(tags, old, new));
    lemma_deduped_strict(sorted_texts(replaced(tags, old, new)));
}

proof fn lemma_sorted_texts_members(s: Seq<Seq<char>>, t: Seq<char>)
    ensures
        sorted_texts(s).len() == s.len(),
        sorted_texts(s).contains(t) <==> s.contains(t),
    decreases s.len(),
{
    if s.len() > 0 {
        let d = s.drop_last();
        lemma_sorted_texts_members(d, t);
        let r = sorted_texts(d);
        let x = s.last();
        lemma_text_insert_pos_bound(r, x);
        let p = text_insert_pos(r, x) as int;
        let u = r.insert(p, x);
        if u.contains(t) {
            let k = choose|k: int| 0 <= k < u.len() && u[k] == t;
            if k < p {
                assert(r[k] == t);
            } else if k > p {
                assert(r[k - 1] == t);
            }
            if t != x {
                assert(r.contains(t));
                let m = choose|m: int| 0 <= m < d.len() && d[m] == t;
                assert(s[m] == t);
            } else {
                assert(s[s.len() - 1] == t);
            }
        }
        if s.contains(t) {
            let k = choose|k: int| 0 <= k < s.len() && s[k] == t;
            if k == s.len() - 1 {
                assert(u[p] == t);
            } else {
                assert(d[k] == t);
                assert(r.contains(t));
                let m = choose|m: int| 0 <= m < r.len() && r[m] == t;
                if m < p {
                    assert(u[m] == t);
                } else {
                    assert(u[m + 1] == t);
                }
            }
        }
    }
}

proof fn lemma_deduped_members(s: Seq<Seq<char>>, t: Seq<char>)
    ensures
        deduped(s).contains(t) <==> s.contains(t),
    decreases s.len(),
{
    if s.len() > 1 {
        let d = s.drop_last();
        lemma_deduped_members(d, t);
        let r = deduped(d);
        let x = s.last();
        if s.contains(t) {
            let k = choose|k: int| 0 <= k < s.len() && s[k] == t;
            if k < s.len() - 1 {
                assert(d[k] == t);
                assert(d.contains(t));
            } else if x == s[s.len() - 2] {
                assert(d[d.len() - 1] == t);
                assert(d.contains(t));
            } else {
                assert(r.push(x)[r.len() as int] == t);
            }
            if k < s.len() - 1 || x == s[s.len() - 2] {
                assert(r.contains(t));
                if x != s[s.len() - 2] {
                    let m = choose|m: int| 0 <= m < r.len() && r[m] == t;
                    assert(r.push(x)[m] == t);
                }
            }
        }
        if deduped(s).contains(t) {
            if x == s[s.len() - 2] {
                let m = choose|m: int| 0 <= m < d.len() && d[m] == t;
                assert(s[m] == t);
            } else {
                let u = r.push(x);
                let k = choose|k: int| 0 <= k < u.len() && u[k] == t;
                if k < r.len() {
                    assert(r[k] == t);
                    assert(r.contains(t));
                    let m = choose|m: int| 0 <= m < d.len() && d[m] == t;
                    assert(s[m] == t);
                } else {
                    assert(s[s.len() - 1] == t);
                }
            }
        }
    }
}

/// After a rename an entry carries a tag exactly when it carried it before and
/// the tag is not the renamed one, or the tag is the new name and the entry
/// carried the old one: the old name is gone and nothing else is lost or added.
pub proof fn law_rename_keeps_other_tags(tags: Seq<Seq<char>>, old: Seq<char>, new: Seq<char>, t: Seq<char>)
    ensures
        renamed_tags(tags, old, new).contains(t) <==> ((tags.contains(t) && t != old) || (t == new
            && tags.contains(old))),
{
    let rep = replaced(tags, old, new);
    lemma_deduped_members(sorted_texts(rep), t);
    lemma_sorted_texts_members(rep, t);
    if rep.contains(t) {
        let k = choose|k: int| 0 <= k < rep.len() && rep[k] == t;
        if tags[k] == old {
            assert(tags.contains(old));
        } else {
            assert(tags.contains(t));
        }
    }
    if tags.contains(t) && t != old {
        let k = choose|k: int| 0 <= k < tags.len() && tags[k] == t;
        assert(rep[k] == t);
    }
    if t == new && tags.contains(old) {
        let k = choose|k: int| 0 <= k < tags.len() && tags[k] == old;
        assert(rep[k] == t);
    }
}


/// A history page lists pinned entries before unpinned ones; among entries
/// alike in that, a larger pinned order first; then the newer first; then
/// the larger id first.
pub proof fn law_history_page_field_order(
    db: Seq<ClipboardEntry>,
    session: Seq<ClipboardEntry>,
    limit: i32,
    offset: i32,
    content_type: Option<Seq<char>>,
    group: Option<i64>,
)
    ensures
        forall|i: int, j: int|
            0 <= i < j < page_entries(db, session, limit, offset, content_type, group).len() ==> {
                let a = #[trigger] page_entries(db, session, limit, offset, content_type, group)[i];
                let b = #[trigger] page_entries(db, session, limit, offset, content_type, group)[j];
                &&& !(b.is_pinned && !a.is_pinned)
                &&& a.is_pinned == b.is_pinned && a.pinned_order != b.pinned_order ==> a.pinned_order
                    > b.pinned_order
                &&& a.is_pinned == b.is_pinned && a.pinned_order == b.pinned_order ==> a.timestamp
                    >= b.timestamp
                &&& a.is_pinned == b.is_pinned && a.pinned_order == b.pinned_order && a.timestamp
                    == b.timestamp ==> a.id >= b.id
            },
{
    let p = db_page(db, limit);
    let merged = if offset == 0 {
        merge_session(p, session.reverse(), content_type, group)
    } else {
        p
    };
    law_sorted_entries_in_order(merged, EntryOrder::History);
}

/// Search results are ordered newest first, and among entries of one time
/// the larger id first.
pub proof fn law_search_results_field_order(
    db: Seq<ClipboardEntry>,
    session: Seq<ClipboardEntry>,
    search_term: Seq<char>,
    limit: i32,
    tag_only: bool,
)
    ensures
        forall|i: int, j: int|
            0 <= i < j < search_entries(db, session, search_term, limit, tag_only).len() ==> {
                let a = #[trigger] search_entries(db, session, search_term, limit, tag_only)[i];
                let b = #[trigger] search_entries(db, session, search_term, limit, tag_only)[j];
                &&& a.timestamp >= b.timestamp
                &&& a.timestamp == b.timestamp ==> a.id >= b.id
            },
{
    law_search_results_newest_first(db, session, search_term, limit, tag_only);
}

/// A full search finds what a tag-only search finds: an entry matches the
/// full search exactly when its content, its source application or one of
/// its tags contains the term, compared in lower case.
pub proof fn law_full_search_covers_tags(e: ClipboardEntry, term: Seq<char>)
    ensures
        search_hit(e, term, true) ==> search_hit(e, term, false),
        search_hit(e, term, true) == exists|k: int|
            0 <= k < e.tags@.len() && seq_contains(spec_lowercase((#[trigger] e.tags@[k])@), term),
        search_hit(e, term, false) == (seq_contains(spec_lowercase(e.content@), term) || seq_contains(
            spec_lowercase(e.source_app@),
            term,
        ) || exists|k: int|
            0 <= k < e.tags@.len() && seq_contains(spec_lowercase((#[trigger] e.tags@[k])@), term)),
{
}

/// Every incoming entry that matches the search is in the merged results:
/// merged itself, or already present under its id.
pub proof fn law_search_merge_keeps_hits(
    items: Seq<ClipboardEntry>,
    incoming: Seq<ClipboardEntry>,
    term: Seq<char>,
    tag_only: bool,
    k: int,
)
    requires
        0 <= k < incoming.len(),
        search_hit(incoming[k], term, tag_only),
    ensures
        has_id(merge_search(items, incoming, term, tag_only), incoming[k].id),
    decreases incoming.len(),
{
    let m = merge_search(items, incoming.drop_last(), term, tag_only);
    let x = incoming.last();
    let r = merge_search(items, incoming, term, tag_only);
    if k < incoming.len() - 1 {
        assert(incoming.drop_last()[k] == incoming[k]);
        law_search_merge_keeps_hits(items, incoming.drop_last(), term, tag_only, k);
        let id = incoming[k].id;
        let q = choose|q: int| 0 <= q < m.len() && (#[trigger] m[q]).id == id;
        if r != m {
            assert(r == m.push(x));
            assert(r[q] == m[q]);
        }
    } else {
        if search_hit(x, term, tag_only) && !(x.id != 0 && has_id(m, x.id)) {
            assert(r == m.push(x));
            assert(r[m.len() as int].id == x.id);
        }
    }
}

} // verus!
