//! The records of the clipboard history and of smart groups.
//!
//! Quantities that are fractional in the user interface are held as
//! integers, so that every computation on them is exact: rule weights and
//! group scores in thousandths, match confidences in hundred-thousandths
//! (a score of 98.72 points gives the confidence 0.9872 exactly).
use vstd::prelude::*;

verus! {

/// One captured clipboard item.
#[derive(Debug)]
pub struct ClipboardEntry {
    pub id: i64,
    /// 'text', 'image', 'code', 'file', 'url', 'rich_text', ...
    pub content_type: String,
    pub content: String,
    pub html_content: Option<String>,
    pub source_app: String,
    pub source_app_path: Option<String>,
    pub timestamp: i64,
    pub preview: String,
    pub is_pinned: bool,
    pub tags: Vec<String>,
    pub use_count: i32,
    /// Whether the content is a file path.
    pub is_external: bool,
    /// Manual order of pinned items.
    pub pinned_order: i64,
    /// Transient: does the previewed file exist on disk?
    pub file_preview_exists: bool,
    pub smart_group_id: Option<i64>,
    pub smart_group_name: String,
    pub note: String,
    /// Confidence of the group assignment, in hundred-thousandths (100000 = certain).
    pub group_confidence_e5: i64,
    pub group_reason: String,
    pub group_match_type: String,
    pub group_manual_override: bool,
}

/// The default of `file_preview_exists` for records that do not carry it.
pub fn default_true() -> (b: bool)
    ensures
        b,
{
    true
}

pub open spec fn empty_text() -> Seq<char> {
    Seq::empty()
}

impl Default for ClipboardEntry {
    fn default() -> (e: Self)
        ensures
            e.id == 0,
            e.content_type@ == empty_text(),
            e.content@ == empty_text(),
            e.html_content is None,
            e.source_app@ == empty_text(),
            e.source_app_path is None,
            e.timestamp == 0,
            e.preview@ == empty_text(),
            !e.is_pinned,
            e.tags@.len() == 0,
            e.use_count == 0,
            !e.is_external,
            e.pinned_order == 0,
            e.file_preview_exists,
            e.smart_group_id is None,
            e.smart_group_name@ == empty_text(),
            e.note@ == empty_text(),
            e.group_confidence_e5 == 0,
            e.group_reason@ == empty_text(),
            e.group_match_type@ == empty_text(),
            !e.group_manual_override,
    {
        ClipboardEntry {
            id: 0,
            content_type: String::new(),
            content: String::new(),
            html_content: None,
            source_app: String::new(),
            source_app_path: None,
            timestamp: 0,
            preview: String::new(),
            is_pinned: false,
            tags: Vec::new(),
            use_count: 0,
            is_external: false,
            pinned_order: 0,
            file_preview_exists: default_true(),
            smart_group_id: None,
            smart_group_name: String::new(),
            note: String::new(),
            group_confidence_e5: 0,
            group_reason: String::new(),
            group_match_type: String::new(),
            group_manual_override: false,
        }
    }
}

/// A copy of an optional text.
pub fn copy_opt_text(o: &Option<String>) -> (r: Option<String>)
    ensures
        r == *o,
{
    match o {
        Some(s) => Some(s.clone()),
        None => None,
    }
}

/// A copy of a list of texts.
pub fn copy_texts(v: &Vec<String>) -> (r: Vec<String>)
    ensures
        r@ == v@,
{
    let mut r: Vec<String> = Vec::new();
    let mut i: usize = 0;
    while i < v.len()
        invariant
            i <= v.len(),
            r@ == v@.take(i as int),
        decreases v.len() - i,
    {
        r.push(v[i].clone());
        i = i + 1;
        assert(r@ =~= v@.take(i as int));
    }
    assert(v@.take(v.len() as int) =~= v@);
    r
}

/// Two entries hold the same data (the tag lists compared by their contents).
pub open spec fn same_entry(a: ClipboardEntry, b: ClipboardEntry) -> bool {
    &&& a.id == b.id
    &&& a.content_type == b.content_type
    &&& a.content == b.content
    &&& a.html_content == b.html_content
    &&& a.source_app == b.source_app
    &&& a.source_app_path == b.source_app_path
    &&& a.timestamp == b.timestamp
    &&& a.preview == b.preview
    &&& a.is_pinned == b.is_pinned
    &&& a.tags@ == b.tags@
    &&& a.use_count == b.use_count
    &&& a.is_external == b.is_external
    &&& a.pinned_order == b.pinned_order
    &&& a.file_preview_exists == b.file_preview_exists
    &&& a.smart_group_id == b.smart_group_id
    &&& a.smart_group_name == b.smart_group_name
    &&& a.note == b.note
    &&& a.group_confidence_e5 == b.group_confidence_e5
    &&& a.group_reason == b.group_reason
    &&& a.group_match_type == b.group_match_type
    &&& a.group_manual_override == b.group_manual_override
}

/// Two lists of entries hold the same data, item by item.
pub open spec fn same_entries(a: Seq<ClipboardEntry>, b: Seq<ClipboardEntry>) -> bool {
    a.len() == b.len() && forall|i: int| 0 <= i < a.len() ==> same_entry(#[trigger] a[i], b[i])
}

impl ClipboardEntry {
    /// A field-by-field copy.
    pub fn copy(&self) -> (r: Self)
        ensures
            same_entry(r, *self),
    {
        ClipboardEntry {
            id: self.id,
            content_type: self.content_type.clone(),
            content: self.content.clone(),
            html_content: copy_opt_text(&self.html_content),
            source_app: self.source_app.clone(),
            source_app_path: copy_opt_text(&self.source_app_path),
            timestamp: self.timestamp,
            preview: self.preview.clone(),
            is_pinned: self.is_pinned,
            tags: copy_texts(&self.tags),
            use_count: self.use_count,
            is_external: self.is_external,
            pinned_order: self.pinned_order,
            file_preview_exists: self.file_preview_exists,
            smart_group_id: self.smart_group_id,
            smart_group_name: self.smart_group_name.clone(),
            note: self.note.clone(),
            group_confidence_e5: self.group_confidence_e5,
            group_reason: self.group_reason.clone(),
            group_match_type: self.group_match_type.clone(),
            group_manual_override: self.group_manual_override,
        }
    }
}

/// A user-defined group that clipboard items are sorted into.
#[derive(Debug)]
pub struct SmartGroup {
    pub id: i64,
    pub name: String,
    pub description: String,
    pub color: String,
    pub icon: String,
    pub enabled: bool,
    pub auto_match_enabled: bool,
    pub is_sensitive: bool,
    pub sort_order: i64,
    pub created_at: i64,
    pub updated_at: i64,
}

impl SmartGroup {
    /// A field-by-field copy.
    pub fn copy(&self) -> (r: Self)
        ensures
            r == *self,
    {
        SmartGroup {
            id: self.id,
            name: self.name.clone(),
            description: self.description.clone(),
            color: self.color.clone(),
            icon: self.icon.clone(),
            enabled: self.enabled,
            auto_match_enabled: self.auto_match_enabled,
            is_sensitive: self.is_sensitive,
            sort_order: self.sort_order,
            created_at: self.created_at,
            updated_at: self.updated_at,
        }
    }
}

/// A matching rule of a group. `rule_type` is one of keyword, regex, prefix,
/// suffix, contains.
#[derive(Debug)]
pub struct SmartGroupRule {
    pub id: i64,
    pub group_id: i64,
    pub rule_type: String,
    pub pattern: String,
    /// The rule's weight in thousandths (1000 = weight 1.0).
    pub weight_milli: i32,
    pub enabled: bool,
    pub created_at: i64,
    pub updated_at: i64,
}

/// A sample text that stands for a group.
#[derive(Debug)]
pub struct SmartGroupExample {
    pub id: i64,
    pub group_id: i64,
    pub example_text: String,
    pub note: String,
    pub enabled: bool,
    pub created_at: i64,
    pub updated_at: i64,
}

/// The outcome of classifying one text.
#[derive(Debug)]
pub struct SmartGroupMatchResult {
    pub smart_group_id: Option<i64>,
    pub smart_group_name: String,
    /// Confidence in hundred-thousandths (100000 = certain).
    pub confidence_e5: i64,
    pub reason: String,
    pub match_type: String,
}

/// `r` is the "no group" outcome with the given reason.
pub open spec fn is_no_match(r: SmartGroupMatchResult, reason: Seq<char>) -> bool {
    &&& r.smart_group_id is None
    &&& r.smart_group_name@ == empty_text()
    &&& r.confidence_e5 == 0
    &&& r.reason@ == reason
    &&& r.match_type@ == empty_text()
}

impl SmartGroupMatchResult {
    /// The outcome that assigns no group, with the given reason.
    pub fn none(reason: &str) -> (r: Self)
        ensures
            is_no_match(r, reason@),
    {
        SmartGroupMatchResult {
            smart_group_id: None,
            smart_group_name: String::new(),
            confidence_e5: 0,
            reason: reason.to_owned(),
            match_type: String::new(),
        }
    }
}

} // verus!
