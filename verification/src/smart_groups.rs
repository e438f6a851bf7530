//! Creating and editing smart groups, their rules and examples, and the SQL
//! text that loads rules and examples for a set of groups.
use vstd::prelude::*;

use crate::compiled_regex::{compile, spec_regex_compiles};
use crate::models::{SmartGroup, SmartGroupExample, SmartGroupRule};
use crate::text::{push_char, push_str, text_eq, text_utf8_len, utf8_len};

verus! {

/// The text held by an optional string, or `default` when there is none.
pub open spec fn text_or(o: Option<String>, default: Seq<char>) -> Seq<char> {
    match o {
        Some(s) => s@,
        None => default,
    }
}

pub open spec fn bool_or(o: Option<bool>, default: bool) -> bool {
    match o {
        Some(b) => b,
        None => default,
    }
}

pub open spec fn int_or(o: Option<i64>, default: i64) -> i64 {
    match o {
        Some(v) => v,
        None => default,
    }
}

/// The color of a group created without one.
pub open spec fn default_group_color() -> Seq<char> {
    "#64748b"@
}

fn string_or(o: Option<String>, default: &str) -> (r: String)
    ensures
        r@ == text_or(o, default@),
{
    match o {
        Some(s) => s,
        None => default.to_owned(),
    }
}

fn string_or_empty(o: Option<String>) -> (r: String)
    ensures
        r@ == text_or(o, Seq::empty()),
{
    match o {
        Some(s) => s,
        None => String::new(),
    }
}

/// A new group, not yet stored (id 0), with the defaults of the create
/// command: empty description and icon, color `#64748b`, enabled, matched
/// automatically, not sensitive, sort order 0.
pub fn new_smart_group(
    name: String,
    description: Option<String>,
    color: Option<String>,
    icon: Option<String>,
    enabled: Option<bool>,
    auto_match_enabled: Option<bool>,
    is_sensitive: Option<bool>,
    sort_order: Option<i64>,
    now: i64,
) -> (g: SmartGroup)
    ensures
        g.id == 0,
        g.name == name,
        g.description@ == text_or(description, Seq::empty()),
        g.color@ == text_or(color, default_group_color()),
        g.icon@ == text_or(icon, Seq::empty()),
        g.enabled == bool_or(enabled, true),
        g.auto_match_enabled == bool_or(auto_match_enabled, true),
        g.is_sensitive == bool_or(is_sensitive, false),
        g.sort_order == int_or(sort_order, 0),
        g.created_at == now,
        g.updated_at == now,
{
    SmartGroup {
        id: 0,
        name,
        description: string_or_empty(description),
        color: string_or(color, "#64748b"),
        icon: string_or_empty(icon),
        enabled: match enabled {
            Some(b) => b,
            None => true,
        },
        auto_match_enabled: match auto_match_enabled {
            Some(b) => b,
            None => true,
        },
        is_sensitive: match is_sensitive {
            Some(b) => b,
            None => false,
        },
        sort_order: match sort_order {
            Some(v) => v,
            None => 0,
        },
        created_at: now,
        updated_at: now,
    }
}

/// Applies an edit to a group: every field that is given replaces the
/// stored one, the others stay; the group is stamped as updated at `now`.
pub fn apply_group_update(
    group: &mut SmartGroup,
    name: Option<String>,
    description: Option<String>,
    color: Option<String>,
    icon: Option<String>,
    enabled: Option<bool>,
    auto_match_enabled: Option<bool>,
    is_sensitive: Option<bool>,
    sort_order: Option<i64>,
    now: i64,
)
    ensures
        final(group).id == old(group).id,
        final(group).name@ == text_or(name, old(group).name@),
        final(group).description@ == text_or(description, old(group).description@),
        final(group).color@ == text_or(color, old(group).color@),
        final(group).icon@ == text_or(icon, old(group).icon@),
        final(group).enabled == bool_or(enabled, old(group).enabled),
        final(group).auto_match_enabled == bool_or(auto_match_enabled, old(group).auto_match_enabled),
        final(group).is_sensitive == bool_or(is_sensitive, old(group).is_sensitive),
        final(group).sort_order == int_or(sort_order, old(group).sort_order),
        final(group).created_at == old(group).created_at,
        final(group).updated_at == now,
{
    if let Some(v) = name {
        group.name = v;
    }
    if let Some(v) = description {
        group.description = v;
    }
    if let Some(v) = color {
        group.color = v;
    }
    if let Some(v) = icon {
        group.icon = v;
    }
    if let Some(v) = enabled {
        group.enabled = v;
    }
    if let Some(v) = auto_match_enabled {
        group.auto_match_enabled = v;
    }
    if let Some(v) = is_sensitive {
        group.is_sensitive = v;
    }
    if let Some(v) = sort_order {
        group.sort_order = v;
    }
    group.updated_at = now;
}

/// A new enabled example of a group, not yet stored (id 0).
pub fn new_group_example(group_id: i64, example_text: String, note: Option<String>, now: i64) -> (e:
    SmartGroupExample)
    ensures
        e.id == 0,
        e.group_id == group_id,
        e.example_text == example_text,
        e.note@ == text_or(note, Seq::empty()),
        e.enabled,
        e.created_at == now,
        e.updated_at == now,
{
    SmartGroupExample {
        id: 0,
        group_id,
        example_text,
        note: string_or_empty(note),
        enabled: true,
        created_at: now,
        updated_at: now,
    }
}

/// Longest regex pattern accepted for a rule, in bytes.
pub const MAX_REGEX_PATTERN_BYTES: u128 = 500;

pub open spec fn too_long_message() -> Seq<char> {
    "正则 pattern 不能超过 500 字符"@
}

pub open spec fn bad_regex_message() -> Seq<char> {
    "正则格式不正确"@
}

/// A rule is accepted unless it is a regex rule whose pattern is longer than
/// 500 bytes or does not compile.
pub open spec fn rule_rejection(rule_type: Seq<char>, pattern: Seq<char>) -> Option<Seq<char>> {
    if rule_type == "regex"@ {
        if utf8_len(pattern) > MAX_REGEX_PATTERN_BYTES {
            Some(too_long_message())
        } else if !spec_regex_compiles(pattern) {
            Some(bad_regex_message())
        } else {
            None
        }
    } else {
        None
    }
}

/// Checks a rule's pattern before it is saved.
pub fn validate_rule_pattern(rule_type: &str, pattern: &str) -> (r: Result<(), String>)
    ensures
        match r {
            Ok(()) => rule_rejection(rule_type@, pattern@) is None,
            Err(msg) => rule_rejection(rule_type@, pattern@) == Some(msg@),
        },
{
    if text_eq(rule_type, "regex") {
        if text_utf8_len(pattern) > MAX_REGEX_PATTERN_BYTES {
            return Err("正则 pattern 不能超过 500 字符".to_owned());
        }
        if compile(pattern).is_none() {
            return Err("正则格式不正确".to_owned());
        }
    }
    Ok(())
}

/// A new enabled rule, not yet stored (id 0), after checking its pattern;
/// the weight defaults to 1.
pub fn prepare_rule(
    group_id: i64,
    rule_type: String,
    pattern: String,
    weight_milli: Option<i32>,
    now: i64,
) -> (r: Result<SmartGroupRule, String>)
    ensures
        match r {
            Ok(rule) => {
                &&& rule_rejection(rule_type@, pattern@) is None
                &&& rule.id == 0
                &&& rule.group_id == group_id
                &&& rule.rule_type == rule_type
                &&& rule.pattern == pattern
                &&& rule.weight_milli == match weight_milli {
                    Some(w) => w,
                    None => 1000,
                }
                &&& rule.enabled
                &&& rule.created_at == now
                &&& rule.updated_at == now
            },
            Err(msg) => rule_rejection(rule_type@, pattern@) == Some(msg@),
        },
{
    match validate_rule_pattern(rule_type.as_str(), pattern.as_str()) {
        Err(msg) => Err(msg),
        Ok(()) => Ok(
            SmartGroupRule {
                id: 0,
                group_id,
                rule_type,
                pattern,
                weight_milli: match weight_milli {
                    Some(w) => w,
                    None => 1000,
                },
                enabled: true,
                created_at: now,
                updated_at: now,
            },
        ),
    }
}

/// The ids of the groups, in order.
pub fn group_ids(groups: &Vec<SmartGroup>) -> (ids: Vec<i64>)
    ensures
        ids@ == groups@.map_values(|g: SmartGroup| g.id),
{
    let mut ids: Vec<i64> = Vec::new();
    let mut i: usize = 0;
    while i < groups.len()
        invariant
            i <= groups.len(),
            ids@ == groups@.take(i as int).map_values(|g: SmartGroup| g.id),
        decreases groups.len() - i,
    {
        ids.push(groups[i].id);
        i = i + 1;
        assert(ids@ =~= groups@.take(i as int).map_values(|g: SmartGroup| g.id));
    }
    assert(groups@.take(groups.len() as int) =~= groups@);
    ids
}

/// `n` SQL parameter markers separated by commas.
pub open spec fn placeholders(n: nat) -> Seq<char>
    decreases n,
{
    if n == 0 {
        Seq::empty()
    } else if n == 1 {
        seq!['?']
    } else {
        placeholders((n - 1) as nat) + seq![',', '?']
    }
}

/// Writes `n` parameter markers separated by commas.
pub fn sql_placeholders(n: usize) -> (r: String)
    ensures
        r@ == placeholders(n as nat),
{
    let mut r = String::new();
    let mut i: usize = 0;
    while i < n
        invariant
            i <= n,
            r@ == placeholders(i as nat),
        decreases n - i,
    {
        if i > 0 {
            push_char(&mut r, ',');
        }
        push_char(&mut r, '?');
        i = i + 1;
        assert(r@ =~= placeholders(i as nat));
    }
    r
}

pub open spec fn rules_query_head() -> Seq<char> {
    "SELECT id, group_id, rule_type, pattern, weight, enabled, created_at, updated_at FROM smart_group_rules WHERE group_id IN ("@
}

pub open spec fn examples_query_head() -> Seq<char> {
    "SELECT id, group_id, example_text, note, enabled, created_at, updated_at FROM smart_group_examples WHERE group_id IN ("@
}

pub open spec fn group_query_tail() -> Seq<char> {
    ") AND enabled = 1 ORDER BY group_id, id"@
}

/// The query for the enabled rules of `n` groups, ordered by group and id.
pub fn rules_for_groups_sql(n: usize) -> (q: String)
    ensures
        q@ == rules_query_head() + placeholders(n as nat) + group_query_tail(),
{
    let mut q = String::new();
    push_str(
        &mut q,
        "SELECT id, group_id, rule_type, pattern, weight, enabled, created_at, updated_at FROM smart_group_rules WHERE group_id IN (",
    );
    let p = sql_placeholders(n);
    push_str(&mut q, p.as_str());
    push_str(&mut q, ") AND enabled = 1 ORDER BY group_id, id");
    q
}

/// The query for the enabled examples of `n` groups, ordered by group and id.
pub fn examples_for_groups_sql(n: usize) -> (q: String)
    ensures
        q@ == examples_query_head() + placeholders(n as nat) + group_query_tail(),
{
    let mut q = String::new();
    push_str(
        &mut q,
        "SELECT id, group_id, example_text, note, enabled, created_at, updated_at FROM smart_group_examples WHERE group_id IN (",
    );
    let p = sql_placeholders(n);
    push_str(&mut q, p.as_str());
    push_str(&mut q, ") AND enabled = 1 ORDER BY group_id, id");
    q
}

} // verus!
