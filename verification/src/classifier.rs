//! Smart-group classification: every group is scored against a clipboard
//! text by its rules and examples, and the text is assigned to the best
//! group when that group scores high enough and clearly ahead of the rest.
//!
//! Scores are held in thousandths of a point.
use vstd::prelude::*;
use std::collections::HashMap;
use std::time::{Duration, Instant};

use crate::clock::{duration_as_nanos, instant_now, over_budget};
use crate::compiled_regex::{
    compile, escape_char, escaped, is_match, spec_regex_compiles, spec_regex_is_match,
    CompiledRegex,
};
use crate::models::{
    is_no_match, SmartGroup, SmartGroupExample, SmartGroupMatchResult, SmartGroupRule,
};
use crate::text::{
    ascii_alphabetic, ascii_digit, char_is_whitespace, chars_of, is_ascii_alphabetic,
    is_ascii_digit, join, milli_text, normalize_text, push_char, push_str, seq_contains,
    occurs_at, seq_ends_with, seq_join, seq_starts_with, spec_is_whitespace, spec_normalize,
    spec_take_chars, spec_trim, spec_trim_lower, take_chars, trim_lower, text_contains, text_ends_with, text_eq,
    text_starts_with, text_utf8_len, trim, utf8_len, views, format_milli,
};

verus! {

broadcast use vstd::std_specs::hash::group_hash_axioms;

/// Highest score one group can reach (150 points).
pub const GROUP_SCORE_CAP: i128 = 150_000;

/// Lowest score that assigns a group (50 points: one keyword rule of weight 1).
pub const AUTO_MATCH_THRESHOLD: i128 = 50_000;

/// The best group must lead the second by at least this much (15 points).
pub const AMBIGUOUS_GAP: i128 = 15_000;

/// Only this many leading chars of a text are classified.
pub const MAX_CLASSIFY_CHARS: usize = 5000;

/// Examples shorter than this many bytes are not used for matching.
pub const MIN_EXAMPLE_LEN: u128 = 3;

/// Score of an example contained in the text (40 points).
pub const EXAMPLE_CONTAINS_POINTS: i128 = 40_000;

/// Score of an example whose structural template matches the text (60 points).
pub const EXAMPLE_TEMPLATE_POINTS: i128 = 60_000;

/// A rule ready for matching; a regex rule's pattern is compiled once.
pub struct CompiledRule {
    pub rule: SmartGroupRule,
    pub regex: Option<CompiledRegex>,
}

/// An example ready for matching, with its structural template compiled once.
pub struct CompiledExample {
    pub example: SmartGroupExample,
    pub template: Option<CompiledRegex>,
}

/// A group with its rules and examples.
pub struct CompiledGroup {
    pub group: SmartGroup,
    pub rules: Vec<CompiledRule>,
    pub examples: Vec<CompiledExample>,
}

impl CompiledGroup {
    /// The group's own record.
    pub open spec fn record(self) -> SmartGroup {
        self.group
    }

    /// The number of rules of the group.
    pub open spec fn rule_count(self) -> nat {
        self.rules@.len()
    }

    /// The group id that rule `k` carries.
    pub open spec fn rule_group_id(self, k: int) -> i64 {
        self.rules@[k].rule.group_id
    }

    /// The number of examples of the group.
    pub open spec fn example_count(self) -> nat {
        self.examples@.len()
    }

    /// The group id that example `k` carries.
    pub open spec fn example_group_id(self, k: int) -> i64 {
        self.examples@[k].example.group_id
    }
}

/// The group takes part in automatic matching: it is enabled, matched
/// automatically, and has rules or examples.
pub open spec fn is_active(g: CompiledGroup) -> bool {
    g.record().enabled && g.record().auto_match_enabled && (g.rule_count() > 0 || g.example_count() > 0)
}

/// The groups that classification chooses from.
pub struct SmartGroupConfig {
    pub groups: Vec<CompiledGroup>,
}

// ───────────────────────────── scores ─────────────────────────────

/// The points a matching rule of the given type is worth.
pub open spec fn base_points(rule_type: Seq<char>) -> int {
    if rule_type == "regex"@ {
        80
    } else if rule_type == "keyword"@ {
        50
    } else if rule_type == "prefix"@ {
        45
    } else if rule_type == "contains"@ {
        40
    } else if rule_type == "suffix"@ {
        35
    } else {
        0
    }
}

/// Base score per rule type, in points.
pub fn base_score(rule_type: &str) -> (p: i64)
    ensures
        p == base_points(rule_type@),
{
    if text_eq(rule_type, "regex") {
        80
    } else if text_eq(rule_type, "keyword") {
        50
    } else if text_eq(rule_type, "prefix") {
        45
    } else if text_eq(rule_type, "contains") {
        40
    } else if text_eq(rule_type, "suffix") {
        35
    } else {
        0
    }
}

/// Whether a rule matches the normalized text. Keyword, contains, prefix and
/// suffix rules compare the pattern trimmed and lower-cased (inner whitespace
/// kept as it is; it must not be empty); a regex rule matches through its
/// compiled pattern.
pub open spec fn rule_fires(r: CompiledRule, norm: Seq<char>) -> bool {
    let t = r.rule.rule_type@;
    let p = spec_trim_lower(r.rule.pattern@);
    if t == "keyword"@ {
        p.len() > 0 && seq_contains(norm, p)
    } else if t == "regex"@ {
        match r.regex {
            Some(re) => spec_regex_is_match(re@, norm),
            None => false,
        }
    } else if t == "prefix"@ {
        p.len() > 0 && seq_starts_with(norm, p)
    } else if t == "suffix"@ {
        p.len() > 0 && seq_ends_with(norm, p)
    } else if t == "contains"@ {
        p.len() > 0 && seq_contains(norm, p)
    } else {
        false
    }
}

/// The rule counts for the text: it is enabled and it matches.
pub open spec fn rule_counts(r: CompiledRule, norm: Seq<char>) -> bool {
    r.rule.enabled && rule_fires(r, norm)
}

/// The score of a counting rule: its base points times its weight.
pub open spec fn rule_value(r: CompiledRule) -> int {
    base_points(r.rule.rule_type@) * r.rule.weight_milli
}

/// The reason recorded for a counting rule: `type:pattern (score)`.
pub open spec fn rule_reason(r: CompiledRule) -> Seq<char> {
    r.rule.rule_type@ + seq![':'] + r.rule.pattern@ + seq![' ', '('] + milli_text(rule_value(r))
        + seq![')']
}

/// The total score of the counting rules.
pub open spec fn rules_points(rs: Seq<CompiledRule>, norm: Seq<char>) -> int
    decreases rs.len(),
{
    if rs.len() == 0 {
        0
    } else {
        rules_points(rs.drop_last(), norm) + if rule_counts(rs.last(), norm) {
            rule_value(rs.last())
        } else {
            0
        }
    }
}

/// The reasons of the counting rules, in rule order.
pub open spec fn rules_reasons(rs: Seq<CompiledRule>, norm: Seq<char>) -> Seq<Seq<char>>
    decreases rs.len(),
{
    if rs.len() == 0 {
        Seq::empty()
    } else {
        rules_reasons(rs.drop_last(), norm) + if rule_counts(rs.last(), norm) {
            seq![rule_reason(rs.last())]
        } else {
            Seq::empty()
        }
    }
}

/// The example text in the form in which it is compared: trimmed and
/// lower-cased.
pub open spec fn example_norm(e: CompiledExample) -> Seq<char> {
    spec_trim_lower(e.example.example_text@)
}

/// The normalized example is at least three bytes long and occurs in the text.
pub open spec fn example_included(e: CompiledExample, norm: Seq<char>) -> bool {
    utf8_len(example_norm(e)) >= MIN_EXAMPLE_LEN && seq_contains(norm, example_norm(e))
}

/// The example's structural template matches the text.
pub open spec fn example_template_hit(e: CompiledExample, norm: Seq<char>) -> bool {
    match e.template {
        Some(re) => spec_regex_is_match(re@, norm),
        None => false,
    }
}

/// Score of one example: 40 points when it is contained in the text, and 60
/// more when its template matches.
pub open spec fn example_points(e: CompiledExample, norm: Seq<char>) -> int {
    (if example_included(e, norm) { EXAMPLE_CONTAINS_POINTS as int } else { 0 }) + (
    if example_template_hit(e, norm) {
        EXAMPLE_TEMPLATE_POINTS as int
    } else {
        0
    })
}

/// Reasons recorded for one example.
pub open spec fn example_reasons(e: CompiledExample, norm: Seq<char>) -> Seq<Seq<char>> {
    (if example_included(e, norm) {
        seq!["example_contains:"@ + e.example.example_text@]
    } else {
        Seq::empty()
    }) + (if example_template_hit(e, norm) {
        seq!["example_template"@]
    } else {
        Seq::empty()
    })
}

pub open spec fn examples_points(es: Seq<CompiledExample>, norm: Seq<char>) -> int
    decreases es.len(),
{
    if es.len() == 0 {
        0
    } else {
        examples_points(es.drop_last(), norm) + example_points(es.last(), norm)
    }
}

pub open spec fn examples_reasons(es: Seq<CompiledExample>, norm: Seq<char>) -> Seq<Seq<char>>
    decreases es.len(),
{
    if es.len() == 0 {
        Seq::empty()
    } else {
        examples_reasons(es.drop_last(), norm) + example_reasons(es.last(), norm)
    }
}

/// A group's score: the points of its rules and examples, capped at 150.
pub open spec fn group_score(g: CompiledGroup, norm: Seq<char>) -> int {
    let raw = rules_points(g.rules@, norm) + examples_points(g.examples@, norm);
    if raw < GROUP_SCORE_CAP {
        raw
    } else {
        GROUP_SCORE_CAP as int
    }
}

/// The reasons of a group: those of its rules, then those of its examples.
pub open spec fn group_reasons(g: CompiledGroup, norm: Seq<char>) -> Seq<Seq<char>> {
    rules_reasons(g.rules@, norm) + examples_reasons(g.examples@, norm)
}

// ───────────────────────────── choosing a group ─────────────────────────────

pub open spec fn score_at(gs: Seq<CompiledGroup>, norm: Seq<char>, i: int) -> int {
    group_score(gs[i], norm)
}

/// Group `k` scores above zero, no group scores more, and every group before
/// it scores less (the first of the best).
pub open spec fn is_top(gs: Seq<CompiledGroup>, norm: Seq<char>, k: int) -> bool {
    &&& 0 <= k < gs.len()
    &&& score_at(gs, norm, k) > 0
    &&& forall|j: int| 0 <= j < gs.len() ==> #[trigger] score_at(gs, norm, j) <= score_at(gs, norm, k)
    &&& forall|j: int| 0 <= j < k ==> #[trigger] score_at(gs, norm, j) < score_at(gs, norm, k)
}

pub open spec fn any_positive(gs: Seq<CompiledGroup>, norm: Seq<char>) -> bool {
    exists|i: int| 0 <= i < gs.len() && #[trigger] score_at(gs, norm, i) > 0
}

pub open spec fn top_index(gs: Seq<CompiledGroup>, norm: Seq<char>) -> int {
    choose|k: int| is_top(gs, norm, k)
}

/// Another group with a positive score comes within the ambiguity gap of group `k`.
pub open spec fn has_close_rival(gs: Seq<CompiledGroup>, norm: Seq<char>, k: int) -> bool {
    exists|j: int|
        0 <= j < gs.len() && j != k && #[trigger] score_at(gs, norm, j) > 0 && score_at(gs, norm, k)
            - score_at(gs, norm, j) < AMBIGUOUS_GAP
}

/// Content of these types is never classified.
pub open spec fn is_non_text(content_type: Seq<char>) -> bool {
    content_type == "image"@ || content_type == "files"@
}

/// The text that is matched: the first 5000 chars, trimmed and lower-cased.
pub open spec fn classify_norm(content: Seq<char>) -> Seq<char> {
    spec_normalize(spec_take_chars(content, MAX_CLASSIFY_CHARS as int))
}

/// The outcome of classification: the index of the chosen group, or none and
/// the reason why.
pub open spec fn verdict(content: Seq<char>, content_type: Seq<char>, gs: Seq<CompiledGroup>) -> (
    Option<int>,
    Seq<char>,
) {
    let norm = classify_norm(content);
    if gs.len() == 0 {
        (None, "no groups configured"@)
    } else if is_non_text(content_type) {
        (None, "non-text content"@)
    } else if norm.len() == 0 {
        (None, "empty content"@)
    } else if !any_positive(gs, norm) {
        (None, "no rule matched"@)
    } else if score_at(gs, norm, top_index(gs, norm)) < AUTO_MATCH_THRESHOLD {
        (None, "score below threshold"@)
    } else if has_close_rival(gs, norm, top_index(gs, norm)) {
        (None, "ambiguous match"@)
    } else {
        (Some(top_index(gs, norm)), Seq::empty())
    }
}

/// Confidence of an assignment in hundred-thousandths: the score (in
/// thousandths of a point) over 100 points, at most 1; the division is exact.
pub open spec fn confidence_of(score: int) -> int {
    if score < 100_000 {
        score
    } else {
        100_000
    }
}

/// `r` is the result that `verdict` prescribes.
pub open spec fn follows_verdict(
    r: SmartGroupMatchResult,
    content: Seq<char>,
    content_type: Seq<char>,
    gs: Seq<CompiledGroup>,
) -> bool {
    let v = verdict(content, content_type, gs);
    let norm = classify_norm(content);
    match v.0 {
        None => is_no_match(r, v.1),
        Some(k) => {
            &&& r.smart_group_id == Some(gs[k].group.id)
            &&& r.smart_group_name@ == gs[k].group.name@
            &&& r.confidence_e5 == confidence_of(score_at(gs, norm, k))
            &&& r.reason@ == seq_join(group_reasons(gs[k], norm), "; "@)
            &&& r.match_type@ == "auto"@
        },
    }
}

/// Classification stopped because its time budget ran out.
pub open spec fn timed_out(
    r: SmartGroupMatchResult,
    content: Seq<char>,
    content_type: Seq<char>,
    n_groups: int,
) -> bool {
    &&& n_groups > 0
    &&& !is_non_text(content_type)
    &&& classify_norm(content).len() > 0
    &&& is_no_match(r, "classification timeout"@)
}

/// The id of the group that classification assigns, if any.
pub open spec fn verdict_group_id(content: Seq<char>, content_type: Seq<char>, gs: Seq<CompiledGroup>) -> Option<i64> {
    match verdict(content, content_type, gs).0 {
        Some(k) => Some(gs[k].group.id),
        None => None,
    }
}

/// The name of the group that classification assigns (empty when none).
pub open spec fn verdict_group_name(content: Seq<char>, content_type: Seq<char>, gs: Seq<CompiledGroup>) -> Seq<char> {
    match verdict(content, content_type, gs).0 {
        Some(k) => gs[k].group.name@,
        None => Seq::empty(),
    }
}

/// Classification of this content consults the clock, so it may run out of time.
pub open spec fn may_time_out(content: Seq<char>, content_type: Seq<char>, n_groups: int) -> bool {
    n_groups > 0 && !is_non_text(content_type) && classify_norm(content).len() > 0
}

/// What a caller learns from `classify`: the group it assigns is the one of
/// the verdict, with the verdict's name; no group is assigned only when the
/// verdict assigns none or the classification may have run out of time.
pub proof fn lemma_classify_outcome(
    r: SmartGroupMatchResult,
    content: Seq<char>,
    content_type: Seq<char>,
    gs: Seq<CompiledGroup>,
)
    requires
        follows_verdict(r, content, content_type, gs) || timed_out(r, content, content_type, gs.len() as int),
    ensures
        r.smart_group_id is Some ==> r.smart_group_id == verdict_group_id(content, content_type, gs)
            && r.smart_group_name@ == verdict_group_name(content, content_type, gs),
        r.smart_group_id is None ==> verdict_group_id(content, content_type, gs) is None
            || may_time_out(content, content_type, gs.len() as int),
        follows_verdict(r, content, content_type, gs) ==> r.smart_group_id == verdict_group_id(
            content,
            content_type,
            gs,
        ),
{
}

// ───────────────────────────── matching ─────────────────────────────

/// Check if a rule matches the normalized text.
fn rule_matches(rule: &CompiledRule, norm: &str) -> (b: bool)
    ensures
        b == rule_fires(*rule, norm@),
{
    let t = rule.rule.rule_type.as_str();
    if text_eq(t, "keyword") {
        let keyword = trim_lower(rule.rule.pattern.as_str());
        if keyword.as_str().is_empty() {
            return false;
        }
        text_contains(norm, keyword.as_str())
    } else if text_eq(t, "regex") {
        match &rule.regex {
            Some(re) => is_match(re, norm),
            None => false,
        }
    } else if text_eq(t, "prefix") {
        let prefix = trim_lower(rule.rule.pattern.as_str());
        if prefix.as_str().is_empty() {
            return false;
        }
        text_starts_with(norm, prefix.as_str())
    } else if text_eq(t, "suffix") {
        let suffix = trim_lower(rule.rule.pattern.as_str());
        if suffix.as_str().is_empty() {
            return false;
        }
        text_ends_with(norm, suffix.as_str())
    } else if text_eq(t, "contains") {
        let sub = trim_lower(rule.rule.pattern.as_str());
        if sub.as_str().is_empty() {
            return false;
        }
        text_contains(norm, sub.as_str())
    } else {
        false
    }
}

/// Check if an example matches the text: (contained, template matches).
fn example_matches(compiled: &CompiledExample, norm: &str) -> (r: (bool, bool))
    ensures
        r.0 == example_included(*compiled, norm@),
        r.1 == example_template_hit(*compiled, norm@),
{
    let example_text = trim_lower(compiled.example.example_text.as_str());
    let includes = text_utf8_len(example_text.as_str()) >= MIN_EXAMPLE_LEN && text_contains(
        norm,
        example_text.as_str(),
    );
    let template = match &compiled.template {
        Some(re) => is_match(re, norm),
        None => false,
    };
    (includes, template)
}

fn rule_reason_text(r: &CompiledRule, value: i128) -> (t: String)
    requires
        value == rule_value(*r),
    ensures
        t@ == rule_reason(*r),
{
    let mut t = String::new();
    push_str(&mut t, r.rule.rule_type.as_str());
    push_char(&mut t, ':');
    push_str(&mut t, r.rule.pattern.as_str());
    push_char(&mut t, ' ');
    push_char(&mut t, '(');
    let v = format_milli(value);
    push_str(&mut t, v.as_str());
    push_char(&mut t, ')');
    assert(t@ =~= rule_reason(*r));
    t
}

/// The largest score one rule can contribute, in magnitude.
pub open spec fn rule_bound() -> int {
    171_798_691_840
}

/// Whether a timed classification has run out of time. Without a start time
/// no clock is read and time never runs out; a budget of `u128::MAX`
/// nanoseconds is never exceeded.
fn out_of_time(started: &Option<Instant>, budget_nanos: u128) -> (b: bool)
    ensures
        b ==> started is Some && budget_nanos < u128::MAX,
{
    match started {
        Some(t) => over_budget(t, budget_nanos),
        None => false,
    }
}

/// Scores a group, or `None` when the time budget runs out on the way. When
/// time is kept, the clock is read before each rule and each example, so a
/// group without rules and examples, or a budget that no reading exceeds, is
/// always scored; without a start time the group is always scored.
fn score_group(g: &CompiledGroup, norm: &str, started: &Option<Instant>, budget_nanos: u128) -> (r:
    Option<(i128, Vec<String>)>)
    ensures
        r matches Some(p) ==> p.0 == group_score(*g, norm@) && views(p.1@) == group_reasons(
            *g,
            norm@,
        ),
        r is None ==> started is Some && g.rules@.len() + g.examples@.len() > 0 && budget_nanos
            < u128::MAX,
{
    let mut score: i128 = 0;
    let mut reasons: Vec<String> = Vec::new();
    let mut i: usize = 0;
    assert(g.rules@.take(0) =~= Seq::<CompiledRule>::empty());
    assert(views(reasons@) =~= Seq::<Seq<char>>::empty());
    while i < g.rules.len()
        invariant
            i <= g.rules.len(),
            score == rules_points(g.rules@.take(i as int), norm@),
            views(reasons@) == rules_reasons(g.rules@.take(i as int), norm@),
            -(i as int) * rule_bound() <= score <= (i as int) * rule_bound(),
        decreases g.rules.len() - i,
    {
        if out_of_time(started, budget_nanos) {
            return None;
        }
        let r = &g.rules[i];
        let ghost before = reasons@;
        let counts = r.rule.enabled && rule_matches(r, norm);
        if counts {
            let s = (base_score(r.rule.rule_type.as_str()) as i128) * (r.rule.weight_milli as i128);
            assert(-rule_bound() <= s <= rule_bound()) by (nonlinear_arith)
                requires
                    s == base_points(r.rule.rule_type@) * r.rule.weight_milli,
                    0 <= base_points(r.rule.rule_type@) <= 80,
                    -0x8000_0000 <= r.rule.weight_milli < 0x8000_0000,
            ;
            score = score + s;
            let reason = rule_reason_text(r, s);
            reasons.push(reason);
            assert(views(reasons@) =~= views(before).push(rule_reason(*r)));
        }
        proof {
            let t = g.rules@.take(i + 1);
            assert(t.drop_last() =~= g.rules@.take(i as int));
            assert(t.last() == g.rules@[i as int]);
            if !counts {
                assert(views(reasons@) =~= views(before));
            }
        }
        i = i + 1;
    }
    assert(g.rules@.take(g.rules.len() as int) =~= g.rules@);
    let ghost rules_total = score as int;
    let ghost rules_reasons_seq = views(reasons@);
    let mut j: usize = 0;
    assert(g.examples@.take(0) =~= Seq::<CompiledExample>::empty());
    while j < g.examples.len()
        invariant
            j <= g.examples.len(),
            score == rules_total + examples_points(g.examples@.take(j as int), norm@),
            views(reasons@) == rules_reasons_seq + examples_reasons(
                g.examples@.take(j as int),
                norm@,
            ),
            -(g.rules.len() as int) * rule_bound() <= rules_total <= (g.rules.len() as int)
                * rule_bound(),
            0 <= score - rules_total <= 100_000 * j,
        decreases g.examples.len() - j,
    {
        if out_of_time(started, budget_nanos) {
            return None;
        }
        let e = &g.examples[j];
        let ghost before = reasons@;
        let (includes, template) = example_matches(e, norm);
        if includes {
            score = score + EXAMPLE_CONTAINS_POINTS;
            let mut t = String::new();
            push_str(&mut t, "example_contains:");
            push_str(&mut t, e.example.example_text.as_str());
            reasons.push(t);
        }
        let ghost mid = reasons@;
        if template {
            score = score + EXAMPLE_TEMPLATE_POINTS;
            reasons.push("example_template".to_owned());
        }
        proof {
            let t = g.examples@.take(j + 1);
            assert(t.drop_last() =~= g.examples@.take(j as int));
            assert(t.last() == g.examples@[j as int]);
            assert(views(reasons@) =~= views(before) + example_reasons(*e, norm@));
        }
        j = j + 1;
    }
    assert(g.examples@.take(g.examples.len() as int) =~= g.examples@);
    if score > GROUP_SCORE_CAP {
        score = GROUP_SCORE_CAP;
    }
    Some((score, reasons))
}

proof fn lemma_top_unique(gs: Seq<CompiledGroup>, norm: Seq<char>, k1: int, k2: int)
    requires
        is_top(gs, norm, k1),
        is_top(gs, norm, k2),
    ensures
        k1 == k2,
{
    if k1 < k2 {
        assert(score_at(gs, norm, k1) < score_at(gs, norm, k2));
        assert(score_at(gs, norm, k2) <= score_at(gs, norm, k1));
    } else if k2 < k1 {
        assert(score_at(gs, norm, k2) < score_at(gs, norm, k1));
        assert(score_at(gs, norm, k1) <= score_at(gs, norm, k2));
    }
}

/// Time budget of a classification when the caller gives none (30 ms).
pub const DEFAULT_BUDGET_NANOS: u128 = 30_000_000;

/// Classification without a time budget: the clock is never read, and the
/// result is exactly the one `verdict` prescribes.
pub fn classify_untimed(content: &str, content_type: &str, config: &SmartGroupConfig) -> (r:
    SmartGroupMatchResult)
    ensures
        follows_verdict(r, content@, content_type@, config.groups@),
{
    classify_within(content, content_type, config, None)
}

/// Classification within a time budget of `budget_nanos` nanoseconds,
/// measured from the start of scoring. The result is the one `verdict`
/// prescribes, unless the budget runs out while groups are scored; the
/// result is then "classification timeout". A budget of `u128::MAX`
/// nanoseconds never runs out.
pub fn classify_with_budget(
    content: &str,
    content_type: &str,
    config: &SmartGroupConfig,
    budget_nanos: u128,
) -> (r: SmartGroupMatchResult)
    ensures
        follows_verdict(r, content@, content_type@, config.groups@) || timed_out(
            r,
            content@,
            content_type@,
            config.groups@.len() as int,
        ),
        budget_nanos == u128::MAX ==> follows_verdict(r, content@, content_type@, config.groups@),
{
    classify_within(content, content_type, config, Some(budget_nanos))
}

/// Run classification with a time budget (30 ms when none is given).
///
/// The result is the one `verdict` prescribes, unless the budget runs out
/// while groups are scored; the result is then "classification timeout".
pub fn classify(
    content: &str,
    content_type: &str,
    config: &SmartGroupConfig,
    budget: Option<Duration>,
) -> (r: SmartGroupMatchResult)
    ensures
        follows_verdict(r, content@, content_type@, config.groups@) || timed_out(
            r,
            content@,
            content_type@,
            config.groups@.len() as int,
        ),
{
    let budget_nanos = match budget {
        Some(d) => duration_as_nanos(&d),
        None => DEFAULT_BUDGET_NANOS,
    };
    classify_with_budget(content, content_type, config, budget_nanos)
}

/// Classification, timed when a budget is given.
fn classify_within(
    content: &str,
    content_type: &str,
    config: &SmartGroupConfig,
    budget_nanos: Option<u128>,
) -> (r: SmartGroupMatchResult)
    ensures
        follows_verdict(r, content@, content_type@, config.groups@) || timed_out(
            r,
            content@,
            content_type@,
            config.groups@.len() as int,
        ),
        budget_nanos is None || budget_nanos == Some(u128::MAX) ==> follows_verdict(
            r,
            content@,
            content_type@,
            config.groups@,
        ),
{
    let ghost gs = config.groups@;
    if config.groups.len() == 0 {
        return SmartGroupMatchResult::none("no groups configured");
    }
    if text_eq(content_type, "image") || text_eq(content_type, "files") {
        return SmartGroupMatchResult::none("non-text content");
    }
    let (started, limit) = match budget_nanos {
        Some(b) => (Some(instant_now()), b),
        None => (None, 0),
    };

    let text = take_chars(content, MAX_CLASSIFY_CHARS);
    let norm = normalize_text(text.as_str());
    let ghost n = norm@;
    assert(n == classify_norm(content@));
    if norm.as_str().is_empty() {
        return SmartGroupMatchResult::none("empty content");
    }

    let mut any = false;
    let mut best_idx: usize = 0;
    let mut best_score: i128 = 0;
    let mut best_reasons: Vec<String> = Vec::new();
    let mut second: Option<i128> = None;
    let mut i: usize = 0;
    while i < config.groups.len()
        invariant
            gs == config.groups@,
            n == norm@,
            n == classify_norm(content@),
            n.len() > 0,
            gs.len() > 0,
            !is_non_text(content_type@),
            i <= gs.len(),
            any == exists|j: int| 0 <= j < i && #[trigger] score_at(gs, n, j) > 0,
            any ==> {
                &&& best_idx < i
                &&& best_score == score_at(gs, n, best_idx as int)
                &&& best_score > 0
                &&& views(best_reasons@) == group_reasons(gs[best_idx as int], n)
                &&& forall|j: int| 0 <= j < i ==> #[trigger] score_at(gs, n, j) <= best_score
                &&& forall|j: int| 0 <= j < best_idx ==> #[trigger] score_at(gs, n, j) < best_score
            },
            second matches Some(t) ==> {
                &&& any
                &&& exists|j: int|
                    0 <= j < i && j != best_idx && #[trigger] score_at(gs, n, j) > 0 && score_at(
                        gs,
                        n,
                        j,
                    ) == t
                &&& forall|j: int|
                    0 <= j < i && j != best_idx && #[trigger] score_at(gs, n, j) > 0 ==> score_at(
                        gs,
                        n,
                        j,
                    ) <= t
            },
            second is None ==> forall|j: int|
                0 <= j < i && j != best_idx ==> #[trigger] score_at(gs, n, j) <= 0,
            started is Some ==> budget_nanos == Some(limit),
        decreases gs.len() - i,
    {
        if out_of_time(&started, limit) {
            return SmartGroupMatchResult::none("classification timeout");
        }
        let scored = score_group(&config.groups[i], norm.as_str(), &started, limit);
        match scored {
            None => {
                return SmartGroupMatchResult::none("classification timeout");
            },
            Some((s, rs)) => {
                assert(s == score_at(gs, n, i as int));
                if s > 0 {
                    if !any {
                        any = true;
                        best_idx = i;
                        best_score = s;
                        best_reasons = rs;
                    } else if s > best_score {
                        let ghost old_best = best_idx;
                        second = Some(best_score);
                        best_idx = i;
                        best_score = s;
                        best_reasons = rs;
                        assert(score_at(gs, n, old_best as int) > 0);
                    } else {
                        second =
                        match second {
                            Some(t) => if s > t {
                                Some(s)
                            } else {
                                Some(t)
                            },
                            None => Some(s),
                        };
                    }
                }
            },
        }
        i = i + 1;
    }
    if !any {
        return SmartGroupMatchResult::none("no rule matched");
    }
    proof {
        assert(is_top(gs, n, best_idx as int));
        lemma_top_unique(gs, n, best_idx as int, top_index(gs, n));
    }
    if best_score < AUTO_MATCH_THRESHOLD {
        return SmartGroupMatchResult::none("score below threshold");
    }
    match second {
        Some(t) => {
            if best_score - t < AMBIGUOUS_GAP {
                return SmartGroupMatchResult::none("ambiguous match");
            }
            assert(!has_close_rival(gs, n, best_idx as int));
        },
        None => {
            assert(!has_close_rival(gs, n, best_idx as int));
        },
    }
    let confidence = if best_score < 100_000 {
        best_score
    } else {
        100_000
    };
    let g = &config.groups[best_idx];
    SmartGroupMatchResult {
        smart_group_id: Some(g.group.id),
        smart_group_name: g.group.name.clone(),
        confidence_e5: confidence as i64,
        reason: join(&best_reasons, "; "),
        match_type: "auto".to_owned(),
    }
}

// ───────────────────────────── example templates ─────────────────────────────

/// Chars whose presence marks a text as structured.
pub open spec fn is_structural(c: char) -> bool {
    is_ascii_digit(c) || c == '=' || c == ':' || c == '_' || c == '-' || c == '.'
}

pub open spec fn has_structure(t: Seq<char>) -> bool {
    exists|i: int| 0 <= i < t.len() && is_structural(#[trigger] t[i])
}

/// ASCII letters and digits form the words of a template.
pub open spec fn is_word_char(c: char) -> bool {
    is_ascii_digit(c) || is_ascii_alphabetic(c)
}

/// The regex fragment that stands for char `c` of an example, given the char
/// before it (if any): a run of letters and digits becomes one
/// `[A-Za-z0-9]+`, a run of whitespace one `\s*`, and any other char stands
/// for itself, escaped.
pub open spec fn template_piece(prev: Option<char>, c: char) -> Seq<char> {
    if is_word_char(c) {
        if prev matches Some(p) && is_word_char(p) {
            Seq::empty()
        } else {
            "[A-Za-z0-9]+"@
        }
    } else if spec_is_whitespace(c) {
        if prev matches Some(p) && !is_word_char(p) && spec_is_whitespace(p) {
            Seq::empty()
        } else {
            "\\s*"@
        }
    } else {
        escaped(c)
    }
}

/// The structural pattern of a text: its pieces, in order.
pub open spec fn template_pattern(t: Seq<char>) -> Seq<char>
    decreases t.len(),
{
    if t.len() == 0 {
        Seq::empty()
    } else {
        template_pattern(t.drop_last()) + template_piece(
            if t.len() > 1 {
                Some(t[t.len() - 2])
            } else {
                None
            },
            t.last(),
        )
    }
}

/// The source of the case-insensitive template regex of an example text, if
/// it has one: the trimmed text must be at least three bytes long and
/// structured, and its pattern between 3 and 200 bytes long.
pub open spec fn template_source(text: Seq<char>) -> Option<Seq<char>> {
    let t = spec_trim(text);
    let p = template_pattern(t);
    if utf8_len(t) < MIN_EXAMPLE_LEN || !has_structure(t) || utf8_len(p) > 200 || utf8_len(p) < 3 {
        None
    } else {
        Some("(?i)"@ + p)
    }
}

/// `c` is what compiling `source` gives (nothing when there is no source).
pub open spec fn compiled_from(c: Option<CompiledRegex>, source: Option<Seq<char>>) -> bool {
    match source {
        None => c is None,
        Some(src) => (c is Some <==> spec_regex_compiles(src)) && (c matches Some(re) ==> re@
            == src),
    }
}

/// Generate a lightweight structural template regex from an example text,
/// e.g. `book_id: 123456` gives `(?i)[A-Za-z0-9]+_[A-Za-z0-9]+:\s*[A-Za-z0-9]+`.
fn generate_example_template(text: &str) -> (r: Option<CompiledRegex>)
    ensures
        compiled_from(r, template_source(text@)),
{
    let trimmed = trim(text);
    let ghost t = trimmed@;
    if text_utf8_len(trimmed.as_str()) < MIN_EXAMPLE_LEN {
        return None;
    }
    let v = chars_of(trimmed.as_str());
    let mut found = false;
    let mut i: usize = 0;
    while i < v.len()
        invariant
            i <= v.len(),
            v@ == t,
            found == exists|k: int| 0 <= k < i && is_structural(#[trigger] v@[k]),
        decreases v.len() - i,
    {
        let c = v[i];
        if ascii_digit(c) || c == '=' || c == ':' || c == '_' || c == '-' || c == '.' {
            found = true;
        }
        i = i + 1;
    }
    if !found {
        return None;
    }
    let mut pattern = String::new();
    let mut i: usize = 0;
    assert(v@.take(0) =~= Seq::<char>::empty());
    while i < v.len()
        invariant
            i <= v.len(),
            v@ == t,
            pattern@ == template_pattern(v@.take(i as int)),
        decreases v.len() - i,
    {
        let c = v[i];
        let prev_word = i > 0 && (ascii_digit(v[i - 1]) || ascii_alphabetic(v[i - 1]));
        if ascii_digit(c) || ascii_alphabetic(c) {
            if !prev_word {
                push_str(&mut pattern, "[A-Za-z0-9]+");
            }
        } else if char_is_whitespace(c) {
            let prev_space = i > 0 && !prev_word && char_is_whitespace(v[i - 1]);
            if !prev_space {
                push_str(&mut pattern, "\\s*");
            }
        } else {
            let e = escape_char(c);
            push_str(&mut pattern, e.as_str());
        }
        proof {
            let s = v@.take(i + 1);
            assert(s.drop_last() =~= v@.take(i as int));
            assert(s.last() == c);
            if i > 0 {
                assert(s[s.len() - 2] == v@[i - 1]);
            }
            assert(pattern@ =~= template_pattern(s));
        }
        i = i + 1;
    }
    assert(v@.take(v.len() as int) =~= t);
    let plen = text_utf8_len(pattern.as_str());
    if plen > 200 || plen < 3 {
        return None;
    }
    let mut full = String::new();
    push_str(&mut full, "(?i)");
    push_str(&mut full, pattern.as_str());
    compile(full.as_str())
}

// ───────────────────────────── building the configuration ─────────────────────────────

/// Records that belong to a group through a group id.
pub trait GroupMember {
    spec fn owner(&self) -> i64;

    fn owner_id(&self) -> (r: i64)
        ensures
            r == self.owner(),
    ;
}

impl GroupMember for SmartGroupRule {
    open spec fn owner(&self) -> i64 {
        self.group_id
    }

    fn owner_id(&self) -> (r: i64) {
        self.group_id
    }
}

impl GroupMember for SmartGroupExample {
    open spec fn owner(&self) -> i64 {
        self.group_id
    }

    fn owner_id(&self) -> (r: i64) {
        self.group_id
    }
}

/// The records of group `id`, in order.
pub open spec fn members_of<T: GroupMember>(s: Seq<T>, id: i64) -> Seq<T>
    decreases s.len(),
{
    if s.len() == 0 {
        Seq::empty()
    } else if s.last().owner() == id {
        members_of(s.drop_last(), id).push(s.last())
    } else {
        members_of(s.drop_last(), id)
    }
}

/// Indexes the records by group id, keeping their order within each group
/// (a group id without records has no entry).
fn index_by_group<T: GroupMember>(items: Vec<T>) -> (m: HashMap<i64, Vec<T>>)
    ensures
        forall|id: i64| #[trigger] m@.contains_key(id) == (members_of(items@, id).len() > 0),
        forall|id: i64| m@.contains_key(id) ==> (#[trigger] m@[id])@ == members_of(items@, id),
{
    let ghost s = items@;
    let mut m: HashMap<i64, Vec<T>> = HashMap::new();
    assert(s.take(0) =~= Seq::<T>::empty());
    for x in it: items
        invariant
            it.seq() == s,
            forall|id: i64| #[trigger] m@.contains_key(id) == (members_of(s.take(it.index() as int), id).len() > 0),
            forall|id: i64| m@.contains_key(id) ==> (#[trigger] m@[id])@ == members_of(s.take(it.index() as int), id),
    {
        let ghost k = it.index();
        let ghost prev = s.take(k as int);
        proof {
            let u = s.take(k + 1);
            assert(u.drop_last() =~= prev);
            assert(u.last() == x);
        }
        let id = x.owner_id();
        let mut v = match m.remove(&id) {
            Some(v) => v,
            None => Vec::new(),
        };
        proof {
            if members_of(prev, id).len() == 0 {
                assert(members_of(prev, id) =~= Seq::<T>::empty());
            }
        }
        assert(v@ == members_of(prev, id));
        v.push(x);
        m.insert(id, v);
    }
    assert(s.take(s.len() as int) =~= s);
    m
}

/// Takes the records of group `id` out of the index: its entry, or none.
fn take_group<T>(m: &mut HashMap<i64, Vec<T>>, id: i64) -> (r: Vec<T>)
    ensures
        final(m)@ == old(m)@.remove(id),
        r@ == if old(m)@.contains_key(id) {
            old(m)@[id]@
        } else {
            Seq::<T>::empty()
        },
{
    match m.remove(&id) {
        Some(v) => v,
        None => Vec::new(),
    }
}

/// `cr` is rule `r` made ready: a regex rule carries its compiled pattern.
pub open spec fn rule_compiled_from(cr: CompiledRule, r: SmartGroupRule) -> bool {
    &&& cr.rule == r
    &&& compiled_from(
        cr.regex,
        if r.rule_type@ == "regex"@ {
            Some(r.pattern@)
        } else {
            None
        },
    )
}

/// `ce` is example `e` made ready, with its template.
pub open spec fn example_compiled_from(ce: CompiledExample, e: SmartGroupExample) -> bool {
    &&& ce.example == e
    &&& compiled_from(ce.template, template_source(e.example_text@))
}

pub open spec fn rules_compiled_from(crs: Seq<CompiledRule>, rs: Seq<SmartGroupRule>) -> bool {
    crs.len() == rs.len() && forall|k: int| 0 <= k < rs.len() ==> rule_compiled_from(#[trigger] crs[k], rs[k])
}

pub open spec fn examples_compiled_from(ces: Seq<CompiledExample>, es: Seq<SmartGroupExample>) -> bool {
    ces.len() == es.len() && forall|k: int| 0 <= k < es.len() ==> example_compiled_from(#[trigger] ces[k], es[k])
}

fn compile_rules(rules: Vec<SmartGroupRule>) -> (r: Vec<CompiledRule>)
    ensures
        rules_compiled_from(r@, rules@),
{
    let ghost s = rules@;
    let mut out: Vec<CompiledRule> = Vec::new();
    for rule in it: rules
        invariant
            it.seq() == s,
            out@.len() == it.index(),
            forall|k: int| 0 <= k < it.index() ==> rule_compiled_from(#[trigger] out@[k], s[k]),
    {
        let regex = if text_eq(rule.rule_type.as_str(), "regex") {
            compile(rule.pattern.as_str())
        } else {
            None
        };
        out.push(CompiledRule { rule, regex });
    }
    out
}

fn compile_examples(examples: Vec<SmartGroupExample>) -> (r: Vec<CompiledExample>)
    ensures
        examples_compiled_from(r@, examples@),
{
    let ghost s = examples@;
    let mut out: Vec<CompiledExample> = Vec::new();
    for example in it: examples
        invariant
            it.seq() == s,
            out@.len() == it.index(),
            forall|k: int| 0 <= k < it.index() ==> example_compiled_from(#[trigger] out@[k], s[k]),
    {
        let template = generate_example_template(example.example_text.as_str());
        out.push(CompiledExample { example, template });
    }
    out
}

/// Some group before position `i` has the same id as group `i`.
pub open spec fn id_taken_earlier(groups: Seq<SmartGroup>, i: int) -> bool {
    exists|j: int| 0 <= j < i && #[trigger] groups[j].id == groups[i].id
}

/// The records that group `i` receives: those with its id, unless an earlier
/// group with the same id has already received them.
pub open spec fn share_of<T: GroupMember>(items: Seq<T>, groups: Seq<SmartGroup>, i: int) -> Seq<T> {
    if id_taken_earlier(groups, i) {
        Seq::empty()
    } else {
        members_of(items, groups[i].id)
    }
}

/// The compiled groups are the groups in order, each with its share of the
/// rules and examples made ready.
pub open spec fn built_from(
    compiled: Seq<CompiledGroup>,
    groups: Seq<SmartGroup>,
    rules: Seq<SmartGroupRule>,
    examples: Seq<SmartGroupExample>,
) -> bool {
    &&& compiled.len() == groups.len()
    &&& forall|i: int|
        0 <= i < groups.len() ==> {
            &&& (#[trigger] compiled[i]).group == groups[i]
            &&& rules_compiled_from(compiled[i].rules@, share_of(rules, groups, i))
            &&& examples_compiled_from(compiled[i].examples@, share_of(examples, groups, i))
        }
}

impl SmartGroupConfig {
    /// Build the configuration from raw records: rules and examples go to the
    /// group with their group id, regexes and templates are compiled once.
    pub fn build(
        groups: Vec<SmartGroup>,
        rules: Vec<SmartGroupRule>,
        examples: Vec<SmartGroupExample>,
    ) -> (c: Self)
        ensures
            built_from(c.groups@, groups@, rules@, examples@),
    {
        let ghost gs = groups@;
        let ghost rs0 = rules@;
        let ghost es0 = examples@;
        let mut rules_by_group = index_by_group(rules);
        let mut examples_by_group = index_by_group(examples);
        let mut compiled: Vec<CompiledGroup> = Vec::new();
        for g in it: groups
            invariant
                it.seq() == gs,
                compiled@.len() == it.index(),
                forall|k: int|
                    0 <= k < it.index() ==> {
                        &&& (#[trigger] compiled@[k]).group == gs[k]
                        &&& rules_compiled_from(compiled@[k].rules@, share_of(rs0, gs, k))
                        &&& examples_compiled_from(compiled@[k].examples@, share_of(es0, gs, k))
                    },
                forall|id: i64|
                    #[trigger] rules_by_group@.contains_key(id) == (members_of(rs0, id).len() > 0
                        && !exists|j: int| 0 <= j < it.index() && #[trigger] gs[j].id == id),
                forall|id: i64|
                    rules_by_group@.contains_key(id) ==> (#[trigger] rules_by_group@[id])@
                        == members_of(rs0, id),
                forall|id: i64|
                    #[trigger] examples_by_group@.contains_key(id) == (members_of(es0, id).len() > 0
                        && !exists|j: int| 0 <= j < it.index() && #[trigger] gs[j].id == id),
                forall|id: i64|
                    examples_by_group@.contains_key(id) ==> (#[trigger] examples_by_group@[id])@
                        == members_of(es0, id),
        {
            let ghost i = it.index();
            let id = g.id;
            let ghost rm = rules_by_group@;
            let ghost em = examples_by_group@;
            let mine_r = take_group(&mut rules_by_group, id);
            let mine_e = take_group(&mut examples_by_group, id);
            proof {
                assert(gs[i as int] == g);
                if id_taken_earlier(gs, i as int) {
                    let j = choose|j: int| 0 <= j < i && #[trigger] gs[j].id == gs[i as int].id;
                    assert(gs[j].id == id);
                    assert(mine_r@ =~= share_of(rs0, gs, i as int));
                    assert(mine_e@ =~= share_of(es0, gs, i as int));
                } else {
                    assert(!exists|j: int| 0 <= j < i && #[trigger] gs[j].id == id);
                    if !rm.contains_key(id) {
                        assert(members_of(rs0, id) =~= Seq::<SmartGroupRule>::empty());
                    }
                    if !em.contains_key(id) {
                        assert(members_of(es0, id) =~= Seq::<SmartGroupExample>::empty());
                    }
                    assert(mine_r@ == share_of(rs0, gs, i as int));
                    assert(mine_e@ == share_of(es0, gs, i as int));
                }
                assert forall|b: i64|
                    #[trigger] rules_by_group@.contains_key(b) == (members_of(rs0, b).len() > 0
                        && !exists|j: int| 0 <= j < i + 1 && #[trigger] gs[j].id == b) by {
                    if b == id {
                        assert(gs[i as int].id == b);
                    } else if exists|j: int| 0 <= j < i + 1 && #[trigger] gs[j].id == b {
                        let j = choose|j: int| 0 <= j < i + 1 && #[trigger] gs[j].id == b;
                        assert(j < i);
                    }
                }
                assert forall|b: i64|
                    #[trigger] examples_by_group@.contains_key(b) == (members_of(es0, b).len() > 0
                        && !exists|j: int| 0 <= j < i + 1 && #[trigger] gs[j].id == b) by {
                    if b == id {
                        assert(gs[i as int].id == b);
                    } else if exists|j: int| 0 <= j < i + 1 && #[trigger] gs[j].id == b {
                        let j = choose|j: int| 0 <= j < i + 1 && #[trigger] gs[j].id == b;
                        assert(j < i);
                    }
                }
            }
            let cr = compile_rules(mine_r);
            let ce = compile_examples(mine_e);
            compiled.push(CompiledGroup { group: g, rules: cr, examples: ce });
        }
        SmartGroupConfig { groups: compiled }
    }

    /// True if no group is enabled, matched automatically and has rules or
    /// examples.
    pub fn is_empty(&self) -> (b: bool)
        ensures
            b == !exists|i: int| 0 <= i < self.groups@.len() && is_active(#[trigger] self.groups@[i]),
    {
        let mut i: usize = 0;
        while i < self.groups.len()
            invariant
                i <= self.groups@.len(),
                forall|k: int| 0 <= k < i ==> !is_active(#[trigger] self.groups@[k]),
            decreases self.groups@.len() - i,
        {
            let g = &self.groups[i];
            if g.group.enabled && g.group.auto_match_enabled && (g.rules.len() > 0 || g.examples.len() > 0) {
                assert(is_active(self.groups@[i as int]));
                return false;
            }
            i = i + 1;
        }
        true
    }
}

// ───────────────────────────── laws ─────────────────────────────

/// The index of the first of the best-scoring groups among the first `m`.
spec fn best_in_prefix(gs: Seq<CompiledGroup>, norm: Seq<char>, m: int) -> int
    decreases m,
{
    if m <= 1 {
        0
    } else {
        let b = best_in_prefix(gs, norm, m - 1);
        if score_at(gs, norm, m - 1) > score_at(gs, norm, b) {
            m - 1
        } else {
            b
        }
    }
}

proof fn lemma_best_in_prefix(gs: Seq<CompiledGroup>, norm: Seq<char>, m: int)
    requires
        1 <= m <= gs.len(),
    ensures
        0 <= best_in_prefix(gs, norm, m) < m,
        forall|j: int| 0 <= j < m ==> #[trigger] score_at(gs, norm, j) <= score_at(gs, norm, best_in_prefix(gs, norm, m)),
        forall|j: int| 0 <= j < best_in_prefix(gs, norm, m) ==> #[trigger] score_at(gs, norm, j) < score_at(gs, norm, best_in_prefix(gs, norm, m)),
    decreases m,
{
    if m > 1 {
        lemma_best_in_prefix(gs, norm, m - 1);
    }
}

/// When some group scores above zero, there is a first best group.
proof fn lemma_top_exists(gs: Seq<CompiledGroup>, norm: Seq<char>)
    requires
        any_positive(gs, norm),
    ensures
        is_top(gs, norm, top_index(gs, norm)),
{
    let i = choose|i: int| 0 <= i < gs.len() && #[trigger] score_at(gs, norm, i) > 0;
    lemma_best_in_prefix(gs, norm, gs.len() as int);
    let b = best_in_prefix(gs, norm, gs.len() as int);
    assert(score_at(gs, norm, i) <= score_at(gs, norm, b));
    assert(is_top(gs, norm, b));
}

/// A group is assigned only when it is the first of the best groups, it
/// scores at least 50 points, and every other group with a positive score
/// trails it by at least 15 points.
pub proof fn law_assigned_group_is_clear_winner(
    content: Seq<char>,
    content_type: Seq<char>,
    gs: Seq<CompiledGroup>,
    k: int,
)
    requires
        verdict(content, content_type, gs).0 == Some(k),
    ensures
        0 <= k < gs.len(),
        group_score(gs[k], classify_norm(content)) >= 50_000,
        forall|j: int|
            0 <= j < gs.len() && j != k ==> #[trigger] group_score(gs[j], classify_norm(content)) <= 0
                || group_score(gs[j], classify_norm(content)) + 15_000 <= group_score(
                gs[k],
                classify_norm(content),
            ),
        forall|j: int| 0 <= j < k ==> #[trigger] group_score(gs[j], classify_norm(content)) < group_score(gs[k], classify_norm(content)),
{
    let n = classify_norm(content);
    lemma_top_exists(gs, n);
    assert forall|j: int|
        0 <= j < gs.len() && j != k implies #[trigger] group_score(gs[j], n) <= 0 || group_score(gs[j], n)
            + AMBIGUOUS_GAP <= group_score(gs[k], n) by {
        assert(score_at(gs, n, j) == group_score(gs[j], n));
        assert(score_at(gs, n, j) <= score_at(gs, n, k));
    }
    assert forall|j: int| 0 <= j < k implies #[trigger] group_score(gs[j], n) < group_score(gs[k], n) by {
        assert(score_at(gs, n, j) == group_score(gs[j], n));
    }
}

/// The confidence of an assignment lies between one half and one.
pub proof fn law_assignment_confidence(content: Seq<char>, content_type: Seq<char>, gs: Seq<CompiledGroup>, k: int)
    requires
        verdict(content, content_type, gs).0 == Some(k),
    ensures
        50_000 <= confidence_of(group_score(gs[k], classify_norm(content))) <= 100_000,
{
    law_assigned_group_is_clear_winner(content, content_type, gs, k);
}

/// No group scores more than 150 points.
pub proof fn law_group_score_capped(g: CompiledGroup, norm: Seq<char>)
    ensures
        group_score(g, norm) <= GROUP_SCORE_CAP,
{
}

/// Images and file lists are never assigned a group.
pub proof fn law_non_text_is_never_classified(
    r: SmartGroupMatchResult,
    content: Seq<char>,
    content_type: Seq<char>,
    gs: Seq<CompiledGroup>,
)
    requires
        follows_verdict(r, content, content_type, gs) || timed_out(r, content, content_type, gs.len() as int),
        is_non_text(content_type),
    ensures
        r.smart_group_id is None,
        gs.len() > 0 ==> r.reason@ == "non-text content"@,
{
}

/// Only the first 5000 chars of a text decide its classification.
pub proof fn law_only_leading_chars_matter(content: Seq<char>, content_type: Seq<char>, gs: Seq<CompiledGroup>)
    ensures
        verdict(content, content_type, gs) == verdict(
            spec_take_chars(content, MAX_CLASSIFY_CHARS as int),
            content_type,
            gs,
        ),
{
    let t = spec_take_chars(content, MAX_CLASSIFY_CHARS as int);
    assert(spec_take_chars(t, MAX_CLASSIFY_CHARS as int) == t);
}

proof fn lemma_members_owned<T: GroupMember>(s: Seq<T>, id: i64, k: int)
    requires
        0 <= k < members_of(s, id).len(),
    ensures
        members_of(s, id)[k].owner() == id,
    decreases s.len(),
{
    if s.len() > 0 {
        if s.last().owner() == id && k == members_of(s.drop_last(), id).len() {
        } else {
            lemma_members_owned(s.drop_last(), id, k);
        }
    }
}

/// Every rule and example of a built group carries that group's id, and a
/// group whose id an earlier group already has receives none.
pub proof fn law_rules_stay_with_their_group(
    compiled: Seq<CompiledGroup>,
    groups: Seq<SmartGroup>,
    rules: Seq<SmartGroupRule>,
    examples: Seq<SmartGroupExample>,
    i: int,
)
    requires
        built_from(compiled, groups, rules, examples),
        0 <= i < groups.len(),
    ensures
        forall|k: int| 0 <= k < compiled[i].rule_count() ==> #[trigger] compiled[i].rule_group_id(k) == groups[i].id,
        forall|k: int| 0 <= k < compiled[i].example_count() ==> #[trigger] compiled[i].example_group_id(k) == groups[i].id,
        id_taken_earlier(groups, i) ==> compiled[i].rule_count() == 0 && compiled[i].example_count() == 0,
{
    assert(compiled[i].group == groups[i]);
    assert forall|k: int| 0 <= k < compiled[i].rule_count() implies #[trigger] compiled[i].rule_group_id(k) == groups[i].id by {
        assert(rule_compiled_from(compiled[i].rules@[k], share_of(rules, groups, i)[k]));
        lemma_members_owned(rules, groups[i].id, k);
    }
    assert forall|k: int| 0 <= k < compiled[i].example_count() implies #[trigger] compiled[i].example_group_id(k) == groups[i].id by {
        assert(example_compiled_from(compiled[i].examples@[k], share_of(examples, groups, i)[k]));
        lemma_members_owned(examples, groups[i].id, k);
    }
}

/// What a built configuration holds: the groups in order, each with as many
/// rules and examples as its share of the records.
pub proof fn lemma_built_from_shape(
    compiled: Seq<CompiledGroup>,
    groups: Seq<SmartGroup>,
    rules: Seq<SmartGroupRule>,
    examples: Seq<SmartGroupExample>,
)
    requires
        built_from(compiled, groups, rules, examples),
    ensures
        compiled.len() == groups.len(),
        forall|i: int|
            0 <= i < groups.len() ==> {
                &&& (#[trigger] compiled[i]).record() == groups[i]
                &&& compiled[i].rule_count() == share_of(rules, groups, i).len()
                &&& compiled[i].example_count() == share_of(examples, groups, i).len()
            },
{
    assert forall|i: int| 0 <= i < groups.len() implies {
        &&& (#[trigger] compiled[i]).record() == groups[i]
        &&& compiled[i].rule_count() == share_of(rules, groups, i).len()
        &&& compiled[i].example_count() == share_of(examples, groups, i).len()
    } by {
        assert(rules_compiled_from(compiled[i].rules@, share_of(rules, groups, i)));
        assert(examples_compiled_from(compiled[i].examples@, share_of(examples, groups, i)));
    }
}

/// The outcomes that need no scoring: with no groups, for image and file
/// content, and for text that is empty once normalized, no group is assigned
/// and the reason says why. An assigned result is of match type `auto`.
pub proof fn lemma_verdict_without_scores(
    r: SmartGroupMatchResult,
    content: Seq<char>,
    content_type: Seq<char>,
    gs: Seq<CompiledGroup>,
)
    requires
        follows_verdict(r, content, content_type, gs),
    ensures
        gs.len() == 0 ==> is_no_match(r, "no groups configured"@),
        gs.len() > 0 && is_non_text(content_type) ==> is_no_match(r, "non-text content"@),
        gs.len() > 0 && !is_non_text(content_type) && classify_norm(content).len() == 0 ==> is_no_match(
            r,
            "empty content"@,
        ),
        r.smart_group_id is Some ==> r.match_type@ == "auto"@ && 50_000 <= r.confidence_e5 <= 100_000,
{
    if r.smart_group_id is Some {
        let k = verdict(content, content_type, gs).0->Some_0;
        law_assignment_confidence(content, content_type, gs, k);
    }
}

/// Texts that agree once their first 5000 chars are normalized (trimmed,
/// lower-cased, whitespace runs made one space) are classified alike: when
/// neither classification runs out of time, the results agree in every field.
pub proof fn law_equal_normalized_texts_classify_alike(
    r1: SmartGroupMatchResult,
    r2: SmartGroupMatchResult,
    content1: Seq<char>,
    content2: Seq<char>,
    content_type: Seq<char>,
    gs: Seq<CompiledGroup>,
)
    requires
        classify_norm(content1) == classify_norm(content2),
        follows_verdict(r1, content1, content_type, gs),
        follows_verdict(r2, content2, content_type, gs),
    ensures
        r1.smart_group_id == r2.smart_group_id,
        r1.smart_group_name@ == r2.smart_group_name@,
        r1.confidence_e5 == r2.confidence_e5,
        r1.reason@ == r2.reason@,
        r1.match_type@ == r2.match_type@,
{
    assert(verdict(content1, content_type, gs) == verdict(content2, content_type, gs));
}


/// A rule counts for a text exactly when it is enabled and, by its type:
/// its trimmed, lower-cased pattern is not empty and occurs somewhere in the
/// text (keyword, contains), begins the text (prefix) or ends the text
/// (suffix); or its compiled regex matches the text (regex). A rule of any
/// other type never counts.
pub proof fn law_rule_counts_by_type(r: CompiledRule, norm: Seq<char>)
    ensures
        ({
            let t = r.rule.rule_type@;
            let p = spec_trim_lower(r.rule.pattern@);
            rule_counts(r, norm) == (r.rule.enabled && if t == "keyword"@ || t == "contains"@ {
                p.len() > 0 && exists|i: int|
                    0 <= i && i + p.len() <= norm.len() && #[trigger] norm.subrange(i, i + p.len())
                        == p
            } else if t == "prefix"@ {
                p.len() > 0 && p.len() <= norm.len() && norm.subrange(0, p.len() as int) == p
            } else if t == "suffix"@ {
                p.len() > 0 && p.len() <= norm.len() && norm.subrange(
                    norm.len() - p.len(),
                    norm.len() as int,
                ) == p
            } else if t == "regex"@ {
                r.regex matches Some(re) && spec_regex_is_match(re@, norm)
            } else {
                false
            })
        }),
{
    let p = spec_trim_lower(r.rule.pattern@);
    reveal_strlit("keyword");
    reveal_strlit("contains");
    reveal_strlit("prefix");
    reveal_strlit("suffix");
    reveal_strlit("regex");
    if p.len() <= norm.len() {
        assert(norm.take(p.len() as int) =~= norm.subrange(0, p.len() as int));
        assert(norm.skip(norm.len() - p.len()) =~= norm.subrange(norm.len() - p.len(), norm.len() as int));
    }
    if seq_contains(norm, p) {
        let i = choose|i: int| occurs_at(norm, p, i);
        assert(norm.subrange(i, i + p.len()) == p);
    }
    if exists|i: int| 0 <= i && i + p.len() <= norm.len() && #[trigger] norm.subrange(i, i + p.len()) == p {
        let i = choose|i: int| 0 <= i && i + p.len() <= norm.len() && #[trigger] norm.subrange(i, i + p.len()) == p;
        assert(occurs_at(norm, p, i));
    }
    let t = r.rule.rule_type@;
    let c = exists|i: int| 0 <= i && i + p.len() <= norm.len() && #[trigger] norm.subrange(i, i + p.len()) == p;
    assert(seq_contains(norm, p) == c);
    if t == "keyword"@ {
        assert(rule_fires(r, norm) == (p.len() > 0 && c));
    } else if t == "contains"@ {
        assert("contains"@.len() == 8 && "keyword"@.len() == 7 && "regex"@.len() == 5);
        assert("prefix"@.len() == 6 && "suffix"@.len() == 6);
        assert(rule_fires(r, norm) == (p.len() > 0 && c));
    } else if t == "prefix"@ {
        assert("prefix"@.len() == 6 && "keyword"@.len() == 7 && "regex"@.len() == 5);
        assert(rule_fires(r, norm) == (p.len() > 0 && seq_starts_with(norm, p)));
    } else if t == "suffix"@ {
        assert(rule_fires(r, norm) == (p.len() > 0 && seq_ends_with(norm, p)));
    }
}

proof fn lemma_template_concat(x: Seq<char>, y: Seq<char>)
    requires
        x.len() > 0,
        y.len() > 0,
        spec_is_whitespace(x.last()),
        !spec_is_whitespace(y[0]),
    ensures
        template_pattern(x + y) == template_pattern(x) + template_pattern(y),
    decreases y.len(),
{
    let z = x + y;
    if y.len() == 1 {
        assert(z.drop_last() =~= x);
        assert(z[z.len() - 2] == x.last());
        assert(z.last() == y[0]);
        assert(template_pattern(y.drop_last()) =~= Seq::<char>::empty());
        assert(template_pattern(y) =~= template_piece(None, y[0]));
        assert(template_piece(Some(x.last()), y[0]) == template_piece(None, y[0]));
    } else {
        let yd = y.drop_last();
        assert(yd[0] == y[0]);
        lemma_template_concat(x, yd);
        assert(z.drop_last() =~= x + yd);
        assert(z[z.len() - 2] == y[y.len() - 2]);
        assert(z.last() == y.last());
    }
}

proof fn lemma_template_space_run(a: Seq<char>, w: Seq<char>)
    requires
        a.len() > 0,
        !spec_is_whitespace(a.last()),
        w.len() > 0,
        forall|i: int| 0 <= i < w.len() ==> spec_is_whitespace(#[trigger] w[i]),
    ensures
        template_pattern(a + w) == template_pattern(a) + "\\s*"@,
    decreases w.len(),
{
    let z = a + w;
    assert(z.drop_last() =~= a + w.drop_last());
    assert(z.last() == w.last());
    assert(spec_is_whitespace(w[w.len() - 1]));
    if w.len() == 1 {
        assert(z.drop_last() =~= a);
        assert(z[z.len() - 2] == a.last());
    } else {
        assert(z[z.len() - 2] == w[w.len() - 2]);
        assert(spec_is_whitespace(w[w.len() - 2]));
        lemma_template_space_run(a, w.drop_last());
        assert(template_piece(Some(w[w.len() - 2]), w.last()) =~= Seq::<char>::empty());
    }
}

/// In the template of an example, a run of whitespace between two other
/// chars becomes the one fragment `\s*` (zero or more whitespace chars), and
/// the parts before and after it are templated on their own.
pub proof fn law_template_whitespace_run(a: Seq<char>, w: Seq<char>, b: Seq<char>)
    requires
        a.len() > 0,
        !spec_is_whitespace(a.last()),
        w.len() > 0,
        forall|i: int| 0 <= i < w.len() ==> spec_is_whitespace(#[trigger] w[i]),
        b.len() > 0,
        !spec_is_whitespace(b[0]),
    ensures
        template_pattern(a + w + b) == template_pattern(a) + "\\s*"@ + template_pattern(b),
{
    lemma_template_space_run(a, w);
    assert((a + w).last() == w.last());
    assert(spec_is_whitespace(w[w.len() - 1]));
    lemma_template_concat(a + w, b);
}


/// A matching rule is worth its type's points times its weight: regex 80,
/// keyword 50, prefix 45, contains 40, suffix 35 (weights and scores in
/// thousandths).
pub proof fn law_rule_points(r: CompiledRule)
    ensures
        ({
            let t = r.rule.rule_type@;
            let pts: int = if t == "regex"@ {
                80
            } else if t == "keyword"@ {
                50
            } else if t == "prefix"@ {
                45
            } else if t == "contains"@ {
                40
            } else if t == "suffix"@ {
                35
            } else {
                0
            };
            rule_value(r) == pts * r.rule.weight_milli
        }),
{
}

/// An example adds 40 points when its trimmed, lower-cased text is at least
/// three bytes long and occurs in the text, and 60 more when its template
/// matches the text.
pub proof fn law_example_points(e: CompiledExample, norm: Seq<char>)
    ensures
        ({
            let x = spec_trim_lower(e.example.example_text@);
            let included = utf8_len(x) >= 3 && exists|i: int|
                0 <= i && i + x.len() <= norm.len() && #[trigger] norm.subrange(i, i + x.len()) == x;
            let templated = e.template matches Some(re) && spec_regex_is_match(re@, norm);
            example_points(e, norm) == (if included {
                40_000int
            } else {
                0
            }) + (if templated {
                60_000int
            } else {
                0
            })
        }),
{
    let x = spec_trim_lower(e.example.example_text@);
    if seq_contains(norm, x) {
        let i = choose|i: int| occurs_at(norm, x, i);
        assert(norm.subrange(i, i + x.len()) == x);
    }
    if exists|i: int| 0 <= i && i + x.len() <= norm.len() && #[trigger] norm.subrange(i, i + x.len()) == x {
        let i = choose|i: int| 0 <= i && i + x.len() <= norm.len() && #[trigger] norm.subrange(i, i + x.len()) == x;
        assert(occurs_at(norm, x, i));
    }
}

/// A group's score is the points of its counting rules and of its examples,
/// capped at 150 points.
pub proof fn law_group_score_sum(g: CompiledGroup, norm: Seq<char>)
    ensures
        ({
            let raw = rules_points(g.rules@, norm) + examples_points(g.examples@, norm);
            group_score(g, norm) == if raw < 150_000 {
                raw
            } else {
                150_000
            }
        }),
{
}

/// A clear winner is assigned: for text content with a non-empty normalized
/// text, a group that scores at least 50 points, is ahead of every earlier
/// group, no lower than any group, and at least 15 points ahead of every
/// other group with a positive score is the verdict's group.
pub proof fn law_clear_winner_is_assigned(
    content: Seq<char>,
    content_type: Seq<char>,
    gs: Seq<CompiledGroup>,
    k: int,
)
    requires
        !(content_type == "image"@ || content_type == "files"@),
        classify_norm(content).len() > 0,
        0 <= k < gs.len(),
        group_score(gs[k], classify_norm(content)) >= 50_000,
        forall|j: int|
            0 <= j < gs.len() && j != k ==> #[trigger] group_score(gs[j], classify_norm(content)) <= 0
                || group_score(gs[j], classify_norm(content)) + 15_000 <= group_score(
                gs[k],
                classify_norm(content),
            ),
        forall|j: int|
            0 <= j < k ==> #[trigger] group_score(gs[j], classify_norm(content)) < group_score(
                gs[k],
                classify_norm(content),
            ),
    ensures
        verdict(content, content_type, gs).0 == Some(k),
        verdict_group_id(content, content_type, gs) == Some(gs[k].group.id),
{
    let n = classify_norm(content);
    assert(score_at(gs, n, k) > 0);
    assert forall|j: int| 0 <= j < gs.len() implies #[trigger] score_at(gs, n, j) <= score_at(gs, n, k) by {
        assert(score_at(gs, n, j) == group_score(gs[j], n));
    }
    assert forall|j: int| 0 <= j < k implies #[trigger] score_at(gs, n, j) < score_at(gs, n, k) by {
        assert(score_at(gs, n, j) == group_score(gs[j], n));
    }
    assert(is_top(gs, n, k));
    assert(any_positive(gs, n));
    lemma_top_exists(gs, n);
    lemma_top_unique(gs, n, k, top_index(gs, n));
    assert(!has_close_rival(gs, n, k)) by {
        if has_close_rival(gs, n, k) {
            let j = choose|j: int|
                0 <= j < gs.len() && j != k && #[trigger] score_at(gs, n, j) > 0 && score_at(gs, n, k)
                    - score_at(gs, n, j) < AMBIGUOUS_GAP;
            assert(score_at(gs, n, j) == group_score(gs[j], n));
        }
    }
}


/// In the template of an example, a run of ASCII letters and digits that
/// follows no such char becomes the one fragment `[A-Za-z0-9]+`, and a char
/// that is neither such a char nor whitespace stands for itself, escaped.
pub proof fn law_template_word_run(a: Seq<char>, w: Seq<char>)
    requires
        a.len() > 0 ==> !is_word_char(a.last()),
        w.len() > 0,
        forall|i: int| 0 <= i < w.len() ==> is_word_char(#[trigger] w[i]),
    ensures
        template_pattern(a + w) == template_pattern(a) + "[A-Za-z0-9]+"@,
    decreases w.len(),
{
    let z = a + w;
    assert(z.drop_last() =~= a + w.drop_last());
    assert(z.last() == w.last());
    assert(is_word_char(w[w.len() - 1]));
    if w.len() == 1 {
        assert(z.drop_last() =~= a);
        if a.len() > 0 {
            assert(z[z.len() - 2] == a.last());
        }
    } else {
        assert(z[z.len() - 2] == w[w.len() - 2]);
        assert(is_word_char(w[w.len() - 2]));
        law_template_word_run(a, w.drop_last());
        assert(template_piece(Some(w[w.len() - 2]), w.last()) =~= Seq::<char>::empty());
    }
}

/// A char that is neither an ASCII letter or digit nor whitespace adds itself,
/// escaped as `regex::escape` escapes it, to the template.
pub proof fn law_template_other_char(a: Seq<char>, c: char)
    requires
        !is_word_char(c),
        !spec_is_whitespace(c),
    ensures
        template_pattern(a.push(c)) == template_pattern(a) + escaped(c),
{
    assert(a.push(c).drop_last() =~= a);
}

} // verus!
