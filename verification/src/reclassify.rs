//! Re-running classification over existing entries after rules or examples
//! change: which stored entries get which group, and how the session
//! history is updated.
use vstd::prelude::*;
use std::collections::VecDeque;

use crate::classifier::{
    classify_with_budget, lemma_classify_outcome, may_time_out, verdict_group_id, verdict_group_name,
    SmartGroupConfig,
};
use crate::models::{ClipboardEntry, SmartGroup, SmartGroupMatchResult};

verus! {

/// The group that a reclassification wants for an entry: any group, or the
/// one target group.
pub open spec fn wanted(group_id: Option<i64>, target: Option<i64>) -> bool {
    group_id is Some && (target matches Some(t) ==> group_id == Some(t))
}

/// Classifies every entry, each within a budget of `budget_nanos`
/// nanoseconds. An entry gets `Some(result)` when classification assigns it a
/// group (the `target` group, when one is given), else `None`; with a budget
/// of `u128::MAX` nanoseconds no classification runs out of time, so an entry
/// gets `Some` exactly when its verdict is a wanted group.
pub fn plan_reclassification(
    entries: &Vec<ClipboardEntry>,
    config: &SmartGroupConfig,
    target: Option<i64>,
    budget_nanos: u128,
) -> (plan: Vec<Option<SmartGroupMatchResult>>)
    ensures
        plan@.len() == entries@.len(),
        forall|i: int|
            0 <= i < entries@.len() ==> {
                let e = entries@[i];
                let gid = verdict_group_id(e.content@, e.content_type@, config.groups@);
                match #[trigger] plan@[i] {
                    Some(r) => {
                        &&& wanted(r.smart_group_id, target)
                        &&& r.smart_group_id == gid
                        &&& r.smart_group_name@ == verdict_group_name(
                            e.content@,
                            e.content_type@,
                            config.groups@,
                        )
                    },
                    None => (!wanted(gid, target) || may_time_out(
                        e.content@,
                        e.content_type@,
                        config.groups@.len() as int,
                    )) && (budget_nanos == u128::MAX ==> !wanted(gid, target)),
                }
            },
{
    let mut plan: Vec<Option<SmartGroupMatchResult>> = Vec::new();
    let mut i: usize = 0;
    while i < entries.len()
        invariant
            i <= entries.len(),
            plan@.len() == i,
            forall|k: int|
                0 <= k < i ==> {
                    let e = entries@[k];
                    let gid = verdict_group_id(e.content@, e.content_type@, config.groups@);
                    match #[trigger] plan@[k] {
                        Some(r) => {
                            &&& wanted(r.smart_group_id, target)
                            &&& r.smart_group_id == gid
                            &&& r.smart_group_name@ == verdict_group_name(
                                e.content@,
                                e.content_type@,
                                config.groups@,
                            )
                        },
                        None => (!wanted(gid, target) || may_time_out(
                            e.content@,
                            e.content_type@,
                            config.groups@.len() as int,
                        )) && (budget_nanos == u128::MAX ==> !wanted(gid, target)),
                    }
                },
        decreases entries.len() - i,
    {
        let e = &entries[i];
        let r = classify_with_budget(e.content.as_str(), e.content_type.as_str(), config, budget_nanos);
        proof {
            lemma_classify_outcome(r, e.content@, e.content_type@, config.groups@);
        }
        let keep = match r.smart_group_id {
            Some(g) => match target {
                Some(t) => g == t,
                None => true,
            },
            None => false,
        };
        if keep {
            plan.push(Some(r));
        } else {
            plan.push(None);
        }
        i = i + 1;
    }
    plan
}

/// Prepares the target group of a per-group reclassification: nothing is done
/// for a missing or disabled group; otherwise the group is switched to
/// automatic matching, and the flag says whether it has to be stored.
pub fn reclassify_target(group: Option<SmartGroup>) -> (r: Option<(SmartGroup, bool)>)
    ensures
        match group {
            None => r is None,
            Some(g) => if !g.enabled {
                r is None
            } else {
                r matches Some(p) && p.1 == !g.auto_match_enabled && p.0.auto_match_enabled && p.0.id
                    == g.id && p.0.name == g.name && p.0.enabled && p.0.description == g.description
                    && p.0.color == g.color && p.0.icon == g.icon && p.0.is_sensitive
                    == g.is_sensitive && p.0.sort_order == g.sort_order && p.0.created_at
                    == g.created_at && p.0.updated_at == g.updated_at
            },
        },
{
    match group {
        None => None,
        Some(g) => {
            if !g.enabled {
                return None;
            }
            let mut g2 = g;
            let needs_update = !g2.auto_match_enabled;
            g2.auto_match_enabled = true;
            Some((g2, needs_update))
        },
    }
}

// ───────────────────────────── the session history ─────────────────────────────

/// The position of the first entry with the id.
pub open spec fn first_with_id(s: Seq<ClipboardEntry>, id: i64) -> int
    decreases s.len(),
{
    if s.len() == 0 {
        0
    } else if s[0].id == id {
        0
    } else {
        1 + first_with_id(s.drop_first(), id)
    }
}

proof fn lemma_first_with_id(s: Seq<ClipboardEntry>, i: int)
    requires
        0 <= i < s.len(),
    ensures
        0 <= first_with_id(s, s[i].id) <= i,
        s[first_with_id(s, s[i].id)].id == s[i].id,
        forall|j: int| 0 <= j < first_with_id(s, s[i].id) ==> (#[trigger] s[j]).id != s[i].id,
    decreases i,
{
    if s[0].id != s[i].id {
        lemma_first_with_id(s.drop_first(), i - 1);
        assert(s.drop_first()[i - 1] == s[i]);
        assert forall|j: int| 0 <= j < first_with_id(s, s[i].id) implies (#[trigger] s[j]).id != s[i].id by {
            if j > 0 {
                assert(s.drop_first()[j - 1] == s[j]);
            }
        }
    }
}

/// The group fields of the classified copy of entry `j`: the target group
/// when the copy was matched to it, else the entry's own.
pub open spec fn copy_group_id(s: Seq<ClipboardEntry>, hits: Seq<bool>, target: i64, j: int) -> Option<i64> {
    if hits[j] {
        Some(target)
    } else {
        s[j].smart_group_id
    }
}

pub open spec fn copy_group_name(
    s: Seq<ClipboardEntry>,
    hits: Seq<bool>,
    gs: Seq<crate::classifier::CompiledGroup>,
    j: int,
) -> Seq<char> {
    if hits[j] {
        verdict_group_name(s[j].content@, s[j].content_type@, gs)
    } else {
        s[j].smart_group_name@
    }
}

/// `hits` records which session entries classification matched to the target
/// group: a hit only where the verdict is the target, a miss only where it is
/// not or the classification may have run out of time; when `exact` (no
/// classification can run out of time), a hit exactly where the verdict is
/// the target.
pub open spec fn valid_hits(
    s: Seq<ClipboardEntry>,
    hits: Seq<bool>,
    gs: Seq<crate::classifier::CompiledGroup>,
    target: i64,
    exact: bool,
) -> bool {
    &&& hits.len() == s.len()
    &&& forall|j: int|
        0 <= j < s.len() ==> (#[trigger] hits[j] ==> verdict_group_id(
            s[j].content@,
            s[j].content_type@,
            gs,
        ) == Some(target)) && (!hits[j] ==> (verdict_group_id(s[j].content@, s[j].content_type@, gs)
            != Some(target) || may_time_out(s[j].content@, s[j].content_type@, gs.len() as int)))
            && (exact ==> hits[j] == (verdict_group_id(s[j].content@, s[j].content_type@, gs)
            == Some(target)))
}

pub open spec fn count_hits(hits: Seq<bool>) -> nat
    decreases hits.len(),
{
    if hits.len() == 0 {
        0
    } else {
        count_hits(hits.drop_last()) + if hits.last() {
            1nat
        } else {
            0nat
        }
    }
}

/// All fields of `a` and `b` agree except the group id and name.
pub open spec fn same_but_group(a: ClipboardEntry, b: ClipboardEntry) -> bool {
    &&& a.id == b.id
    &&& a.content_type == b.content_type
    &&& a.content == b.content
    &&& a.html_content == b.html_content
    &&& a.source_app == b.source_app
    &&& a.source_app_path == b.source_app_path
    &&& a.timestamp == b.timestamp
    &&& a.preview == b.preview
    &&& a.is_pinned == b.is_pinned
    &&& a.tags@ == b.tags@
    &&& a.use_count == b.use_count
    &&& a.is_external == b.is_external
    &&& a.pinned_order == b.pinned_order
    &&& a.file_preview_exists == b.file_preview_exists
    &&& a.note == b.note
    &&& a.group_confidence_e5 == b.group_confidence_e5
    &&& a.group_reason == b.group_reason
    &&& a.group_match_type == b.group_match_type
    &&& a.group_manual_override == b.group_manual_override
}

/// Entry `i` after the update: it takes the group of the classified copy of
/// the first entry with its id, when that copy has one; else it is unchanged.
pub open spec fn updated_as(
    r: ClipboardEntry,
    s: Seq<ClipboardEntry>,
    hits: Seq<bool>,
    gs: Seq<crate::classifier::CompiledGroup>,
    target: i64,
    i: int,
) -> bool {
    let j = first_with_id(s, s[i].id);
    &&& same_but_group(r, s[i])
    &&& if copy_group_id(s, hits, target, j) is Some {
        r.smart_group_id == copy_group_id(s, hits, target, j) && r.smart_group_name@
            == copy_group_name(s, hits, gs, j)
    } else {
        r.smart_group_id == s[i].smart_group_id && r.smart_group_name == s[i].smart_group_name
    }
}

/// The positions among the first `m` entries whose update takes a group from
/// a classified copy, in order.
pub open spec fn touched_positions(s: Seq<ClipboardEntry>, hits: Seq<bool>, target: i64, m: int) -> Seq<int>
    decreases m,
{
    if m <= 0 {
        Seq::empty()
    } else {
        let r = touched_positions(s, hits, target, m - 1);
        if copy_group_id(s, hits, target, first_with_id(s, s[m - 1].id)) is Some {
            r.push(m - 1)
        } else {
            r
        }
    }
}

/// `u` is the classified copy of the first entry with the id of entry `i`.
pub open spec fn is_copy_for(
    u: ClipboardEntry,
    s: Seq<ClipboardEntry>,
    hits: Seq<bool>,
    gs: Seq<crate::classifier::CompiledGroup>,
    target: i64,
    i: int,
) -> bool {
    let j = first_with_id(s, s[i].id);
    &&& same_but_group(u, s[j])
    &&& u.smart_group_id == copy_group_id(s, hits, target, j)
    &&& u.smart_group_name@ == copy_group_name(s, hits, gs, j)
}

/// What updating the session history reports.
pub struct SessionReclassification {
    /// How many session entries were matched to the target group.
    pub matched: usize,
    /// The updated entries, in order, as the front end is told about them.
    pub updated: Vec<ClipboardEntry>,
}

/// Classifies copies of the session entries against the target group, each
/// within a budget of `budget_nanos` nanoseconds, then
/// gives each entry the group of the copy of the first entry with its id
/// whenever that copy has a group.
pub fn reclassify_session(
    session: &mut VecDeque<ClipboardEntry>,
    config: &SmartGroupConfig,
    target: i64,
    budget_nanos: u128,
) -> (r: SessionReclassification)
    ensures
        exists|hits: Seq<bool>|
            {
                &&& valid_hits(old(session)@, hits, config.groups@, target, budget_nanos == u128::MAX)
                &&& r.matched == count_hits(hits)
                &&& final(session)@.len() == old(session)@.len()
                &&& forall|i: int|
                    0 <= i < old(session)@.len() ==> updated_as(
                        #[trigger] final(session)@[i],
                        old(session)@,
                        hits,
                        config.groups@,
                        target,
                        i,
                    )
                &&& r.updated@.len() == touched_positions(old(session)@, hits, target, old(session)@.len() as int).len()
                &&& forall|m: int|
                    0 <= m < r.updated@.len() ==> is_copy_for(
                        #[trigger] r.updated@[m],
                        old(session)@,
                        hits,
                        config.groups@,
                        target,
                        touched_positions(old(session)@, hits, target, old(session)@.len() as int)[m],
                    )
            },
{
    let ghost s = session@;
    let ghost gs = config.groups@;
    let n = session.len();
    // classify copies
    let mut copies: Vec<ClipboardEntry> = Vec::new();
    let mut matched: usize = 0;
    let ghost mut hits: Seq<bool> = Seq::empty();
    let mut k: usize = 0;
    while k < n
        invariant
            n == s.len(),
            s == session@,
            gs == config.groups@,
            k <= n,
            copies@.len() == k,
            hits.len() == k,
            matched == count_hits(hits),
            matched <= k,
            forall|j: int|
                0 <= j < k ==> {
                    &&& same_but_group(#[trigger] copies@[j], s[j])
                    &&& copies@[j].smart_group_id == copy_group_id(s, hits, target, j)
                    &&& copies@[j].smart_group_name@ == copy_group_name(s, hits, gs, j)
                },
            forall|j: int|
                0 <= j < k ==> (#[trigger] hits[j] ==> verdict_group_id(
                    s[j].content@,
                    s[j].content_type@,
                    gs,
                ) == Some(target)) && (!hits[j] ==> (verdict_group_id(
                    s[j].content@,
                    s[j].content_type@,
                    gs,
                ) != Some(target) || may_time_out(s[j].content@, s[j].content_type@, gs.len() as int)))
                    && (budget_nanos == u128::MAX ==> hits[j] == (verdict_group_id(
                    s[j].content@,
                    s[j].content_type@,
                    gs,
                ) == Some(target))),
        decreases n - k,
    {
        let mut c = session[k].copy();
        let r = classify_with_budget(c.content.as_str(), c.content_type.as_str(), config, budget_nanos);
        proof {
            lemma_classify_outcome(r, c.content@, c.content_type@, gs);
        }
        let hit = match r.smart_group_id {
            Some(g) => g == target,
            None => false,
        };
        let ghost old_hits = hits;
        if hit {
            c.smart_group_id = Some(target);
            c.smart_group_name = r.smart_group_name;
            matched = matched + 1;
        }
        proof {
            hits = hits.push(hit);
            assert(hits.drop_last() =~= old_hits);
            assert forall|j: int| 0 <= j < k implies hits[j] == old_hits[j] by {}
        }
        copies.push(c);
        k = k + 1;
    }
    // apply to the session entries
    let mut updated: Vec<ClipboardEntry> = Vec::new();
    let mut j: usize = 0;
    while j < n
        invariant
            n == s.len(),
            gs == config.groups@,
            j <= n,
            copies@.len() == n,
            hits.len() == n,
            session@.len() == n,
            forall|q: int|
                0 <= q < n ==> {
                    &&& same_but_group(#[trigger] copies@[q], s[q])
                    &&& copies@[q].smart_group_id == copy_group_id(s, hits, target, q)
                    &&& copies@[q].smart_group_name@ == copy_group_name(s, hits, gs, q)
                },
            forall|i: int| 0 <= i < n - j ==> #[trigger] session@[i] == s[i + j],
            forall|i: int| 0 <= i < j ==> updated_as(#[trigger] session@[n - j + i], s, hits, gs, target, i),
            updated@.len() == touched_positions(s, hits, target, j as int).len(),
            forall|m: int|
                0 <= m < updated@.len() ==> is_copy_for(
                    #[trigger] updated@[m],
                    s,
                    hits,
                    gs,
                    target,
                    touched_positions(s, hits, target, j as int)[m],
                ),
        decreases n - j,
    {
        let ghost before = session@;
        let x = session.pop_front();
        match x {
            Some(e) => {
                assert(e == s[j as int]);
                let mut e2 = e;
                // the first copy with the same id
                let mut p: usize = 0;
                while p < copies.len() && copies[p].id != e2.id
                    invariant
                        p <= copies@.len(),
                        copies@.len() == n,
                        n == s.len(),
                        e2 == s[j as int],
                        j < n,
                        forall|q: int| 0 <= q < n ==> same_but_group(#[trigger] copies@[q], s[q]),
                        forall|q: int| 0 <= q < p ==> (#[trigger] s[q]).id != e2.id,
                    decreases copies@.len() - p,
                {
                    assert(same_but_group(copies@[p as int], s[p as int]));
                    p = p + 1;
                }
                proof {
                    lemma_first_with_id(s, j as int);
                    let f = first_with_id(s, s[j as int].id);
                    if p < n {
                        assert(same_but_group(copies@[p as int], s[p as int]));
                        assert(p as int == f);
                    } else {
                        assert(s[f].id != e2.id);
                    }
                }
                let ghost before_updated = updated@;
                if p < copies.len() {
                    let c = &copies[p];
                    if c.smart_group_id.is_some() {
                        e2.smart_group_id = c.smart_group_id;
                        e2.smart_group_name = c.smart_group_name.clone();
                        updated.push(c.copy());
                    }
                }
                proof {
                    let tp = touched_positions(s, hits, target, j as int);
                    let tp2 = touched_positions(s, hits, target, j + 1);
                    assert forall|m: int| 0 <= m < updated@.len() implies is_copy_for(
                        #[trigger] updated@[m],
                        s,
                        hits,
                        gs,
                        target,
                        tp2[m],
                    ) by {
                        if m < before_updated.len() {
                            assert(updated@[m] == before_updated[m]);
                            assert(tp2[m] == tp[m]);
                        } else {
                            assert(tp2[m] == j as int);
                        }
                    }
                }
                session.push_back(e2);
                proof {
                    assert forall|i: int| 0 <= i < n - (j + 1) implies #[trigger] session@[i] == s[i + j + 1] by {
                        assert(session@[i] == before[i + 1]);
                    }
                    assert forall|i: int| 0 <= i < j + 1 implies updated_as(#[trigger] session@[n - (j + 1) + i], s, hits, gs, target, i) by {
                        if i < j {
                            assert(session@[n - (j + 1) + i] == before[n - j + i]);
                        }
                    }
                }
            },
            None => {
                assert(false);
            },
        }
        j = j + 1;
    }
    assert forall|i: int| 0 <= i < n implies updated_as(#[trigger] session@[i], s, hits, gs, target, i) by {
        assert(session@[n - j + i] == session@[i]);
    }
    assert(valid_hits(s, hits, gs, target, budget_nanos == u128::MAX));
    SessionReclassification { matched, updated }
}

} // verus!
