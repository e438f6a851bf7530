//! Exporting a smart group as a Markdown document.
use vstd::prelude::*;
use std::collections::{HashSet, VecDeque};

use crate::history::{
    text_lt, distinct_ids, has_id, law_sorted_entries_in_order, lemma_has_id_same, lemma_sorted_same, sort_entries, sorted_entries,
    EntryOrder,
};
use crate::models::{same_entries, same_entry, ClipboardEntry};
use crate::text::{
    format_int, int_text, push_char, push_decimal, push_str, spec_take_chars, take_chars, text_eq,
    text_utf8_len, utf8_len, chars_of, digit_char,
};

verus! {

broadcast use vstd::std_specs::hash::group_hash_axioms;

// ───────────────────────────── JSON strings ─────────────────────────────

pub open spec fn hex_digit(d: int) -> char {
    if d < 10 {
        digit_char(d)
    } else if d == 10 {
        'a'
    } else if d == 11 {
        'b'
    } else if d == 12 {
        'c'
    } else if d == 13 {
        'd'
    } else if d == 14 {
        'e'
    } else {
        'f'
    }
}

/// How `serde_json` writes one char inside a string: quote, backslash and
/// control chars are escaped (`\b \f \n \r \t`, else `\u00XX` in lower-case
/// hex); every other char stands for itself.
pub open spec fn json_char(c: char) -> Seq<char> {
    if c == '"' {
        seq!['\\', '"']
    } else if c == '\\' {
        seq!['\\', '\\']
    } else if c == '\u{8}' {
        seq!['\\', 'b']
    } else if c == '\u{c}' {
        seq!['\\', 'f']
    } else if c == '\n' {
        seq!['\\', 'n']
    } else if c == '\r' {
        seq!['\\', 'r']
    } else if c == '\t' {
        seq!['\\', 't']
    } else if (c as u32) < 0x20 {
        seq!['\\', 'u', '0', '0', hex_digit((c as int) / 16), hex_digit((c as int) % 16)]
    } else {
        seq![c]
    }
}

pub open spec fn json_chars(s: Seq<char>) -> Seq<char>
    decreases s.len(),
{
    if s.len() == 0 {
        Seq::empty()
    } else {
        json_chars(s.drop_last()) + json_char(s.last())
    }
}

/// A text as a JSON string literal, as `serde_json::to_string` writes it.
pub open spec fn json_quoted(s: Seq<char>) -> Seq<char> {
    seq!['"'] + json_chars(s) + seq!['"']
}

/// A JSON object of two string fields, as `serde_json` writes it: compact,
/// keys in order, each key and value a JSON string literal.
pub open spec fn json_object2(k1: Seq<char>, v1: Seq<char>, k2: Seq<char>, v2: Seq<char>) -> Seq<char> {
    seq!['{'] + json_quoted(k1) + seq![':'] + json_quoted(v1) + seq![','] + json_quoted(k2) + seq![
        ':',
    ] + json_quoted(v2) + seq!['}']
}

/// `serde_json::to_string` of a `BTreeMap` holding the two fields: the map
/// orders its keys (`k1` sorts first), and the compact writer puts the
/// fields in that order with the string escapes of `json_char`. A map with
/// string keys and values cannot fail to serialize.
#[verifier::external_body]
fn json_text_object(k1: &str, v1: &str, k2: &str, v2: &str) -> (r: String)
    requires
        text_lt(k1@, k2@),
    ensures
        r@ == json_object2(k1@, v1@, k2@, v2@),
{
    let mut fields = std::collections::BTreeMap::new();
    fields.insert(k1, v1);
    fields.insert(k2, v2);
    serde_json::to_string(&fields).unwrap()
}

// ───────────────────────────── the exported entries ─────────────────────────────

/// The session entries of the group, in order.
pub open spec fn group_entries(s: Seq<ClipboardEntry>, group_id: i64) -> Seq<ClipboardEntry>
    decreases s.len(),
{
    if s.len() == 0 {
        s
    } else {
        let r = group_entries(s.drop_last(), group_id);
        if s.last().smart_group_id == Some(group_id) {
            r.push(s.last())
        } else {
            r
        }
    }
}

/// The first entry of each id, in order.
pub open spec fn first_of_each_id(s: Seq<ClipboardEntry>) -> Seq<ClipboardEntry>
    decreases s.len(),
{
    if s.len() == 0 {
        s
    } else {
        let r = first_of_each_id(s.drop_last());
        if has_id(s.drop_last(), s.last().id) {
            r
        } else {
            r.push(s.last())
        }
    }
}

/// The entries of an export: the stored entries of the group and its session
/// entries, newest first, each id once.
pub open spec fn export_entries(
    db: Seq<ClipboardEntry>,
    session: Seq<ClipboardEntry>,
    group_id: i64,
) -> Seq<ClipboardEntry> {
    first_of_each_id(sorted_entries(db + group_entries(session, group_id), EntryOrder::Newest))
}

proof fn lemma_first_has_id(s: Seq<ClipboardEntry>, id: i64)
    ensures
        has_id(first_of_each_id(s), id) == has_id(s, id),
    decreases s.len(),
{
    if s.len() > 0 {
        let p = s.drop_last();
        lemma_first_has_id(p, id);
        let r = first_of_each_id(p);
        if has_id(s, id) {
            let k = choose|k: int| 0 <= k < s.len() && (#[trigger] s[k]).id == id;
            if k < s.len() - 1 {
                assert(p[k].id == id);
            }
        }
        if has_id(p, id) {
            let k = choose|k: int| 0 <= k < p.len() && (#[trigger] p[k]).id == id;
            assert(s[k].id == id);
        }
        if !has_id(p, s.last().id) {
            let r2 = r.push(s.last());
            if has_id(r2, id) {
                let k = choose|k: int| 0 <= k < r2.len() && (#[trigger] r2[k]).id == id;
                if k < r.len() {
                    assert(r[k].id == id);
                }
            }
            if has_id(r, id) {
                let k = choose|k: int| 0 <= k < r.len() && (#[trigger] r[k]).id == id;
                assert(r2[k].id == id);
            }
            assert(r2[r.len() as int] == s.last());
        }
    }
}

// ───────────────────────────── the document ─────────────────────────────

/// The title of the export: the group's name, or `group-<id>` when the group
/// is not found.
pub open spec fn export_title(name: Option<String>, group_id: i64) -> Seq<char> {
    match name {
        Some(n) => n@,
        None => "group-"@ + int_text(group_id as int),
    }
}

/// The Markdown block of one entry: images by the first 80 chars of their
/// content, other entries by the first 2000 chars, with a note when the
/// content is longer than 2000 bytes.
pub open spec fn entry_block(e: ClipboardEntry) -> Seq<char> {
    if e.content_type@ == "image"@ {
        "> 图片: "@ + spec_take_chars(e.content@, 80) + "...\n\n"@
    } else {
        spec_take_chars(e.content@, 2000) + "\n\n"@ + if utf8_len(e.content@) > 2000 {
            "> *内容已截断*\n\n"@
        } else {
            Seq::empty()
        }
    }
}

/// The blocks of the entries, separated by rules.
pub open spec fn entries_markdown(es: Seq<ClipboardEntry>) -> Seq<char>
    decreases es.len(),
{
    if es.len() == 0 {
        Seq::empty()
    } else {
        entries_markdown(es.drop_last()) + (if es.len() > 1 {
            "---\n\n"@
        } else {
            Seq::empty()
        }) + entry_block(es.last())
    }
}

/// The whole document: title, entry count, entries.
pub open spec fn markdown_document(title: Seq<char>, es: Seq<ClipboardEntry>) -> Seq<char> {
    "# "@ + title + "\n\n"@ + "> "@ + int_text(es.len() as int) + " 条内容\n\n---\n\n"@
        + entries_markdown(es)
}

/// Chars that may not stand in a file name.
pub open spec fn is_file_name_special(c: char) -> bool {
    c == '\\' || c == '/' || c == ':' || c == '*' || c == '?' || c == '"' || c == '<' || c == '>'
        || c == '|'
}

/// The title with every special char replaced by `_`.
pub open spec fn file_safe(t: Seq<char>) -> Seq<char> {
    t.map_values(|c: char| if is_file_name_special(c) { '_' } else { c })
}

/// The suggested file name: `<safe title>_<date>.md`.
pub open spec fn export_file_name(title: Seq<char>, date: Seq<char>) -> Seq<char> {
    file_safe(title) + seq!['_'] + date + ".md"@
}

pub open spec fn empty_group_message() -> Seq<char> {
    "该分组下没有数据"@
}

/// What an export returns: an error when the group has no entries, else the
/// JSON object `{"content":<document>,"filename":<file name>}`.
pub open spec fn export_result(
    db: Seq<ClipboardEntry>,
    session: Seq<ClipboardEntry>,
    group_id: i64,
    name: Option<String>,
    date: Seq<char>,
) -> Result<Seq<char>, Seq<char>> {
    let es = export_entries(db, session, group_id);
    let title = export_title(name, group_id);
    if es.len() == 0 {
        Err(empty_group_message())
    } else {
        Ok(json_object2("content"@, markdown_document(title, es), "filename"@, export_file_name(title, date)))
    }
}

fn entry_block_text(md: &mut String, e: &ClipboardEntry)
    ensures
        final(md)@ == old(md)@ + entry_block(*e),
{
    if text_eq(e.content_type.as_str(), "image") {
        push_str(md, "> 图片: ");
        let head = take_chars(e.content.as_str(), 80);
        push_str(md, head.as_str());
        push_str(md, "...\n\n");
    } else {
        let text = take_chars(e.content.as_str(), 2000);
        push_str(md, text.as_str());
        push_str(md, "\n\n");
        if text_utf8_len(e.content.as_str()) > 2000 {
            push_str(md, "> *内容已截断*\n\n");
        }
    }
}

fn file_safe_text(t: &str) -> (r: String)
    ensures
        r@ == file_safe(t@),
{
    let v = chars_of(t);
    let mut r = String::new();
    let mut i: usize = 0;
    while i < v.len()
        invariant
            i <= v.len(),
            v@ == t@,
            r@ == file_safe(v@.take(i as int)),
        decreases v.len() - i,
    {
        let c = v[i];
        if c == '\\' || c == '/' || c == ':' || c == '*' || c == '?' || c == '"' || c == '<' || c
            == '>' || c == '|' {
            push_char(&mut r, '_');
        } else {
            push_char(&mut r, c);
        }
        i = i + 1;
        assert(r@ =~= file_safe(v@.take(i as int)));
    }
    assert(v@.take(v.len() as int) =~= v@);
    r
}

/// Exports the entries of a group as Markdown. `db_entries` are the stored
/// entries of the group, `session` the session history, `group_name` the
/// group's name if it exists, and `date` the export date (`YYYYMMDD`).
pub fn export_group_markdown(
    db_entries: Vec<ClipboardEntry>,
    session: &VecDeque<ClipboardEntry>,
    group_id: i64,
    group_name: Option<String>,
    date: &str,
) -> (r: Result<String, String>)
    ensures
        match r {
            Ok(s) => export_result(db_entries@, session@, group_id, group_name, date@) == Ok::<
                Seq<char>,
                Seq<char>,
            >(s@),
            Err(e) => export_result(db_entries@, session@, group_id, group_name, date@) == Err::<
                Seq<char>,
                Seq<char>,
            >(e@),
        },
{
    let ghost db = db_entries@;
    let ghost grouped = group_entries(session@, group_id);
    let mut entries = db_entries;
    let mut k: usize = 0;
    assert(session@.take(0) =~= Seq::<ClipboardEntry>::empty());
    assert forall|i: int| 0 <= i < entries@.len() implies same_entry(#[trigger] entries@[i], (db + group_entries(session@.take(0), group_id))[i]) by {}
    while k < session.len()
        invariant
            k <= session@.len(),
            same_entries(entries@, db + group_entries(session@.take(k as int), group_id)),
        decreases session@.len() - k,
    {
        let e = &session[k];
        let ghost before = entries@;
        let ghost m = db + group_entries(session@.take(k as int), group_id);
        proof {
            let u = session@.take(k + 1);
            assert(u.drop_last() =~= session@.take(k as int));
            assert(u.last() == *e);
        }
        let hit = match e.smart_group_id {
            Some(g) => g == group_id,
            None => false,
        };
        if hit {
            entries.push(e.copy());
            proof {
                let m2 = db + group_entries(session@.take(k + 1), group_id);
                assert(m2 =~= m.push(*e));
                assert forall|i: int| 0 <= i < entries@.len() implies same_entry(#[trigger] entries@[i], m2[i]) by {
                    if i < before.len() {
                        assert(entries@[i] == before[i]);
                    }
                }
            }
        } else {
            assert(db + group_entries(session@.take(k + 1), group_id) =~= m);
        }
        k = k + 1;
    }
    assert(session@.take(session@.len() as int) =~= session@);
    let ghost merged = db + grouped;
    let sorted = sort_entries(entries, EntryOrder::Newest);
    let ghost spec_sorted = sorted_entries(merged, EntryOrder::Newest);
    proof {
        lemma_sorted_same(entries@, merged, EntryOrder::Newest);
    }
    let ghost ss = sorted@;
    let mut unique: Vec<ClipboardEntry> = Vec::new();
    let mut seen: HashSet<i64> = HashSet::new();
    assert(spec_sorted.take(0) =~= Seq::<ClipboardEntry>::empty());
    for x in it: sorted
        invariant
            it.seq() == ss,
            same_entries(ss, spec_sorted),
            same_entries(unique@, first_of_each_id(spec_sorted.take(it.index() as int))),
            forall|id: i64| #[trigger] seen@.contains(id) == has_id(unique@, id),
    {
        let ghost j = it.index();
        let ghost before = unique@;
        proof {
            let u = spec_sorted.take(j + 1);
            assert(u.drop_last() =~= spec_sorted.take(j as int));
            assert(same_entry(x, spec_sorted[j as int]));
            lemma_has_id_same(unique@, first_of_each_id(spec_sorted.take(j as int)), x.id);
            lemma_first_has_id(spec_sorted.take(j as int), x.id);
        }
        let id = x.id;
        let ghost seen_before = seen@;
        if seen.insert(id) {
            unique.push(x);
            proof {
                let m = first_of_each_id(spec_sorted.take(j as int));
                assert forall|i: int| 0 <= i < unique@.len() implies same_entry(#[trigger] unique@[i], m.push(spec_sorted[j as int])[i]) by {
                    if i < before.len() {
                        assert(unique@[i] == before[i]);
                    }
                }
                assert forall|b: i64| #[trigger] seen@.contains(b) == has_id(unique@, b) by {
                    if has_id(before, b) {
                        let k = choose|k: int| 0 <= k < before.len() && (#[trigger] before[k]).id == b;
                        assert(unique@[k].id == b);
                    }
                    if has_id(unique@, b) && b != id {
                        let k = choose|k: int| 0 <= k < unique@.len() && (#[trigger] unique@[k]).id == b;
                        assert(before[k].id == b);
                    }
                    assert(unique@[before.len() as int].id == id);
                }
            }
        }
    }
    assert(spec_sorted.take(spec_sorted.len() as int) =~= spec_sorted);
    let ghost es = export_entries(db, session@, group_id);
    assert(same_entries(unique@, es));
    let title = match group_name {
        Some(n) => n,
        None => {
            let mut t = "group-".to_owned();
            let digits = format_int(group_id);
            push_str(&mut t, digits.as_str());
            t
        },
    };
    let ghost tt = export_title(group_name, group_id);
    assert(title@ == tt);
    if unique.len() == 0 {
        return Err("该分组下没有数据".to_owned());
    }
    let mut md = String::new();
    push_str(&mut md, "# ");
    push_str(&mut md, title.as_str());
    push_str(&mut md, "\n\n");
    push_str(&mut md, "> ");
    push_decimal(&mut md, unique.len() as u128);
    push_str(&mut md, " 条内容\n\n---\n\n");
    let ghost head = md@;
    let n = unique.len();
    let mut i: usize = 0;
    assert(es.take(0) =~= Seq::<ClipboardEntry>::empty());
    while i < n
        invariant
            n == unique@.len(),
            same_entries(unique@, es),
            i <= n,
            md@ == head + entries_markdown(es.take(i as int)),
        decreases n - i,
    {
        let ghost before = md@;
        if i > 0 {
            push_str(&mut md, "---\n\n");
        }
        entry_block_text(&mut md, &unique[i]);
        proof {
            assert(same_entry(unique@[i as int], es[i as int]));
            assert(entry_block(unique@[i as int]) == entry_block(es[i as int]));
            let u = es.take(i + 1);
            assert(u.drop_last() =~= es.take(i as int));
            assert(u.last() == es[i as int]);
            assert(md@ =~= head + entries_markdown(es.take(i + 1)));
        }
        i = i + 1;
    }
    assert(es.take(n as int) =~= es);
    assert(md@ =~= markdown_document(tt, es));
    let safe = file_safe_text(title.as_str());
    let mut file_name = safe;
    push_char(&mut file_name, '_');
    push_str(&mut file_name, date);
    push_str(&mut file_name, ".md");
    proof {
        reveal_strlit("content");
        reveal_strlit("filename");
        assert("content"@[0] == 'c' && "filename"@[0] == 'f');
    }
    let out = json_text_object("content", md.as_str(), "filename", file_name.as_str());
    assert(file_name@ =~= export_file_name(tt, date@));
    assert(es.len() > 0);
    Ok(out)
}

// ───────────────────────────── laws ─────────────────────────────

proof fn lemma_first_of_each_id_from(s: Seq<ClipboardEntry>)
    ensures
        forall|i: int| 0 <= i < first_of_each_id(s).len() ==> exists|k: int| 0 <= k < s.len() && #[trigger] first_of_each_id(s)[i] == s[k],
        distinct_ids(first_of_each_id(s)),
    decreases s.len(),
{
    if s.len() > 0 {
        let p = s.drop_last();
        lemma_first_of_each_id_from(p);
        let r = first_of_each_id(p);
        assert forall|i: int| 0 <= i < first_of_each_id(s).len() implies exists|k: int| 0 <= k < s.len() && #[trigger] first_of_each_id(s)[i] == s[k] by {
            if i < r.len() {
                let k = choose|k: int| 0 <= k < p.len() && r[i] == p[k];
                assert(first_of_each_id(s)[i] == s[k]);
            } else {
                assert(first_of_each_id(s)[i] == s[s.len() - 1]);
            }
        }
        if !has_id(p, s.last().id) {
            lemma_first_has_id(p, s.last().id);
            let t = r.push(s.last());
            assert forall|i: int, j: int| 0 <= i < j < t.len() implies (#[trigger] t[i]).id != (#[trigger] t[j]).id by {
                if j == r.len() {
                    assert(t[i] == r[i]);
                } else {
                    assert(t[i] == r[i] && t[j] == r[j]);
                }
            }
        }
    }
}

proof fn lemma_group_entries_in_group(s: Seq<ClipboardEntry>, group_id: i64)
    ensures
        forall|i: int| 0 <= i < group_entries(s, group_id).len() ==> (#[trigger] group_entries(s, group_id)[i]).smart_group_id == Some(group_id),
    decreases s.len(),
{
    if s.len() > 0 {
        lemma_group_entries_in_group(s.drop_last(), group_id);
    }
}

/// An export lists every id once, and when the stored entries handed to it
/// are those of the group, every exported entry belongs to the group.
pub proof fn law_export_lists_group_entries_once(
    db: Seq<ClipboardEntry>,
    session: Seq<ClipboardEntry>,
    group_id: i64,
)
    ensures
        distinct_ids(export_entries(db, session, group_id)),
        (forall|i: int| 0 <= i < db.len() ==> (#[trigger] db[i]).smart_group_id == Some(group_id)) ==> forall|i: int|
            0 <= i < export_entries(db, session, group_id).len() ==> (#[trigger] export_entries(db, session, group_id)[i]).smart_group_id == Some(group_id),
{
    broadcast use vstd::seq_lib::to_multiset_contains;

    let merged = db + group_entries(session, group_id);
    let sorted = sorted_entries(merged, EntryOrder::Newest);
    lemma_first_of_each_id_from(sorted);
    law_sorted_entries_in_order(merged, EntryOrder::Newest);
    lemma_group_entries_in_group(session, group_id);
    if forall|i: int| 0 <= i < db.len() ==> (#[trigger] db[i]).smart_group_id == Some(group_id) {
        let es = export_entries(db, session, group_id);
        assert forall|i: int| 0 <= i < es.len() implies (#[trigger] es[i]).smart_group_id == Some(group_id) by {
            let k = choose|k: int| 0 <= k < sorted.len() && es[i] == sorted[k];
            assert(sorted.contains(sorted[k]));
            assert(sorted.to_multiset().count(sorted[k]) > 0);
            assert(merged.to_multiset().count(sorted[k]) > 0);
            assert(merged.contains(sorted[k]));
            let q = choose|q: int| 0 <= q < merged.len() && merged[q] == sorted[k];
            if q < db.len() {
                assert(merged[q] == db[q]);
            } else {
                assert(merged[q] == group_entries(session, group_id)[q - db.len()]);
            }
        }
    }
}


/// The block of an entry in an export holds its content: an image by the
/// first 80 chars of its content (all of it when shorter); any other entry
/// by the first 2000 chars of its content (all of it when shorter) and a
/// blank line, then a note that the content was cut exactly when the content
/// is longer than 2000 bytes.
pub proof fn law_entry_block_holds_content(e: ClipboardEntry)
    ensures
        ({
            let c = e.content@;
            if e.content_type@ == "image"@ {
                let n = if c.len() < 80 {
                    c.len() as int
                } else {
                    80
                };
                entry_block(e) == "> 图片: "@ + c.subrange(0, n) + "...\n\n"@
            } else {
                let n = if c.len() < 2000 {
                    c.len() as int
                } else {
                    2000
                };
                entry_block(e) == c.subrange(0, n) + "\n\n"@ + if utf8_len(c) > 2000 {
                    "> *内容已截断*\n\n"@
                } else {
                    Seq::<char>::empty()
                }
            }
        }),
{
    let c = e.content@;
    assert(c.subrange(0, c.len() as int) =~= c);
    if c.len() > 80 {
        assert(c.take(80) =~= c.subrange(0, 80));
    }
    if c.len() > 2000 {
        assert(c.take(2000) =~= c.subrange(0, 2000));
    }
}


/// An export lists the newest entries first.
pub proof fn law_export_newest_first(db: Seq<ClipboardEntry>, session: Seq<ClipboardEntry>, group_id: i64)
    ensures
        forall|i: int, j: int|
            0 <= i < j < export_entries(db, session, group_id).len() ==> (#[trigger] export_entries(
                db,
                session,
                group_id,
            )[i]).timestamp >= (#[trigger] export_entries(db, session, group_id)[j]).timestamp,
{
    let s = sorted_entries(db + group_entries(session, group_id), EntryOrder::Newest);
    law_sorted_entries_in_order(db + group_entries(session, group_id), EntryOrder::Newest);
    lemma_first_of_each_id_order(s);
}

proof fn lemma_first_of_each_id_order(s: Seq<ClipboardEntry>)
    requires
        forall|i: int, j: int| 0 <= i < j < s.len() ==> (#[trigger] s[i]).timestamp >= (#[trigger] s[j]).timestamp,
    ensures
        forall|i: int, j: int|
            0 <= i < j < first_of_each_id(s).len() ==> (#[trigger] first_of_each_id(s)[i]).timestamp
                >= (#[trigger] first_of_each_id(s)[j]).timestamp,
        forall|i: int|
            0 <= i < first_of_each_id(s).len() ==> exists|k: int|
                0 <= k < s.len() && #[trigger] first_of_each_id(s)[i] == s[k] && (s.len() > 0 ==> s.last().timestamp <= s[k].timestamp),
    decreases s.len(),
{
    if s.len() > 0 {
        let p = s.drop_last();
        assert forall|i: int, j: int| 0 <= i < j < p.len() implies (#[trigger] p[i]).timestamp >= (#[trigger] p[j]).timestamp by {
            assert(p[i] == s[i] && p[j] == s[j]);
        }
        lemma_first_of_each_id_order(p);
        let r = first_of_each_id(p);
        let f = first_of_each_id(s);
        assert forall|i: int| 0 <= i < f.len() implies exists|k: int|
            0 <= k < s.len() && #[trigger] f[i] == s[k] && (s.len() > 0 ==> s.last().timestamp <= s[k].timestamp) by {
            if i < r.len() {
                let k = choose|k: int| 0 <= k < p.len() && #[trigger] r[i] == p[k] && (p.len() > 0 ==> p.last().timestamp <= p[k].timestamp);
                assert(f[i] == r[i]);
                assert(s[k] == p[k]);
                if k < s.len() - 1 {
                    assert(s[k].timestamp >= s[s.len() - 1].timestamp);
                }
            } else {
                assert(f[i] == s.last());
                assert(s[s.len() - 1] == s.last());
            }
        }
        assert forall|i: int, j: int| 0 <= i < j < f.len() implies (#[trigger] f[i]).timestamp >= (#[trigger] f[j]).timestamp by {
            if j < r.len() {
                assert(f[i] == r[i] && f[j] == r[j]);
            } else {
                assert(f[j] == s.last());
                assert(f[i] == r[i]);
                let k = choose|k: int| 0 <= k < p.len() && #[trigger] r[i] == p[k] && (p.len() > 0 ==> p.last().timestamp <= p[k].timestamp);
                assert(s[k] == p[k]);
                assert(s[k].timestamp >= s[s.len() - 1].timestamp);
                assert(s[s.len() - 1] == s.last());
            }
        }
    }
}

} // verus!
