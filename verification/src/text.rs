//! Text primitives shared by the classifier, the history views and the
//! exporters: character access, trimming, lower-casing, substring tests,
//! truncation and joining.
use vstd::prelude::*;

verus! {

broadcast use vstd::string::group_string_axioms;

// ───────────────────────────── std behind names ─────────────────────────────

/// Whether a char has the Unicode `White_Space` property (PropList.txt):
/// U+0009..U+000D, U+0020, U+0085, U+00A0, U+1680, U+2000..U+200A, U+2028,
/// U+2029, U+202F, U+205F and U+3000.
pub open spec fn spec_is_whitespace(c: char) -> bool {
    ('\u{9}' <= c && c <= '\u{d}') || c == ' ' || c == '\u{85}' || c == '\u{a0}' || c
        == '\u{1680}' || ('\u{2000}' <= c && c <= '\u{200a}') || c == '\u{2028}' || c
        == '\u{2029}' || c == '\u{202f}' || c == '\u{205f}' || c == '\u{3000}'
}

/// What `str::to_lowercase` returns for a text (full Unicode case mapping,
/// including the word-final sigma rule).
pub uninterp spec fn spec_lowercase(s: Seq<char>) -> Seq<char>;

/// An ASCII char in lower case (`A`..`Z` mapped to `a`..`z`).
pub open spec fn ascii_lower(c: char) -> char {
    if 'A' <= c && c <= 'Z' {
        ((c as u32) + 32) as char
    } else {
        c
    }
}

/// Every char of the text is ASCII.
pub open spec fn is_ascii_text(s: Seq<char>) -> bool {
    forall|i: int| 0 <= i < s.len() ==> (#[trigger] s[i] as u32) < 128
}

/// `char::is_whitespace`: the result is the `White_Space` property of `c`.
#[verifier::external_body]
pub(crate) fn char_is_whitespace(c: char) -> (b: bool)
    ensures
        b == spec_is_whitespace(c),
{
    c.is_whitespace()
}

/// `str::to_lowercase`: the result is `spec_lowercase` of the argument's
/// chars; ASCII text is mapped char by char, `A`..`Z` to `a`..`z`.
#[verifier::external_body]
pub(crate) fn str_to_lowercase(s: &str) -> (r: String)
    ensures
        r@ == spec_lowercase(s@),
        is_ascii_text(s@) ==> r@ == s@.map_values(|c: char| ascii_lower(c)),
{
    s.to_lowercase()
}

/// `String::push`: appends one char.
#[verifier::external_body]
pub(crate) fn push_char(s: &mut String, c: char)
    ensures
        final(s)@ == old(s)@.push(c),
{
    s.push(c)
}

// ───────────────────────────── char classes ─────────────────────────────

pub open spec fn is_ascii_digit(c: char) -> bool {
    '0' <= c && c <= '9'
}

pub open spec fn is_ascii_alphabetic(c: char) -> bool {
    ('a' <= c && c <= 'z') || ('A' <= c && c <= 'Z')
}

pub fn ascii_digit(c: char) -> (b: bool)
    ensures
        b == is_ascii_digit(c),
{
    '0' <= c && c <= '9'
}

pub fn ascii_alphabetic(c: char) -> (b: bool)
    ensures
        b == is_ascii_alphabetic(c),
{
    ('a' <= c && c <= 'z') || ('A' <= c && c <= 'Z')
}

// ───────────────────────────── conversions ─────────────────────────────

/// The chars of a text, in order.
pub fn chars_of(s: &str) -> (v: Vec<char>)
    ensures
        v@ == s@,
{
    let mut v: Vec<char> = Vec::new();
    for c in it: s.chars()
        invariant
            v@ == it.seq().take(it.index() as int),
    {
        v.push(c);
    }
    assert(v@ =~= s@);
    v
}

/// A `String` holding `v[lo..hi]`.
pub fn string_from_range(v: &Vec<char>, lo: usize, hi: usize) -> (s: String)
    requires
        lo <= hi <= v.len(),
    ensures
        s@ == v@.subrange(lo as int, hi as int),
{
    let mut s = String::new();
    let mut i = lo;
    while i < hi
        invariant
            lo <= i <= hi <= v.len(),
            s@ == v@.subrange(lo as int, i as int),
        decreases hi - i,
    {
        push_char(&mut s, v[i]);
        i = i + 1;
        assert(s@ =~= v@.subrange(lo as int, i as int));
    }
    s
}

/// A `String` holding all of `v`.
pub fn string_from_chars(v: &Vec<char>) -> (s: String)
    ensures
        s@ == v@,
{
    let s = string_from_range(v, 0, v.len());
    assert(v@.subrange(0, v@.len() as int) =~= v@);
    s
}

/// Appends `t` to `s`.
pub fn push_str(s: &mut String, t: &str)
    ensures
        final(s)@ == old(s)@ + t@,
{
    let v = chars_of(t);
    let ghost s0 = s@;
    let mut i: usize = 0;
    while i < v.len()
        invariant
            i <= v.len(),
            v@ == t@,
            s@ == s0 + v@.take(i as int),
        decreases v.len() - i,
    {
        push_char(s, v[i]);
        i = i + 1;
        assert(s@ =~= s0 + v@.take(i as int));
    }
    assert(v@.take(v.len() as int) =~= v@);
}

/// Whether two texts hold the same chars.
pub fn text_eq(a: &str, b: &str) -> (r: bool)
    ensures
        r == (a@ == b@),
{
    let va = chars_of(a);
    let vb = chars_of(b);
    if va.len() != vb.len() {
        return false;
    }
    let mut i: usize = 0;
    while i < va.len()
        invariant
            va.len() == vb.len(),
            i <= va.len(),
            va@ == a@,
            vb@ == b@,
            forall|k: int| 0 <= k < i ==> va@[k] == vb@[k],
        decreases va.len() - i,
    {
        if va[i] != vb[i] {
            return false;
        }
        i = i + 1;
    }
    assert(va@ =~= vb@);
    true
}

// ───────────────────────────── trimming ─────────────────────────────

/// `s` without its leading whitespace.
pub open spec fn spec_trim_start(s: Seq<char>) -> Seq<char>
    decreases s.len(),
{
    if s.len() > 0 && spec_is_whitespace(s[0]) {
        spec_trim_start(s.drop_first())
    } else {
        s
    }
}

/// `s` without its trailing whitespace.
pub open spec fn spec_trim_end(s: Seq<char>) -> Seq<char>
    decreases s.len(),
{
    if s.len() > 0 && spec_is_whitespace(s.last()) {
        spec_trim_end(s.drop_last())
    } else {
        s
    }
}

/// `s` without leading and trailing whitespace, as `str::trim` gives it.
pub open spec fn spec_trim(s: Seq<char>) -> Seq<char> {
    spec_trim_end(spec_trim_start(s))
}

proof fn lemma_trim_start_skip(s: Seq<char>, i: int)
    requires
        0 <= i <= s.len(),
        forall|k: int| 0 <= k < i ==> spec_is_whitespace(#[trigger] s[k]),
    ensures
        spec_trim_start(s) == spec_trim_start(s.skip(i)),
    decreases i,
{
    if i > 0 {
        assert(s.drop_first().skip(i - 1) =~= s.skip(i));
        assert forall|k: int| 0 <= k < i - 1 implies spec_is_whitespace(#[trigger] s.drop_first()[k]) by {
            assert(s.drop_first()[k] == s[k + 1]);
        }
        lemma_trim_start_skip(s.drop_first(), i - 1);
    } else {
        assert(s.skip(0) =~= s);
    }
}

proof fn lemma_trim_end_take(s: Seq<char>, j: int)
    requires
        0 <= j <= s.len(),
        forall|k: int| j <= k < s.len() ==> spec_is_whitespace(#[trigger] s[k]),
    ensures
        spec_trim_end(s) == spec_trim_end(s.take(j)),
    decreases s.len() - j,
{
    if j < s.len() {
        assert(s.drop_last().take(j) =~= s.take(j));
        assert forall|k: int| j <= k < s.len() - 1 implies spec_is_whitespace(#[trigger] s.drop_last()[k]) by {
            assert(s.drop_last()[k] == s[k]);
        }
        lemma_trim_end_take(s.drop_last(), j);
    } else {
        assert(s.take(j) =~= s);
    }
}

/// The text without leading and trailing whitespace.
pub fn trim(s: &str) -> (r: String)
    ensures
        r@ == spec_trim(s@),
{
    let v = chars_of(s);
    let n = v.len();
    let mut i: usize = 0;
    while i < n && char_is_whitespace(v[i])
        invariant
            i <= n == v.len(),
            v@ == s@,
            forall|k: int| 0 <= k < i ==> spec_is_whitespace(#[trigger] v@[k]),
        decreases n - i,
    {
        i = i + 1;
    }
    proof {
        lemma_trim_start_skip(v@, i as int);
        assert(i < n ==> !spec_is_whitespace(v@.skip(i as int)[0]));
    }
    let ghost t = v@.skip(i as int);
    assert(spec_trim_start(s@) == t);
    let mut j: usize = n;
    while j > i && char_is_whitespace(v[j - 1])
        invariant
            i <= j <= n == v.len(),
            v@ == s@,
            t == v@.skip(i as int),
            forall|k: int| j <= k < n ==> spec_is_whitespace(#[trigger] v@[k]),
        decreases j - i,
    {
        j = j - 1;
    }
    proof {
        assert forall|k: int| j - i <= k < t.len() implies spec_is_whitespace(#[trigger] t[k]) by {
            assert(t[k] == v@[k + i]);
        }
        lemma_trim_end_take(t, j - i);
        assert(t.take(j - i) =~= v@.subrange(i as int, j as int));
    }
    string_from_range(&v, i, j)
}

/// The text trimmed and lower-cased, as rule patterns and example texts are
/// compared.
pub open spec fn spec_trim_lower(s: Seq<char>) -> Seq<char> {
    spec_lowercase(spec_trim(s))
}

/// Trims a text and lower-cases it.
pub fn trim_lower(s: &str) -> (r: String)
    ensures
        r@ == spec_trim_lower(s@),
        is_ascii_text(s@) ==> r@ == spec_trim(s@).map_values(|c: char| ascii_lower(c)),
{
    let t = trim(s);
    proof {
        if is_ascii_text(s@) {
            let k = lemma_trim_shape(s@);
            assert forall|i: int| 0 <= i < t@.len() implies (#[trigger] t@[i] as u32) < 128 by {
                assert(t@[i] == s@[k + i]);
            }
        }
    }
    str_to_lowercase(t.as_str())
}

/// `s` with every run of whitespace replaced by one space.
pub open spec fn spec_collapse_whitespace(s: Seq<char>) -> Seq<char>
    decreases s.len(),
{
    if s.len() == 0 {
        s
    } else {
        let r = spec_collapse_whitespace(s.drop_last());
        if !spec_is_whitespace(s.last()) {
            r.push(s.last())
        } else if s.len() > 1 && spec_is_whitespace(s[s.len() - 2]) {
            r
        } else {
            r.push(' ')
        }
    }
}

/// The form in which texts are compared: trimmed, lower-cased, and every
/// inner run of whitespace made one space.
pub open spec fn spec_normalize(s: Seq<char>) -> Seq<char> {
    spec_collapse_whitespace(spec_trim_lower(s))
}

/// Replaces every run of whitespace by one space.
pub fn collapse_whitespace(s: &str) -> (r: String)
    ensures
        r@ == spec_collapse_whitespace(s@),
{
    let v = chars_of(s);
    let mut r = String::new();
    let mut i: usize = 0;
    assert(v@.take(0) =~= Seq::<char>::empty());
    while i < v.len()
        invariant
            i <= v.len(),
            v@ == s@,
            r@ == spec_collapse_whitespace(v@.take(i as int)),
        decreases v.len() - i,
    {
        let c = v[i];
        proof {
            let t = v@.take(i + 1);
            assert(t.drop_last() =~= v@.take(i as int));
            assert(t.last() == c);
            if i > 0 {
                assert(t[t.len() - 2] == v@[i - 1]);
            }
        }
        if !char_is_whitespace(c) {
            push_char(&mut r, c);
        } else if !(i > 0 && char_is_whitespace(v[i - 1])) {
            push_char(&mut r, ' ');
        }
        i = i + 1;
    }
    assert(v@.take(v.len() as int) =~= v@);
    r
}

/// Normalizes text for matching: lower-cased, trimmed, whitespace runs made
/// one space.
pub fn normalize_text(text: &str) -> (r: String)
    ensures
        r@ == spec_normalize(text@),
        is_ascii_text(text@) ==> r@ == ascii_normalize(text@),
{
    let l = trim_lower(text);
    collapse_whitespace(l.as_str())
}

// ───────────────────────────── shape of normalized text ─────────────────────────────

/// The text has no whitespace at either end.
pub open spec fn no_edge_whitespace(s: Seq<char>) -> bool {
    s.len() == 0 || (!spec_is_whitespace(s[0]) && !spec_is_whitespace(s.last()))
}

/// Every whitespace char of the text is a space, and no two are adjacent.
pub open spec fn single_spaces(s: Seq<char>) -> bool {
    &&& forall|i: int| 0 <= i < s.len() && spec_is_whitespace(#[trigger] s[i]) ==> s[i] == ' '
    &&& forall|i: int|
        #![trigger s[i]]
        0 <= i < s.len() - 1 ==> !(spec_is_whitespace(s[i]) && spec_is_whitespace(s[i + 1]))
}

/// Every char of the text is ASCII and not an upper-case letter.
pub open spec fn lower_ascii(s: Seq<char>) -> bool {
    forall|i: int| 0 <= i < s.len() ==> (#[trigger] s[i] as u32) < 128 && ascii_lower(s[i]) == s[i]
}

/// Normalization of ASCII text, written out: trimmed, `A`..`Z` lower-cased,
/// whitespace runs made one space.
pub open spec fn ascii_normalize(s: Seq<char>) -> Seq<char> {
    spec_collapse_whitespace(spec_trim(s).map_values(|c: char| ascii_lower(c)))
}

proof fn lemma_trim_start_shape(s: Seq<char>) -> (k: int)
    ensures
        0 <= k <= s.len(),
        spec_trim_start(s) == s.skip(k),
        k < s.len() ==> !spec_is_whitespace(s[k]),
    decreases s.len(),
{
    if s.len() > 0 && spec_is_whitespace(s[0]) {
        let k1 = lemma_trim_start_shape(s.drop_first());
        assert(s.drop_first().skip(k1) =~= s.skip(k1 + 1));
        if k1 < s.len() - 1 {
            assert(s.drop_first()[k1] == s[k1 + 1]);
        }
        k1 + 1
    } else {
        assert(s.skip(0) =~= s);
        0
    }
}

proof fn lemma_trim_end_shape(s: Seq<char>) -> (j: int)
    ensures
        0 <= j <= s.len(),
        spec_trim_end(s) == s.take(j),
        j > 0 ==> !spec_is_whitespace(s[j - 1]),
    decreases s.len(),
{
    if s.len() > 0 && spec_is_whitespace(s.last()) {
        let j1 = lemma_trim_end_shape(s.drop_last());
        assert(s.drop_last().take(j1) =~= s.take(j1));
        if j1 > 0 {
            assert(s.drop_last()[j1 - 1] == s[j1 - 1]);
        }
        j1
    } else {
        assert(s.take(s.len() as int) =~= s);
        s.len() as int
    }
}

/// A trimmed text is a stretch of the text with no whitespace at its ends.
proof fn lemma_trim_shape(s: Seq<char>) -> (k: int)
    ensures
        0 <= k <= k + spec_trim(s).len() <= s.len(),
        spec_trim(s) == s.subrange(k, k + spec_trim(s).len()),
        no_edge_whitespace(spec_trim(s)),
{
    let k = lemma_trim_start_shape(s);
    let u = s.skip(k);
    let j = lemma_trim_end_shape(u);
    assert(u.take(j) =~= s.subrange(k, k + j));
    if j > 0 {
        assert(u[0] == s[k]);
    }
    k
}

proof fn lemma_trim_fixed(t: Seq<char>)
    requires
        no_edge_whitespace(t),
    ensures
        spec_trim(t) == t,
{
}

proof fn lemma_ascii_lower(c: char)
    ensures
        spec_is_whitespace(ascii_lower(c)) == spec_is_whitespace(c),
        (c as u32) < 128 ==> (ascii_lower(c) as u32) < 128,
        ascii_lower(ascii_lower(c)) == ascii_lower(c),
{
    if 'A' <= c && c <= 'Z' {
        let v = (c as u32) + 32;
        assert(97 <= v <= 122);
        assert((v as char) as u32 == v);
    }
}

proof fn lemma_collapse_shape(s: Seq<char>)
    ensures
        single_spaces(spec_collapse_whitespace(s)),
        s.len() > 0 ==> spec_collapse_whitespace(s).len() > 0,
        s.len() > 0 && !spec_is_whitespace(s[0]) ==> spec_collapse_whitespace(s)[0] == s[0],
        s.len() > 0 && !spec_is_whitespace(s.last()) ==> spec_collapse_whitespace(s).last() == s.last(),
        s.len() > 0 && spec_is_whitespace(s.last()) ==> spec_collapse_whitespace(s).last() == ' ',
        lower_ascii(s) ==> lower_ascii(spec_collapse_whitespace(s)),
    decreases s.len(),
{
    if s.len() > 0 {
        let d = s.drop_last();
        lemma_collapse_shape(d);
        let r = spec_collapse_whitespace(d);
        let c = spec_collapse_whitespace(s);
        if d.len() > 0 {
            assert(d[0] == s[0]);
            assert(d.last() == s[s.len() - 2]);
        }
        if !spec_is_whitespace(s.last()) {
            assert(c == r.push(s.last()));
            assert forall|i: int| 0 <= i < c.len() - 1 implies !(spec_is_whitespace(#[trigger] c[i])
                && spec_is_whitespace(c[i + 1])) by {
                if i < c.len() - 2 {
                    assert(c[i] == r[i] && c[i + 1] == r[i + 1]);
                }
            }
            if lower_ascii(s) {
                assert(s[s.len() - 1] == s.last());
                assert forall|i: int| 0 <= i < d.len() implies (#[trigger] d[i] as u32) < 128 && ascii_lower(d[i]) == d[i] by {
                    assert(d[i] == s[i]);
                }
            }
        } else if s.len() > 1 && spec_is_whitespace(s[s.len() - 2]) {
            if lower_ascii(s) {
                assert forall|i: int| 0 <= i < d.len() implies (#[trigger] d[i] as u32) < 128 && ascii_lower(d[i]) == d[i] by {
                    assert(d[i] == s[i]);
                }
            }
        } else {
            assert(c == r.push(' '));
            assert forall|i: int| 0 <= i < c.len() - 1 implies !(spec_is_whitespace(#[trigger] c[i])
                && spec_is_whitespace(c[i + 1])) by {
                if i < c.len() - 2 {
                    assert(c[i] == r[i] && c[i + 1] == r[i + 1]);
                }
            }
            if lower_ascii(s) {
                assert forall|i: int| 0 <= i < d.len() implies (#[trigger] d[i] as u32) < 128 && ascii_lower(d[i]) == d[i] by {
                    assert(d[i] == s[i]);
                }
                assert(ascii_lower(' ') == ' ');
            }
        }
    }
}

proof fn lemma_collapse_fixed(y: Seq<char>)
    requires
        single_spaces(y),
    ensures
        spec_collapse_whitespace(y) == y,
    decreases y.len(),
{
    if y.len() > 0 {
        let d = y.drop_last();
        assert forall|i: int| 0 <= i < d.len() - 1 implies !(spec_is_whitespace(#[trigger] d[i])
            && spec_is_whitespace(d[i + 1])) by {
            assert(d[i] == y[i] && d[i + 1] == y[i + 1]);
        }
        assert forall|i: int| 0 <= i < d.len() && spec_is_whitespace(#[trigger] d[i]) implies d[i] == ' ' by {
            assert(d[i] == y[i]);
        }
        lemma_collapse_fixed(d);
        if spec_is_whitespace(y.last()) {
            assert(y[y.len() - 1] == y.last());
            if y.len() > 1 {
                assert(!(spec_is_whitespace(y[y.len() - 2]) && spec_is_whitespace(y[y.len() - 1])));
            }
        }
        assert(d.push(y.last()) =~= y);
    }
}

/// Normalized ASCII text has no whitespace at its ends, holds only single
/// spaces as whitespace, and holds no upper-case letter.
pub proof fn law_normalized_ascii_shape(s: Seq<char>)
    requires
        is_ascii_text(s),
    ensures
        no_edge_whitespace(ascii_normalize(s)),
        single_spaces(ascii_normalize(s)),
        lower_ascii(ascii_normalize(s)),
{
    let k = lemma_trim_shape(s);
    let t = spec_trim(s);
    let m = t.map_values(|c: char| ascii_lower(c));
    assert forall|i: int| 0 <= i < m.len() implies (#[trigger] m[i] as u32) < 128 && ascii_lower(m[i]) == m[i] by {
        assert(t[i] == s[k + i]);
        lemma_ascii_lower(t[i]);
    }
    lemma_collapse_shape(m);
    if m.len() > 0 {
        lemma_ascii_lower(t[0]);
        lemma_ascii_lower(t.last());
        assert(m[0] == ascii_lower(t[0]));
        assert(m.last() == ascii_lower(t.last()));
    }
}

/// Normalizing ASCII text twice gives what normalizing it once gives.
pub proof fn law_normalize_ascii_idempotent(s: Seq<char>)
    requires
        is_ascii_text(s),
    ensures
        ascii_normalize(ascii_normalize(s)) == ascii_normalize(s),
{
    let n = ascii_normalize(s);
    law_normalized_ascii_shape(s);
    lemma_trim_fixed(n);
    assert(n.map_values(|c: char| ascii_lower(c)) =~= n);
    lemma_collapse_fixed(n);
}

// ───────────────────────────── substrings ─────────────────────────────

/// `needle` occurs in `hay` starting at index `i`.
pub open spec fn occurs_at(hay: Seq<char>, needle: Seq<char>, i: int) -> bool {
    0 <= i && i + needle.len() <= hay.len() && hay.subrange(i, i + needle.len()) == needle
}

/// `needle` occurs somewhere in `hay`, as `str::contains` with a `&str` pattern tests.
pub open spec fn seq_contains(hay: Seq<char>, needle: Seq<char>) -> bool {
    exists|i: int| occurs_at(hay, needle, i)
}

/// `hay` begins with `needle`.
pub open spec fn seq_starts_with(hay: Seq<char>, needle: Seq<char>) -> bool {
    needle.len() <= hay.len() && hay.take(needle.len() as int) == needle
}

/// `hay` ends with `needle`.
pub open spec fn seq_ends_with(hay: Seq<char>, needle: Seq<char>) -> bool {
    needle.len() <= hay.len() && hay.skip(hay.len() - needle.len()) == needle
}

pub(crate) fn matches_at(hay: &Vec<char>, needle: &Vec<char>, i: usize) -> (b: bool)
    requires
        i + needle.len() <= hay.len(),
    ensures
        b == occurs_at(hay@, needle@, i as int),
{
    let mut k: usize = 0;
    while k < needle.len()
        invariant
            i + needle.len() <= hay.len(),
            k <= needle.len(),
            forall|m: int| 0 <= m < k ==> hay@[i + m] == needle@[m],
        decreases needle.len() - k,
    {
        if hay[i + k] != needle[k] {
            assert(hay@.subrange(i as int, i + needle.len())[k as int] != needle@[k as int]);
            return false;
        }
        k = k + 1;
    }
    assert(hay@.subrange(i as int, i + needle.len()) =~= needle@);
    true
}

/// Whether `needle` occurs in `hay`.
pub fn chars_contain(hay: &Vec<char>, needle: &Vec<char>) -> (b: bool)
    ensures
        b == seq_contains(hay@, needle@),
{
    if needle.len() > hay.len() {
        return false;
    }
    let last = hay.len() - needle.len();
    let mut i: usize = 0;
    while i < last
        invariant
            i <= last,
            last + needle.len() == hay.len(),
            forall|k: int| 0 <= k < i ==> !occurs_at(hay@, needle@, k),
        decreases last - i,
    {
        if matches_at(hay, needle, i) {
            return true;
        }
        i = i + 1;
    }
    if matches_at(hay, needle, last) {
        return true;
    }
    assert forall|k: int| !occurs_at(hay@, needle@, k) by {
        if 0 <= k < last as int {
        } else if k == last as int {
        }
    }
    false
}

/// Whether `needle` occurs in the text `hay`.
pub fn text_contains(hay: &str, needle: &str) -> (b: bool)
    ensures
        b == seq_contains(hay@, needle@),
{
    let h = chars_of(hay);
    let n = chars_of(needle);
    chars_contain(&h, &n)
}

/// Whether the text `hay` begins with `needle`.
pub fn text_starts_with(hay: &str, needle: &str) -> (b: bool)
    ensures
        b == seq_starts_with(hay@, needle@),
{
    let h = chars_of(hay);
    let n = chars_of(needle);
    if n.len() > h.len() {
        return false;
    }
    let r = matches_at(&h, &n, 0);
    assert(h@.subrange(0, n@.len() as int) =~= h@.take(n@.len() as int));
    r
}

/// Whether the text `hay` ends with `needle`.
pub fn text_ends_with(hay: &str, needle: &str) -> (b: bool)
    ensures
        b == seq_ends_with(hay@, needle@),
{
    let h = chars_of(hay);
    let n = chars_of(needle);
    if n.len() > h.len() {
        return false;
    }
    let r = matches_at(&h, &n, h.len() - n.len());
    assert(h@.subrange(h@.len() - n@.len(), h@.len() as int) =~= h@.skip(h@.len() - n@.len()));
    r
}

/// The first `n` chars of a text (all of it when it is shorter).
pub open spec fn spec_take_chars(s: Seq<char>, n: int) -> Seq<char> {
    if s.len() <= n {
        s
    } else {
        s.take(n)
    }
}

/// The first `n` chars of a text, as `s.chars().take(n).collect()` gives them.
pub fn take_chars(s: &str, n: usize) -> (r: String)
    ensures
        r@ == spec_take_chars(s@, n as int),
{
    let v = chars_of(s);
    if v.len() <= n {
        string_from_chars(&v)
    } else {
        let r = string_from_range(&v, 0, n);
        assert(v@.subrange(0, n as int) =~= v@.take(n as int));
        r
    }
}

// ───────────────────────────── joining ─────────────────────────────

/// The parts joined with `sep` between neighbours, as `[String]::join` gives them.
pub open spec fn seq_join(parts: Seq<Seq<char>>, sep: Seq<char>) -> Seq<char>
    decreases parts.len(),
{
    if parts.len() == 0 {
        Seq::empty()
    } else if parts.len() == 1 {
        parts[0]
    } else {
        seq_join(parts.drop_last(), sep) + sep + parts.last()
    }
}

/// The views of a list of strings.
pub open spec fn views(v: Seq<String>) -> Seq<Seq<char>> {
    v.map_values(|s: String| s@)
}

/// Joins the parts with `sep`.
pub fn join(parts: &Vec<String>, sep: &str) -> (r: String)
    ensures
        r@ == seq_join(views(parts@), sep@),
{
    let mut r = String::new();
    let mut i: usize = 0;
    while i < parts.len()
        invariant
            i <= parts.len(),
            r@ == seq_join(views(parts@).take(i as int), sep@),
        decreases parts.len() - i,
    {
        let ghost before = views(parts@).take(i as int);
        if i > 0 {
            push_str(&mut r, sep);
        }
        push_str(&mut r, parts[i].as_str());
        i = i + 1;
        proof {
            let now = views(parts@).take(i as int);
            assert(now.drop_last() =~= before);
            if i == 1 {
                assert(before =~= Seq::<Seq<char>>::empty());
                assert(r@ =~= now[0]);
            }
        }
    }
    assert(views(parts@).take(parts.len() as int) =~= views(parts@));
    r
}

// ───────────────────────────── numbers ─────────────────────────────

pub open spec fn digit_char(d: int) -> char {
    if d == 0 { '0' }
    else if d == 1 { '1' }
    else if d == 2 { '2' }
    else if d == 3 { '3' }
    else if d == 4 { '4' }
    else if d == 5 { '5' }
    else if d == 6 { '6' }
    else if d == 7 { '7' }
    else if d == 8 { '8' }
    else { '9' }
}

/// The decimal digits of `n`, most significant first, without leading zeros.
pub open spec fn decimal_digits(n: nat) -> Seq<char>
    decreases n,
{
    if n < 10 {
        seq![digit_char(n as int)]
    } else {
        decimal_digits(n / 10).push(digit_char((n % 10) as int))
    }
}

fn digit(d: u128) -> (c: char)
    requires
        d < 10,
    ensures
        c == digit_char(d as int),
{
    if d == 0 { '0' }
    else if d == 1 { '1' }
    else if d == 2 { '2' }
    else if d == 3 { '3' }
    else if d == 4 { '4' }
    else if d == 5 { '5' }
    else if d == 6 { '6' }
    else if d == 7 { '7' }
    else if d == 8 { '8' }
    else { '9' }
}

/// Appends the decimal digits of `n`.
pub fn push_decimal(s: &mut String, n: u128)
    ensures
        final(s)@ == old(s)@ + decimal_digits(n as nat),
    decreases n,
{
    if n >= 10 {
        push_decimal(s, n / 10);
    }
    push_char(s, digit(n % 10));
    assert(final(s)@ =~= old(s)@ + decimal_digits(n as nat));
}

/// The decimal form of an integer, with a leading `-` when it is negative.
pub open spec fn int_text(v: int) -> Seq<char> {
    if v < 0 {
        seq!['-'] + decimal_digits((-v) as nat)
    } else {
        decimal_digits(v as nat)
    }
}

/// The decimal form of `v / 1000` with no trailing zeros after the point
/// (and no point at all for whole numbers): how a score held in thousandths
/// is written.
pub open spec fn milli_text(v: int) -> Seq<char> {
    let a: nat = if v < 0 { (-v) as nat } else { v as nat };
    let whole = a / 1000;
    let frac = a % 1000;
    let sign = if v < 0 { seq!['-'] } else { Seq::<char>::empty() };
    let tail = if frac == 0 {
        Seq::<char>::empty()
    } else if frac % 100 == 0 {
        seq!['.', digit_char((frac / 100) as int)]
    } else if frac % 10 == 0 {
        seq!['.', digit_char((frac / 100) as int), digit_char((frac / 10 % 10) as int)]
    } else {
        seq![
            '.',
            digit_char((frac / 100) as int),
            digit_char((frac / 10 % 10) as int),
            digit_char((frac % 10) as int),
        ]
    };
    sign + decimal_digits(whole) + tail
}

/// Writes a value held in thousandths as a decimal number.
pub fn format_milli(v: i128) -> (r: String)
    ensures
        r@ == milli_text(v as int),
{
    let mut r = String::new();
    let a: u128 = if v < 0 {
        (0 - (v as i128 + 1)) as u128 + 1
    } else {
        v as u128
    };
    assert(a == (if v < 0 { -v } else { v as int }));
    if v < 0 {
        push_char(&mut r, '-');
    }
    let ghost r1 = r@;
    push_decimal(&mut r, a / 1000);
    let frac = a % 1000;
    let ghost r2 = r@;
    if frac != 0 {
        push_char(&mut r, '.');
        push_char(&mut r, digit(frac / 100));
        if frac % 100 != 0 {
            push_char(&mut r, digit(frac / 10 % 10));
            if frac % 10 != 0 {
                push_char(&mut r, digit(frac % 10));
            }
        }
    }
    assert(r@ =~= milli_text(v as int));
    r
}

/// Writes an integer in decimal.
pub fn format_int(v: i64) -> (r: String)
    ensures
        r@ == int_text(v as int),
{
    let mut r = String::new();
    if v < 0 {
        push_char(&mut r, '-');
        let a: u128 = (0 - (v as i128)) as u128;
        push_decimal(&mut r, a);
    } else {
        push_decimal(&mut r, v as u128);
    }
    assert(r@ =~= int_text(v as int));
    r
}

} // verus!

verus! {

// ───────────────────────────── byte lengths ─────────────────────────────

/// The number of bytes of the UTF-8 encoding of `s`, which `str::len` reports.
pub open spec fn utf8_len(s: Seq<char>) -> nat {
    vstd::utf8::encode_utf8(s).len()
}

fn utf8_width(c: char) -> (w: u128)
    ensures
        w == vstd::utf8::encode_scalar(c as u32).len(),
{
    let v = c as u32;
    if v <= 0x7F {
        1
    } else if v <= 0x7FF {
        2
    } else if v <= 0xFFFF && !(0xD800 <= v && v <= 0xDFFF) {
        3
    } else {
        4
    }
}

/// The byte length of a text, counted without overflow.
pub fn text_utf8_len(s: &str) -> (n: u128)
    ensures
        n == utf8_len(s@),
{
    let v = chars_of(s);
    let mut i: usize = v.len();
    let mut n: u128 = 0;
    assert(v@.skip(v.len() as int) =~= Seq::<char>::empty());
    while i > 0
        invariant
            i <= v.len(),
            v@ == s@,
            n == utf8_len(v@.skip(i as int)),
            n <= 4 * (v.len() - i),
        decreases i,
    {
        i = i - 1;
        let w = utf8_width(v[i]);
        proof {
            let t = v@.skip(i as int);
            assert(t.drop_first() =~= v@.skip(i + 1));
            assert(t[0] == v@[i as int]);
        }
        n = n + w;
    }
    assert(v@.skip(0) =~= v@);
    n
}

} // verus!
