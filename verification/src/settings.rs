//! Settings values: the legacy `plain:` marker that older builds prepended to
//! stored values, and the (identity) encryption hooks around storage.
use vstd::prelude::*;

use crate::text::{chars_of, matches_at};

verus! {

/// The marker that older builds prepended to stored setting values.
pub open spec fn plain_prefix() -> Seq<char> {
    seq!['p', 'l', 'a', 'i', 'n', ':']
}

/// `value` begins with the marker.
pub open spec fn has_plain_prefix(value: Seq<char>) -> bool {
    value.len() >= 6 && value.take(6) == plain_prefix()
}

/// `value` with every leading copy of the `plain:` marker removed.
pub open spec fn spec_strip_plain_prefixes(value: Seq<char>) -> Seq<char>
    decreases value.len(),
{
    if has_plain_prefix(value) {
        spec_strip_plain_prefixes(value.skip(6))
    } else {
        value
    }
}

/// Removes every leading `plain:` marker from a stored value.
pub fn strip_plain_prefixes<'a>(value: &'a str) -> (r: &'a str)
    ensures
        r@ == spec_strip_plain_prefixes(value@),
{
    let v = chars_of(value);
    let prefix: Vec<char> = vec!['p', 'l', 'a', 'i', 'n', ':'];
    assert(prefix@ =~= plain_prefix());
    let mut i: usize = 0;
    assert(v@.skip(0) =~= v@);
    while v.len() >= 6 && i <= v.len() - 6 && matches_at(&v, &prefix, i)
        invariant
            i <= v.len(),
            v@ == value@,
            prefix@ == plain_prefix(),
            spec_strip_plain_prefixes(value@) == spec_strip_plain_prefixes(v@.skip(i as int)),
        decreases v.len() - i,
    {
        proof {
            let t = v@.skip(i as int);
            assert(t.take(6) =~= v@.subrange(i as int, i + 6));
            assert(t.skip(6) =~= v@.skip(i + 6));
        }
        i = i + 6;
    }
    proof {
        let t = v@.skip(i as int);
        if has_plain_prefix(t) {
            assert(t.take(6) =~= v@.subrange(i as int, i + 6));
        }
    }
    value.substring_char(i, v.len())
}

/// The form in which a value is stored (values are stored as given).
pub fn maybe_encrypt(key: &str, value: &str) -> (r: String)
    ensures
        r@ == value@,
{
    let _ = key;
    value.to_owned()
}

/// The value read back from storage: legacy `plain:` markers are removed.
pub fn maybe_decrypt(key: &str, value: &str) -> (r: String)
    ensures
        r@ == spec_strip_plain_prefixes(value@),
{
    let _ = key;
    strip_plain_prefixes(value).to_owned()
}

/// A stripped value never begins with the marker.
pub proof fn law_stripped_has_no_prefix(value: Seq<char>)
    ensures
        !has_plain_prefix(spec_strip_plain_prefixes(value)),
    decreases value.len(),
{
    if has_plain_prefix(value) {
        law_stripped_has_no_prefix(value.skip(6));
    }
}

/// Stripping twice is stripping once.
pub proof fn law_strip_idempotent(value: Seq<char>)
    ensures
        spec_strip_plain_prefixes(spec_strip_plain_prefixes(value)) == spec_strip_plain_prefixes(
            value,
        ),
{
    law_stripped_has_no_prefix(value);
}

/// A value written with the legacy marker reads back as the value without it.
pub proof fn law_marker_is_ignored(value: Seq<char>)
    ensures
        spec_strip_plain_prefixes(plain_prefix() + value) == spec_strip_plain_prefixes(value),
{
    let s = plain_prefix() + value;
    assert(s.take(6) =~= plain_prefix());
    assert(s.skip(6) =~= value);
}

/// Reading back what was stored gives the stored value, unless it begins
/// with the legacy marker.
pub proof fn law_store_then_read(value: Seq<char>)
    requires
        !has_plain_prefix(value),
    ensures
        spec_strip_plain_prefixes(value) == value,
{
}

} // verus!
