//! Regular expressions from the `regex` crate, carried together with the
//! source text they were compiled from.
use vstd::prelude::*;

verus! {

#[verifier::external_type_specification]
#[verifier::external_body]
pub struct ExRegex(::regex::Regex);

/// Whether `regex::Regex::new` accepts `pattern` (its syntax and size limits).
pub uninterp spec fn spec_regex_compiles(pattern: Seq<char>) -> bool;

/// Whether the regex compiled from `pattern` matches somewhere in `text`,
/// as `regex::Regex::is_match` answers.
pub uninterp spec fn spec_regex_is_match(pattern: Seq<char>, text: Seq<char>) -> bool;

/// A compiled regex and the pattern it was compiled from. Values are made
/// only by `compile`, so the view (the pattern) determines how it matches.
pub struct CompiledRegex {
    source: String,
    re: ::regex::Regex,
}

impl View for CompiledRegex {
    type V = Seq<char>;

    closed spec fn view(&self) -> Seq<char> {
        self.source@
    }
}

/// `regex::Regex::new`: succeeds exactly when `spec_regex_compiles(pattern)`;
/// the error value is dropped, as `.ok()` does.
#[verifier::external_body]
pub(crate) fn compile(pattern: &str) -> (r: Option<CompiledRegex>)
    ensures
        r is Some <==> spec_regex_compiles(pattern@),
        r matches Some(c) ==> c@ == pattern@,
{
    match ::regex::Regex::new(pattern) {
        Ok(re) => Some(CompiledRegex { source: pattern.to_string(), re }),
        Err(_) => None,
    }
}

/// `regex::Regex::is_match`: the result is `spec_regex_is_match` of the
/// pattern and the text.
#[verifier::external_body]
pub(crate) fn is_match(c: &CompiledRegex, text: &str) -> (b: bool)
    ensures
        b == spec_regex_is_match(c@, text@),
{
    c.re.is_match(text)
}

/// The characters that `regex::escape` prefixes with a backslash
/// (`regex_syntax::is_meta_character`).
pub open spec fn is_meta_character(c: char) -> bool {
    c == '\\' || c == '.' || c == '+' || c == '*' || c == '?' || c == '(' || c == ')' || c == '|'
        || c == '[' || c == ']' || c == '{' || c == '}' || c == '^' || c == '$' || c == '#'
        || c == '&' || c == '-' || c == '~'
}

/// `regex::escape` of the one-char text `c`.
pub open spec fn escaped(c: char) -> Seq<char> {
    if is_meta_character(c) {
        seq!['\\', c]
    } else {
        seq![c]
    }
}

/// `regex::escape` applied to the one-char string of `c`: a backslash is put
/// before `c` exactly when it is a meta character.
#[verifier::external_body]
pub(crate) fn escape_char(c: char) -> (r: String)
    ensures
        r@ == escaped(c),
{
    ::regex::escape(&c.to_string())
}

} // verus!
