//! Naming conventions of the generated declarations.

use vstd::prelude::*;
use vstd::string::*;

verus! {

/// The ASCII upper-case equivalent of `c`: `'a'..='z'` map to `'A'..='Z'`,
/// every other character is unchanged.
pub open spec fn ascii_upper(c: char) -> char {
    if 'a' <= c && c <= 'z' {
        ((c as u8 - 32) as u8) as char
    } else {
        c
    }
}

/// `s` with its first character in ASCII upper case and the rest unchanged.
pub open spec fn capitalized(s: Seq<char>) -> Seq<char> {
    if s.len() == 0 {
        s
    } else {
        seq![ascii_upper(s[0])] + s.subrange(1, s.len() as int)
    }
}

/// Name of the marker type that wraps a supplied value, given the
/// capitalized field name.
pub open spec fn marker_of(cap: Seq<char>) -> Seq<char> {
    cap + "Field"@
}

/// Name of the setter of a field.
pub open spec fn setter_of(field: Seq<char>) -> Seq<char> {
    "set_"@ + field
}

/// Name of the builder type of a record.
pub open spec fn builder_of(record: Seq<char>) -> Seq<char> {
    record + "Builder"@
}

/// Wraps `char::to_ascii_uppercase`. Trusted: the result is the ASCII
/// upper-case equivalent of `c`, as the standard library documents it.
#[verifier::external_body]
fn upper_char(c: char) -> (r: char)
    ensures
        r == ascii_upper(c),
{
    c.to_ascii_uppercase()
}

/// Wraps `String::push`. Trusted: the character is appended at the end and
/// nothing else changes.
#[verifier::external_body]
fn push_char(s: &mut String, c: char)
    ensures
        final(s)@ == old(s)@.push(c),
{
    s.push(c);
}

/// Upper-cases the first character of `name`; the empty name stays empty.
pub fn capitalize(name: &str) -> (r: String)
    ensures
        r@ == capitalized(name@),
{
    let n = name.unicode_len();
    let mut out = String::new();
    if n > 0 {
        let first = name.get_char(0);
        push_char(&mut out, upper_char(first));
        out.append(name.substring_char(1, n));
        assert(out@ =~= capitalized(name@));
    }
    out
}

/// The marker type's name: the capitalized field name followed by `Field`.
pub fn marker_name(cap: &str) -> (r: String)
    ensures
        r@ == marker_of(cap@),
{
    String::from_str(cap).concat("Field")
}

/// The setter's name: `set_` followed by the field name.
pub fn setter_name(field: &str) -> (r: String)
    ensures
        r@ == setter_of(field@),
{
    String::from_str("set_").concat(field)
}

/// The builder type's name: the record's name followed by `Builder`.
pub fn builder_name(record: &str) -> (r: String)
    ensures
        r@ == builder_of(record@),
{
    String::from_str(record).concat("Builder")
}

} // verus!
