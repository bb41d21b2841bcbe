use uuid::Uuid;
use vstd::prelude::*;

verus! {

/// A lower-case hexadecimal digit.
pub open spec fn is_hex_digit(c: char) -> bool {
    '0' <= c <= '9' || 'a' <= c <= 'f'
}

/// The text of a random UUID without hyphens: 32 hexadecimal digits, with version 4 and the
/// standard variant marked.
pub open spec fn is_random_suffix(s: Seq<char>) -> bool {
    &&& s.len() == 32
    &&& forall|i: int| 0 <= i < 32 ==> is_hex_digit(#[trigger] s[i])
    &&& s[12] == '4'
    &&& s[16] == '8' || s[16] == '9' || s[16] == 'a' || s[16] == 'b'
}

/// `uuid::Uuid::new_v4`, formatted by `Uuid::simple`: the digits are drawn at random, except for
/// the version and the variant.
#[verifier::external_body]
pub(crate) fn random_suffix() -> (r: String)
    ensures
        is_random_suffix(r@),
{
    Uuid::new_v4().simple().to_string()
}

/// An identifier made of a prefix and a random suffix.
pub open spec fn is_fresh_id(id: Seq<char>, prefix: Seq<char>) -> bool {
    exists|suffix: Seq<char>| is_random_suffix(suffix) && id == #[trigger] (prefix + suffix)
}

/// The identifier made of the prefix and the suffix.
pub(crate) fn prefixed(prefix: &str, suffix: &str) -> (r: String)
    ensures
        r@ == prefix@ + suffix@,
{
    prefix.to_owned().concat(suffix)
}

/// A new identifier with the prefix.
pub fn fresh_id(prefix: &str) -> (r: String)
    ensures
        is_fresh_id(r@, prefix@),
{
    let suffix = random_suffix();
    prefixed(prefix, suffix.as_str())
}

} // verus!
