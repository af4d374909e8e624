//! Time-ordered identifiers.

use vstd::prelude::*;

verus! {

/// Whether `c` is a hexadecimal digit in lower case.
pub open spec fn is_lower_hex(c: char) -> bool {
    '0' <= c <= '9' || 'a' <= c <= 'f'
}

/// Whether `s` is a UUID of version seven: groups of lower case hexadecimal
/// digits with hyphens between them, where the version and the variant stand
/// at the start of the third and the fourth group.
pub open spec fn is_uuid_v7(s: Seq<char>) -> bool {
    &&& s.len() == 36
    &&& forall|i: int|
        0 <= i < 36 ==> if i == 8 || i == 13 || i == 18 || i == 23 {
            #[trigger] s[i] == '-'
        } else {
            is_lower_hex(s[i])
        }
    &&& s[14] == '7'
    &&& s[19] == '8' || s[19] == '9' || s[19] == 'a' || s[19] == 'b'
}

/// Trusted: `uuid::Uuid::now_v7`, written as text, is a UUID of version seven.
/// Which one depends on the clock and on chance.
#[verifier::external_body]
pub(crate) fn fresh_id() -> (r: String)
    ensures
        is_uuid_v7(r@),
{
    uuid::Uuid::now_v7().to_string()
}

/// An id of version seven has 36 characters, a hyphen behind each of its first
/// four groups, and lower case hexadecimal digits else, with its version and
/// its variant in their places.
pub proof fn law_uuid_has_its_groups(s: Seq<char>, i: int)
    requires
        is_uuid_v7(s),
        0 <= i < 36,
    ensures
        s.len() == 36,
        s[i] == '-' <==> i == 8 || i == 13 || i == 18 || i == 23,
        s[i] != '-' ==> '0' <= s[i] <= '9' || 'a' <= s[i] <= 'f',
        s[14] == '7',
        s[19] == '8' || s[19] == '9' || s[19] == 'a' || s[19] == 'b',
{
}

} // verus!
