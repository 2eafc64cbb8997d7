//! Fresh identifiers.
use vstd::prelude::*;

use uuid::Uuid;

verus! {

pub open spec fn hex_digit(c: char) -> bool {
    ('0' <= c && c <= '9') || ('a' <= c && c <= 'f')
}

/// Five groups of lower-case hexadecimal digits, joined by hyphens. The third group begins with the
/// version, four, and the fourth with a digit whose upper bits are the variant.
pub open spec fn looks_like_id(value: Seq<char>) -> bool {
    &&& value.len() == 36
    &&& forall|i: int|
        0 <= i < 36 ==> if i == 8 || i == 13 || i == 18 || i == 23 {
            #[trigger] value[i] == '-'
        } else {
            hex_digit(value[i])
        }
    &&& value[14] == '4'
    &&& value[19] == '8' || value[19] == '9' || value[19] == 'a' || value[19] == 'b'
}

/// Trusted: `uuid::Uuid::new_v4` makes a random identifier of version four in the variant of
/// RFC 4122, and its `to_string` writes it in the hyphenated form, in lower case. Which one is
/// chance.
#[verifier::external_body]
fn random_id() -> (result: String)
    ensures
        looks_like_id(result@),
{
    Uuid::new_v4().to_string()
}

/// A new identifier.
pub fn new_id() -> (result: String)
    ensures
        looks_like_id(result@),
{
    random_id()
}

} // verus!
