//! The authorization header of a request.

use axum::http::{HeaderMap, HeaderValue};
use vstd::prelude::*;

verus! {

/// Outside type: the headers of a request.
#[verifier::external_type_specification]
#[verifier::external_body]
#[verifier::reject_recursive_types(T)]
pub struct ExHeaderMap<T>(axum::http::HeaderMap<T>);

/// Outside type: the value of one header.
#[verifier::external_type_specification]
#[verifier::external_body]
pub struct ExHeaderValue(axum::http::HeaderValue);

/// What a header map holds: for each header name, in lower case, the bytes of
/// its values in the order in which they were added.
pub uninterp spec fn header_values(headers: HeaderMap) -> Map<Seq<char>, Seq<Seq<u8>>>;

/// The bytes of a header value.
pub uninterp spec fn header_bytes(value: HeaderValue) -> Seq<u8>;

/// Whether a byte may stand in a header value that is read as text.
pub open spec fn is_visible_ascii(b: u8) -> bool {
    32 <= b < 127 || b == 9
}

/// The text of a header value; none where it holds anything but visible ASCII
/// characters, spaces and tabs.
pub open spec fn text_of_header(bytes: Seq<u8>) -> Option<Seq<char>> {
    if forall|i: int| 0 <= i < bytes.len() ==> is_visible_ascii(#[trigger] bytes[i]) {
        Some(bytes.map_values(|b: u8| b as char))
    } else {
        None
    }
}

/// The text of the first authorization header, if there is one that is text.
pub open spec fn authorization_of(headers: HeaderMap) -> Option<Seq<char>> {
    if header_values(headers).dom().contains("authorization"@) {
        text_of_header(header_values(headers)["authorization"@][0])
    } else {
        None
    }
}

/// Trusted: `HeaderMap::get` with the name `authorization` gives the first of
/// the values that the map holds under that name, and nothing where it holds
/// none.
#[verifier::external_body]
fn authorization_value(headers: &HeaderMap) -> (r: Option<&HeaderValue>)
    ensures
        r is Some <==> header_values(*headers).dom().contains("authorization"@),
        r matches Some(v) ==> header_bytes(*v) == header_values(*headers)["authorization"@][0],
{
    headers.get(axum::http::header::AUTHORIZATION)
}

/// Trusted: `HeaderValue::to_str` gives the text of a value whose bytes are
/// all visible ASCII characters, spaces or tabs, and refuses any other.
#[verifier::external_body]
fn value_text(value: &HeaderValue) -> (r: Option<&str>)
    ensures
        crate::text::opt_str(r) == text_of_header(header_bytes(*value)),
{
    value.to_str().ok()
}

/// The text of the first authorization header, if there is one that is text.
pub fn authorization(headers: &HeaderMap) -> (r: Option<&str>)
    ensures
        crate::text::opt_str(r) == authorization_of(*headers),
{
    match authorization_value(headers) {
        Some(value) => value_text(value),
        None => None,
    }
}

/// A header value is text exactly where each of its bytes is a tab or stands
/// for a visible ASCII character or a space, and then it is those characters.
pub proof fn law_header_text_is_its_bytes(bytes: Seq<u8>)
    ensures
        text_of_header(bytes) is Some <==> forall|i: int|
            0 <= i < bytes.len() ==> (#[trigger] bytes[i]) == 9 || 32 <= bytes[i] <= 126,
        text_of_header(bytes) matches Some(text) ==> text.len() == bytes.len() && forall|i: int|
            0 <= i < bytes.len() ==> #[trigger] text[i] as u32 == bytes[i],
{
    if text_of_header(bytes) is Some {
        assert forall|i: int| 0 <= i < bytes.len() implies (#[trigger] bytes[i]) == 9 || 32
            <= bytes[i] <= 126 by {
            assert(is_visible_ascii(bytes[i]));
        }
    }
}

/// The authorization of a request is the text of the first value under that
/// name, and there is none where no value stands under it.
pub proof fn law_authorization_is_the_first_value(headers: HeaderMap)
    ensures
        !header_values(headers).dom().contains("authorization"@) ==> authorization_of(
            headers,
        ) is None,
        header_values(headers).dom().contains("authorization"@) ==> authorization_of(headers)
            == text_of_header(header_values(headers)["authorization"@][0]),
{
}

} // verus!
