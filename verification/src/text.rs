//! Text: UTF-8 strings from bytes, URL parsing and percent-encoding.
use vstd::prelude::*;
use vstd::utf8::{valid_utf8, decode_utf8, encode_utf8};

verus! {

#[verifier::external_type_specification]
#[verifier::external_body]
pub struct ExUrlParseError(url::ParseError);

/// What `url::Url::parse` makes of a text: the serialization of the parsed
/// URL, or nothing where it refuses the text.
pub uninterp spec fn url_parse(input: Seq<char>) -> Option<Seq<char>>;

/// Parses an absolute URL with `url::Url::parse` and gives its serialization
/// (`Url::as_str`). The result depends on the text alone; what it is, is left
/// to the name `url_parse`.
#[verifier::external_body]
pub fn parse_url(input: &str) -> (r: Result<String, url::ParseError>)
    ensures
        r is Ok <==> url_parse(input@) is Some,
        r matches Ok(s) ==> url_parse(input@) == Some(s@),
{
    match url::Url::parse(input) {
        Ok(u) => Ok(u.as_str().to_string()),
        Err(e) => Err(e),
    }
}

/// The bytes that `urlencoding` leaves as they are: ASCII letters and digits,
/// `-`, `.`, `_` and `~`.
pub open spec fn is_unreserved(b: u8) -> bool {
    (48 <= b <= 57) || (65 <= b <= 90) || (97 <= b <= 122) || b == 45 || b == 46 || b == 95 || b
        == 126
}

/// An upper-case hexadecimal digit.
pub open spec fn hex_digit(d: u8) -> u8 {
    if d < 10 {
        (48 + d) as u8
    } else {
        (55 + d) as u8
    }
}

/// Percent-encoding: each byte that is not unreserved becomes `%` and two
/// upper-case hex digits.
pub open spec fn percent_encoded(data: Seq<u8>) -> Seq<u8>
    decreases data.len(),
{
    if data.len() == 0 {
        Seq::empty()
    } else {
        let b = data.last();
        percent_encoded(data.drop_last()) + if is_unreserved(b) {
            seq![b]
        } else {
            seq![37u8, hex_digit(b >> 4u8), hex_digit(b & 15u8)]
        }
    }
}

/// `urlencoding::encode_binary`: percent-encodes every byte but the
/// unreserved ones, with upper-case hex digits. The contract states the UTF-8
/// bytes of the result.
#[verifier::external_body]
pub fn url_encode_binary(data: &[u8]) -> (r: String)
    ensures
        encode_utf8(r@) == percent_encoded(data@),
{
    urlencoding::encode_binary(data).into_owned()
}

/// `String::from_utf8`: the text that valid UTF-8 bytes encode, or nothing
/// when they are not valid UTF-8.
#[verifier::external_body]
pub fn string_from_utf8(bytes: Vec<u8>) -> (r: Option<String>)
    ensures
        r is Some <==> valid_utf8(bytes@),
        r matches Some(s) ==> s@ == decode_utf8(bytes@),
{
    String::from_utf8(bytes).ok()
}

} // verus!
