use vstd::prelude::*;
use vstd::utf8::encode_utf8;

use crate::text::chars_of;

verus! {

/// Whether `urlencoding` leaves byte `b` as it is: ASCII letters and digits,
/// '-', '.', '_' and '~'.
pub open spec fn unreserved(b: u8) -> bool {
    (48 <= b <= 57) || (65 <= b <= 90) || (97 <= b <= 122) || b == 45 || b == 46 || b == 95 || b
        == 126
}

/// The upper-case hexadecimal digit for `d` below 16.
pub open spec fn hex_digit(d: u8) -> char {
    seq!['0', '1', '2', '3', '4', '5', '6', '7', '8', '9', 'A', 'B', 'C', 'D', 'E', 'F'][d as int]
}

/// Percent-encoding of `bytes`: each unreserved byte stands for itself, any
/// other byte becomes '%' and two upper-case hexadecimal digits.
pub open spec fn percent_encoded(bytes: Seq<u8>) -> Seq<char>
    decreases bytes.len(),
{
    if bytes.len() == 0 {
        Seq::empty()
    } else {
        let b = bytes.last();
        percent_encoded(bytes.drop_last()) + if unreserved(b) {
            seq![b as char]
        } else {
            seq!['%', hex_digit(b / 16), hex_digit(b % 16)]
        }
    }
}

/// Relies on `urlencoding::encode`, which percent-encodes the UTF-8 bytes of
/// `s`, leaving only ASCII letters, digits and "-._~" unchanged.
#[verifier::external_body]
fn url_encode(s: &str) -> (r: String)
    ensures
        r@ == percent_encoded(encode_utf8(s@)),
{
    urlencoding::encode(s).into_owned()
}

pub open spec fn teams_call_prefix() -> Seq<char> {
    "https://teams.microsoft.com/l/call/0/0?users="@
}

pub open spec fn meetup_join_prefix() -> Seq<char> {
    "https://teams.microsoft.com/l/meetup-join/"@
}

/// The link that starts a Teams call with `email`.
pub fn teams_call_url(email: &str) -> (r: String)
    ensures
        r@ == teams_call_prefix() + percent_encoded(encode_utf8(email@)),
{
    let encoded = url_encode(email);
    String::from_str("https://teams.microsoft.com/l/call/0/0?users=").concat(encoded.as_str())
}

/// Whether `s` begins with "http".
pub open spec fn is_http(s: Seq<char>) -> bool {
    s.len() >= 4 && s[0] == 'h' && s[1] == 't' && s[2] == 't' && s[3] == 'p'
}

/// The link that joins a meeting: `join` itself when it already is a web
/// address, else the meetup-join link built from it.
pub fn meeting_url(join: &str) -> (r: String)
    ensures
        is_http(join@) ==> r@ == join@,
        !is_http(join@) ==> r@ == meetup_join_prefix() + percent_encoded(encode_utf8(join@)),
{
    let cs = chars_of(join);
    if cs.len() >= 4 && cs[0] == 'h' && cs[1] == 't' && cs[2] == 't' && cs[3] == 'p' {
        return String::from_str(join);
    }
    let encoded = url_encode(join);
    String::from_str("https://teams.microsoft.com/l/meetup-join/").concat(encoded.as_str())
}

} // verus!
