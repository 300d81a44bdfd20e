use vstd::prelude::*;
use vstd::utf8::encode_utf8;
use crate::text::opt_view;

verus! {

/// The bytes that percent-encoding leaves as they are: the ASCII letters and
/// digits, and `-`, `.`, `_`, `~`.
pub open spec fn unreserved(b: u8) -> bool {
    ||| 0x30 <= b <= 0x39
    ||| 0x41 <= b <= 0x5a
    ||| 0x61 <= b <= 0x7a
    ||| b == 0x2d
    ||| b == 0x2e
    ||| b == 0x5f
    ||| b == 0x7e
}

/// The upper-case hexadecimal digit for a value below 16.
pub open spec fn hex_digit(v: u8) -> char {
    if v < 10 {
        (0x30 + v) as char
    } else {
        (0x41 + v - 10) as char
    }
}

/// The bytes written out with every byte that is not unreserved replaced by
/// `%` and its two hexadecimal digits.
pub open spec fn escaped(bytes: Seq<u8>) -> Seq<char>
    decreases bytes.len(),
{
    if bytes.len() == 0 {
        Seq::empty()
    } else {
        let b = bytes.last();
        escaped(bytes.drop_last()) + if unreserved(b) {
            seq![b as char]
        } else {
            seq!['%', hex_digit(b / 16), hex_digit(b % 16)]
        }
    }
}

/// The percent-encoding of a string: that of its UTF-8 bytes.
pub open spec fn percent_encoded(s: Seq<char>) -> Seq<char> {
    escaped(encode_utf8(s))
}

/// What percent-decoding makes of a string: the decoded text, or `None`
/// where the decoded bytes are not UTF-8.
pub uninterp spec fn percent_decoded(s: Seq<char>) -> Option<Seq<char>>;

/// Calls `urlencoding::encode`, which percent-encodes every byte of the
/// string's UTF-8 form except the ASCII letters and digits and `-`, `_`, `.`,
/// `~`, with upper-case hexadecimal digits. The contract says just that, and
/// is taken on trust.
#[verifier::external_body]
pub(crate) fn percent_encode(s: &str) -> (out: String)
    ensures
        out@ == percent_encoded(s@),
{
    urlencoding::encode(s).into_owned()
}

/// Calls `urlencoding::decode`, with a failure turned into `None`. The result
/// is named, not spelled out; the one thing stated of it, on trust, is that a
/// string without a `%` decodes to itself: such a string the function hands
/// back untouched.
#[verifier::external_body]
pub(crate) fn percent_decode(s: &str) -> (out: Option<String>)
    ensures
        opt_view(out) == percent_decoded(s@),
        !s@.contains('%') ==> opt_view(out) == Some(s@),
{
    match urlencoding::decode(s) {
        Ok(d) => Some(d.into_owned()),
        Err(_) => None,
    }
}

} // verus!
