//! The calls this library makes into other crates and into `std`, with what
//! is believed of each. Nothing here is proved: each contract restates what
//! the called code does, as its source and documentation show it.
use std::fmt::Write;
use vstd::prelude::*;
use vstd::string::StringSliceAdditionalSpecFns;
use vstd::utf8::{decode_utf8, valid_utf8};
use crate::text::decimal;
use crate::json::{Json, JsonView};

verus! {

// ---------------------------------------------------------------------------
// Percent-encoding.

/// An ASCII letter or digit.
pub open spec fn is_alphanumeric(b: u8) -> bool {
    (48 <= b <= 57) || (65 <= b <= 90) || (97 <= b <= 122)
}

/// The upper-case hexadecimal digit of a value below 16.
pub open spec fn hex_upper(v: int) -> u8 {
    if v < 10 {
        (48 + v) as u8
    } else {
        (55 + v) as u8
    }
}

/// The value of a hexadecimal digit (either case), if `b` is one.
pub open spec fn hex_value(b: u8) -> Option<int> {
    if 48 <= b <= 57 {
        Some(b - 48)
    } else if 97 <= b <= 102 {
        Some(b - 97 + 10)
    } else if 65 <= b <= 70 {
        Some(b - 65 + 10)
    } else {
        None
    }
}

/// How one byte is percent-encoded: an ASCII letter or digit stays, any other
/// byte becomes `%` and two upper-case hexadecimal digits.
pub open spec fn percent_encoded_byte(c: u8) -> Seq<u8> {
    if is_alphanumeric(c) {
        seq![c]
    } else {
        seq![37u8, hex_upper(c as int / 16), hex_upper(c as int % 16)]
    }
}

/// Percent-encoding of every byte that is not an ASCII letter or digit.
pub open spec fn percent_encoded(b: Seq<u8>) -> Seq<u8>
    decreases b.len(),
{
    if b.len() == 0 {
        Seq::empty()
    } else {
        percent_encoded_byte(b[0]) + percent_encoded(b.skip(1))
    }
}

/// Percent-decoding: `%` and two hexadecimal digits become the byte they
/// spell; every other byte, a lone `%` included, stays.
pub open spec fn percent_decoded(b: Seq<u8>) -> Seq<u8>
    decreases b.len(),
{
    if b.len() == 0 {
        Seq::empty()
    } else if b[0] == 37 && b.len() >= 3 && hex_value(b[1]) is Some && hex_value(b[2]) is Some {
        seq![(hex_value(b[1]).unwrap() * 16 + hex_value(b[2]).unwrap()) as u8] + percent_decoded(
            b.skip(3),
        )
    } else {
        seq![b[0]] + percent_decoded(b.skip(1))
    }
}

/// `percent_encoding::utf8_percent_encode` with the `NON_ALPHANUMERIC` set,
/// written out with `to_string`. Believed: every byte of the UTF-8 text that is
/// not an ASCII letter or digit is written as `%XX` in upper-case hexadecimal,
/// the others as they are (the crate's `should_percent_encode` encodes every
/// non-ASCII byte and every byte of the set, which holds all ASCII bytes but
/// letters and digits).
#[verifier::external_body]
pub(crate) fn percent_encode_non_alphanumeric(input: &str) -> (r: String)
    ensures
        r@ == percent_encoded(input.spec_bytes()).map_values(|b: u8| b as char),
{
    percent_encoding::utf8_percent_encode(input, percent_encoding::NON_ALPHANUMERIC).to_string()
}

/// `percent_encoding::percent_decode_str` followed by its `decode_utf8`.
/// Believed: the bytes are percent-decoded (`%` and two hexadecimal digits of
/// either case give one byte, anything else is kept), and the result is
/// returned when it is well-formed UTF-8, `None` when `decode_utf8` fails.
#[verifier::external_body]
pub(crate) fn percent_decode_utf8(input: &str) -> (r: Option<String>)
    ensures
        r is Some <==> valid_utf8(percent_decoded(input.spec_bytes())),
        r matches Some(t) ==> t@ == decode_utf8(percent_decoded(input.spec_bytes())),
{
    percent_encoding::percent_decode_str(input).decode_utf8().ok().map(|t| t.into_owned())
}

// ---------------------------------------------------------------------------
// Markdown.

/// The HTML that `markdown::to_html_with_options` gives for a text with
/// `allow_dangerous_html` on and the other options at their defaults, or
/// `None` where it returns an error.
pub uninterp spec fn markdown_html(input: Seq<char>) -> Option<Seq<char>>;

/// `markdown::to_html_with_options` with `allow_dangerous_html` on. Believed: it
/// returns `markdown_html` of its input; what the HTML is, is not stated.
#[verifier::external_body]
pub(crate) fn markdown_to_html(input: &str) -> (r: Option<String>)
    ensures
        r matches Some(h) ==> markdown_html(input@) == Some(h@),
        r is None ==> markdown_html(input@) is None,
{
    let options = markdown::Options {
        compile: markdown::CompileOptions { allow_dangerous_html: true, ..Default::default() },
        ..Default::default()
    };
    markdown::to_html_with_options(input, &options).ok()
}

// ---------------------------------------------------------------------------
// JSON.

/// The value `serde_json::from_str::<serde_json::Value>` reads from a text, or
/// `None` where it returns an error.
pub uninterp spec fn json_parsed(text: Seq<char>) -> Option<JsonView>;

#[verifier::external_type_specification]
#[verifier::external_body]
pub struct ExJsonValue(serde_json::Value);

/// `serde_json::from_str::<serde_json::Value>`, its value turned into a `Json`
/// variant for variant (a number as the text its `Display` writes). Believed:
/// it returns `json_parsed` of its input; what that value is, is not stated.
#[verifier::external_body]
pub(crate) fn parse_json(text: &str) -> (r: Option<Json>)
    ensures
        r matches Some(v) ==> json_parsed(text@) == Some(v@),
        r is None ==> json_parsed(text@) is None,
{
    match serde_json::from_str::<serde_json::Value>(text) {
        Ok(value) => Some(json_of_value(&value)),
        Err(_) => None,
    }
}

/// The conversion inside `parse_json`: each `serde_json::Value` variant to the
/// `Json` variant of the same name, fields moved or copied, nested values in
/// the same order. It has no contract of its own; `parse_json`'s stands for it.
#[verifier::external_body]
fn json_of_value(value: &serde_json::Value) -> Json {
    match value {
        serde_json::Value::Null => Json::Null,
        serde_json::Value::Bool(b) => Json::Bool(*b),
        serde_json::Value::Number(n) => Json::Number(n.to_string()),
        serde_json::Value::String(t) => Json::Text(t.clone()),
        serde_json::Value::Array(items) => Json::Array(items.iter().map(json_of_value).collect()),
        serde_json::Value::Object(members) => Json::Object(
            members.iter().map(|(k, v)| (k.clone(), json_of_value(v))).collect(),
        ),
    }
}

// ---------------------------------------------------------------------------
// bcrypt.

/// What `bcrypt::verify` answers for a password and a hash: whether they match,
/// or `None` where it returns an error (a hash it cannot read).
pub uninterp spec fn bcrypt_verdict(password: Seq<u8>, hash: Seq<char>) -> Option<bool>;

/// bcrypt can read the hash text: its verdict on it is not an error. Whether
/// it is depends on the hash alone (see `bcrypt_verify`), so the empty
/// password stands for any.
pub open spec fn bcrypt_reads(hash: Seq<char>) -> bool {
    bcrypt_verdict(Seq::empty(), hash) is Some
}

/// A character of the bcrypt Base64 alphabet: `.`, `/`, `A`-`Z`, `a`-`z`, `0`-`9`.
pub open spec fn is_bcrypt_base64(c: char) -> bool {
    c == '.' || c == '/' || ('A' <= c <= 'Z') || ('a' <= c <= 'z') || ('0' <= c <= '9')
}

/// A bcrypt hash text of version `2b` and cost 12: `$2b$12$`, then 53
/// characters of the bcrypt Base64 alphabet (22 for the salt, 31 for the hash).
pub open spec fn is_bcrypt_hash_text(h: Seq<char>) -> bool {
    &&& h.len() == 60
    &&& h.take(7) == "$2b$12$"@
    &&& forall|i: int| 7 <= i < 60 ==> is_bcrypt_base64(#[trigger] h[i])
}

/// `bcrypt::hash` with `DEFAULT_COST` (12) and a random salt. Believed: on
/// success the hash is a `$2b$12$` hash text of 60 characters, and
/// `bcrypt::verify` reads it and accepts the same password against it (it reads back the
/// cost and salt and recomputes the same digest). The salt, and so the text,
/// depends on chance and is not stated; failure (no randomness from the
/// operating system) is `None`.
#[verifier::external_body]
pub(crate) fn bcrypt_hash(password: &[u8]) -> (r: Option<String>)
    ensures
        r matches Some(h) ==> is_bcrypt_hash_text(h@) && bcrypt_verdict(password@, h@) == Some(
            true,
        ),
        r matches Some(h) ==> bcrypt_reads(h@),
{
    bcrypt::hash(password, bcrypt::DEFAULT_COST).ok()
}

/// `bcrypt::verify`. Believed: it returns `bcrypt_verdict` of its arguments,
/// and it fails for the same hashes whatever the password (`split_hash` and
/// the cost check read the hash alone; the password is only hashed, and
/// truncated past 72 bytes rather than refused).
#[verifier::external_body]
pub(crate) fn bcrypt_verify(password: &[u8], hash: &str) -> (r: Option<bool>)
    ensures
        r == bcrypt_verdict(password@, hash@),
        r is Some <==> bcrypt_reads(hash@),
{
    bcrypt::verify(password, hash).ok()
}

// ---------------------------------------------------------------------------
// UUIDs.

/// A lower-case hexadecimal digit.
pub open spec fn is_lower_hex(c: char) -> bool {
    ('0' <= c <= '9') || ('a' <= c <= 'f')
}

/// The hyphenated text of a version-4 UUID: 36 characters, hyphens at 8, 13, 18
/// and 23, lower-case hexadecimal digits elsewhere, `4` at 14 (the version) and
/// one of `8`, `9`, `a`, `b` at 19 (the variant).
pub open spec fn is_uuid_v4_text(u: Seq<char>) -> bool {
    &&& u.len() == 36
    &&& forall|i: int|
        0 <= i < 36 ==> if i == 8 || i == 13 || i == 18 || i == 23 {
            u[i] == '-'
        } else {
            is_lower_hex(#[trigger] u[i])
        }
    &&& u[14] == '4'
    &&& (u[19] == '8' || u[19] == '9' || u[19] == 'a' || u[19] == 'b')
}

/// `uuid::Uuid::new_v4`, written out hyphenated. Believed: the text has the
/// shape of a version-4 UUID (`new_v4` masks in the version and variant bits;
/// the hyphenated form is lower-case). The random bits are not stated.
#[verifier::external_body]
pub(crate) fn new_uuid_text() -> (r: String)
    ensures
        is_uuid_v4_text(r@),
{
    uuid::Uuid::new_v4().as_hyphenated().to_string()
}

// ---------------------------------------------------------------------------
// Dates and time.

/// Whether `chrono`'s `StrftimeItems` reads the format text without an error
/// item (an unknown or unfinished specifier), so that a date can be written
/// with it. It depends on the format alone.
pub uninterp spec fn chrono_accepts(format: Seq<char>) -> bool;

/// The decimal text of a natural number, as characters.
pub open spec fn decimal_chars(n: nat) -> Seq<char> {
    decimal(n).map_values(|b: u8| b as char)
}

/// `chrono`: the local date and time `epoch` seconds after the Unix epoch,
/// written with `DateTime::<Local>::format`. Believed:
/// - it succeeds exactly when `chrono_accepts` the format: writing fails only
///   on an error item, since a `DateTime` supplies the date, the time and the
///   offset that every other item needs, and the years of the epochs admitted
///   here lie well within chrono's range and RFC 2822's;
/// - a format without `%` is written as it is (`StrftimeItems` reads such text
///   as literal and space items only, which are written verbatim);
/// - `%s` is written as the epoch in decimal, unpadded: the timestamp item is
///   the local time less the offset, whatever the time zone.
///
/// What the other specifiers give depends on the machine's time zone and is
/// not stated. Epochs are kept to the `i32` range: `UNIX_EPOCH +
/// Duration::from_secs` and chrono's conversion panic far beyond it.
#[verifier::external_body]
pub(crate) fn local_date_text(epoch: u64, format: &str) -> (r: Option<String>)
    requires
        epoch <= i32::MAX,
    ensures
        r is Some <==> chrono_accepts(format@),
        r is None ==> format@.contains('%'),
        r matches Some(t) ==> (format@.contains('%') || t@ == format@),
        r is None ==> format@ != seq!['%', 's'],
        r matches Some(t) ==> (format@ == seq!['%', 's'] ==> t@ == decimal_chars(epoch as nat)),
{
    let time = std::time::UNIX_EPOCH + std::time::Duration::from_secs(epoch);
    let date = chrono::DateTime::<chrono::Local>::from(time);
    let mut text = String::new();
    match write!(text, "{}", date.format(format)) {
        Ok(()) => Some(text),
        Err(_) => None,
    }
}

/// `std::time::SystemTime::now`, as whole seconds since the Unix epoch;
/// `None` when the clock is set before the epoch. The time is not stated.
#[verifier::external_body]
pub(crate) fn seconds_since_epoch() -> (r: Option<u64>) {
    match std::time::SystemTime::now().duration_since(std::time::UNIX_EPOCH) {
        Ok(d) => Some(d.as_secs()),
        Err(_) => None,
    }
}

// ---------------------------------------------------------------------------
// std.

/// `std::str::from_utf8`. Believed: it succeeds exactly on well-formed UTF-8,
/// and the text it gives has those bytes.
#[verifier::external_body]
pub(crate) fn text_of(bytes: &[u8]) -> (r: Option<&str>)
    ensures
        r is Some <==> valid_utf8(bytes@),
        r matches Some(t) ==> t.spec_bytes() == bytes@,
{
    std::str::from_utf8(bytes).ok()
}

} // verus!
