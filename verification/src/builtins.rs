//! Host functions that Cyth scripts call and that compute on their arguments
//! alone.
use vstd::prelude::*;
use vstd::string::StringSliceAdditionalSpecFns;
use vstd::utf8::{decode_utf8, encode_utf8, valid_utf8};
use crate::cyth::{CyString, cyth_new_string};
use crate::json::Json;
use crate::numbers::{parse_int_bytes, parse_radix};
use crate::text::{decimal, lemma_decimal_digits};
use crate::outside::{
    bcrypt_hash, bcrypt_verdict, bcrypt_verify, hex_upper, hex_value, is_alphanumeric,
    is_bcrypt_hash_text, is_uuid_v4_text, markdown_html, markdown_to_html, new_uuid_text,
    percent_decode_utf8, percent_decoded, percent_encode_non_alphanumeric, percent_encoded,
    percent_encoded_byte, text_of, local_date_text, seconds_since_epoch, chrono_accepts,
    json_parsed, parse_json, bcrypt_reads,
};

verus! {

broadcast use vstd::utf8::group_utf8_lib;

/// `s` with each `+` replaced by a space.
pub open spec fn plus_to_space(s: Seq<u8>) -> Seq<u8> {
    s.map_values(|b: u8| if b == 43 { 32u8 } else { b })
}

/// What `urlDecode` gives: the percent-decoded bytes with `+` read as a space,
/// or nothing when they are not well-formed UTF-8.
pub open spec fn url_decoded(s: Seq<u8>) -> Seq<u8> {
    let d = percent_decoded(s);
    if valid_utf8(d) {
        plus_to_space(d)
    } else {
        Seq::empty()
    }
}

/// The integer answer of `verify`: 1 when the password matches, 0 when not,
/// `None` when bcrypt cannot read the hash.
pub open spec fn verify_answer(password: Seq<u8>, hash: Seq<u8>) -> Option<i32> {
    match bcrypt_verdict(password, decode_utf8(hash)) {
        Some(true) => Some(1),
        Some(false) => Some(0),
        None => None,
    }
}

proof fn lemma_percent_encoded_ascii(b: Seq<u8>)
    ensures
        forall|i: int| 0 <= i < percent_encoded(b).len() ==> #[trigger] percent_encoded(b)[i] < 128,
    decreases b.len(),
{
    if b.len() > 0 {
        lemma_percent_encoded_ascii(b.skip(1));
        let p = percent_encoded_byte(b[0]);
        assert forall|i: int| 0 <= i < p.len() implies p[i] < 128 by {}
        let r = percent_encoded(b.skip(1));
        assert forall|i: int| 0 <= i < percent_encoded(b).len() implies #[trigger] percent_encoded(
            b,
        )[i] < 128 by {
            if i >= p.len() {
                assert(percent_encoded(b)[i] == r[i - p.len()]);
            } else {
                assert(percent_encoded(b)[i] == p[i]);
            }
        }
    }
}

/// ASCII bytes, read as characters and encoded again, are the same bytes.
proof fn lemma_ascii_roundtrip(b: Seq<u8>)
    requires
        forall|i: int| 0 <= i < b.len() ==> #[trigger] b[i] < 128,
    ensures
        encode_utf8(b.map_values(|x: u8| x as char)) == b,
{
    let c = b.map_values(|x: u8| x as char);
    assert(vstd::utf8::is_ascii_chars(c)) by {
        assert forall|i: int| 0 <= i < c.len() implies '\0' <= #[trigger] c[i] <= '\u{7f}' by {
            assert(c[i] == b[i] as char);
        }
    }
    vstd::utf8::is_ascii_chars_encode_utf8(c);
    assert forall|i: int| 0 <= i < b.len() implies encode_utf8(c)[i] == b[i] by {
        assert(c[i] as u8 == encode_utf8(c)[i]);
        assert(c[i] == b[i] as char);
        let x = b[i];
        assert((x as char) as u8 == x);
    }
    assert(encode_utf8(c) =~= b);
}

/// The bytes of a Cyth string as text; it must be well-formed UTF-8.
fn text<'a>(s: &'a CyString) -> (r: &'a str)
    requires
        valid_utf8(s.data@),
    ensures
        r.spec_bytes() == s.data@,
        r@ == decode_utf8(s.data@),
{
    match text_of(s.data.as_slice()) {
        Some(t) => t,
        None => {
            assert(false);
            ""
        },
    }
}

/// The bytes of a `String`.
fn string_bytes(s: &String) -> (r: &[u8])
    ensures
        r@ == encode_utf8(s@),
{
    s.as_str().as_bytes()
}

/// `urlEncode`: percent-encodes every byte that is not an ASCII letter or digit.
pub fn url_encode(input: &CyString) -> (r: CyString)
    requires
        valid_utf8(input.data@),
    ensures
        r.data@ == percent_encoded(input.data@),
        r.size == r.data@.len() as i32,
{
    let encoded = percent_encode_non_alphanumeric(text(input));
    proof {
        lemma_percent_encoded_ascii(input.data@);
        lemma_ascii_roundtrip(percent_encoded(input.data@));
    }
    cyth_new_string(string_bytes(&encoded))
}

/// `urlDecode`: percent-decodes, then reads `+` as a space; nothing when the
/// decoded bytes are not well-formed UTF-8.
pub fn url_decode(input: &CyString) -> (r: CyString)
    requires
        valid_utf8(input.data@),
    ensures
        r.data@ == url_decoded(input.data@),
        r.size == r.data@.len() as i32,
{
    let decoded = percent_decode_utf8(text(input));
    let mut out: Vec<u8> = Vec::new();
    match decoded {
        Some(d) => {
            let bytes = string_bytes(&d);
            let ghost want = plus_to_space(percent_decoded(input.data@));
            let mut i: usize = 0;
            while i < bytes.len()
                invariant
                    i <= bytes@.len(),
                    bytes@ == percent_decoded(input.data@),
                    want == plus_to_space(bytes@),
                    out@ == want.take(i as int),
                decreases bytes@.len() - i,
            {
                let b = bytes[i];
                out.push(if b == 43 { 32u8 } else { b });
                i += 1;
                assert(out@ =~= want.take(i as int));
            }
            assert(out@ =~= want);
        },
        None => {
            assert(out@ =~= url_decoded(input.data@));
        },
    }
    cyth_new_string(out.as_slice())
}

/// `markdown`: the HTML of a Markdown text, with raw HTML let through;
/// nothing when the conversion fails.
pub fn markdown(input: &CyString) -> (r: CyString)
    requires
        valid_utf8(input.data@),
    ensures
        r.data@ == match markdown_html(decode_utf8(input.data@)) {
            Some(h) => encode_utf8(h),
            None => Seq::empty(),
        },
        r.size == r.data@.len() as i32,
{
    match markdown_to_html(text(input)) {
        Some(h) => cyth_new_string(string_bytes(&h)),
        None => {
            let empty: Vec<u8> = Vec::new();
            cyth_new_string(empty.as_slice())
        },
    }
}

/// `hash`: a bcrypt hash of the password (cost 12, random salt), which
/// `verify` accepts for that password; `None` where bcrypt fails.
pub fn hash(input: &CyString) -> (r: Option<CyString>)
    ensures
        r matches Some(h) ==> {
            &&& valid_utf8(h.data@)
            &&& is_bcrypt_hash_text(decode_utf8(h.data@))
            &&& verify_answer(input.data@, h.data@) == Some(1i32)
            &&& bcrypt_reads(decode_utf8(h.data@))
            &&& h.size == h.data@.len() as i32
        },
{
    match bcrypt_hash(input.data.as_slice()) {
        Some(h) => Some(cyth_new_string(string_bytes(&h))),
        None => None,
    }
}

/// `verify`: 1 when the password matches the bcrypt hash, 0 when not; `None`
/// exactly where bcrypt cannot read the hash, whatever the password.
pub fn verify(password: &CyString, hash: &CyString) -> (r: Option<i32>)
    requires
        valid_utf8(hash.data@),
    ensures
        r == verify_answer(password.data@, hash.data@),
        r is Some <==> bcrypt_reads(decode_utf8(hash.data@)),
{
    match bcrypt_verify(password.data.as_slice(), text(hash)) {
        Some(true) => Some(1),
        Some(false) => Some(0),
        None => None,
    }
}

/// `uuid`: a random version-4 UUID in hyphenated lower-case text.
pub fn uuid() -> (r: CyString)
    ensures
        valid_utf8(r.data@),
        is_uuid_v4_text(decode_utf8(r.data@)),
        r.size == r.data@.len() as i32,
{
    let u = new_uuid_text();
    cyth_new_string(string_bytes(&u))
}

/// `jsonDecode`: the JSON value a text holds, `None` where it holds none.
pub fn json_decode(input: &CyString) -> (r: Option<Json>)
    requires
        valid_utf8(input.data@),
    ensures
        r matches Some(v) ==> json_parsed(decode_utf8(input.data@)) == Some(v@),
        r is None ==> json_parsed(decode_utf8(input.data@)) is None,
{
    parse_json(text(input))
}

/// `parseInt(n, m)`: the integer that `n` spells in base `m`, 0 when it spells none.
pub fn parse_int(input: &CyString, radix: i32) -> (r: i32)
    requires
        2 <= radix <= 36,
    ensures
        r as int == match parse_radix(input.data@, radix as int) {
            Some(v) => v,
            None => 0,
        },
{
    parse_int_bytes(input.data.as_slice(), radix as u32)
}

/// `parseInt(n)`: the integer that `n` spells in base 10, 0 when it spells none.
pub fn parse_int2(input: &CyString) -> (r: i32)
    ensures
        r as int == match parse_radix(input.data@, 10) {
            Some(v) => v,
            None => 0,
        },
{
    parse_int_bytes(input.data.as_slice(), 10)
}

/// `date(n, m)`: the local date and time `n` seconds after the Unix epoch,
/// written with the `chrono` format `m`; `None` exactly where `chrono` cannot
/// read the format. A format without `%` is written as it is, and `%s` as `n`
/// in decimal; what the other specifiers give depends on the machine's time
/// zone.
pub fn date(epoch: i32, format: &CyString) -> (r: Option<CyString>)
    requires
        epoch >= 0,
        valid_utf8(format.data@),
    ensures
        r is Some <==> chrono_accepts(decode_utf8(format.data@)),
        r matches Some(d) ==> d.size == d.data@.len() as i32,
        !decode_utf8(format.data@).contains('%') ==> (r matches Some(d) && d.data@
            == format.data@),
        decode_utf8(format.data@) == seq!['%', 's'] ==> (r matches Some(d) && d.data@ == decimal(
            epoch as nat,
        )),
{
    let f = text(format);
    match local_date_text(epoch as u64, f) {
        Some(d) => {
            proof {
                if f@ == seq!['%', 's'] {
                    lemma_decimal_digits(epoch as nat);
                    lemma_ascii_roundtrip(decimal(epoch as nat));
                }
            }
            Some(cyth_new_string(string_bytes(&d)))
        },
        None => None,
    }
}

/// The answer of `now` for a reading of the clock: the whole seconds since the
/// Unix epoch, cut to 32 bits as a cast does; `None` for a clock set before
/// the epoch.
pub fn seconds_as_int(secs: Option<u64>) -> (r: Option<i32>)
    ensures
        r == match secs {
            Some(s) => Some(s as i32),
            None => None::<i32>,
        },
{
    match secs {
        Some(s) => Some(s as i32),
        None => None,
    }
}

/// `now`: the seconds since the Unix epoch, cut to 32 bits as a cast does;
/// `None` when the clock is set before the epoch. The time is read from the
/// clock, and `seconds_as_int` gives the answer for it.
pub fn now() -> (r: Option<i32>) {
    seconds_as_int(seconds_since_epoch())
}

// ---------------------------------------------------------------------------
// Laws.

/// `urlDecode` reads every `+` of the percent-decoded text as a space, however
/// many there are, and keeps every other byte in its place; text that does not
/// decode to UTF-8 gives nothing.
pub proof fn url_decode_reads_every_plus_as_space(s: Seq<u8>)
    ensures
        valid_utf8(percent_decoded(s)) ==> url_decoded(s).len() == percent_decoded(s).len(),
        valid_utf8(percent_decoded(s)) ==> forall|i: int|
            0 <= i < percent_decoded(s).len() ==> #[trigger] url_decoded(s)[i] == if percent_decoded(
                s,
            )[i] == 43 {
                32u8
            } else {
                percent_decoded(s)[i]
            },
        valid_utf8(percent_decoded(s)) ==> forall|i: int|
            0 <= i < url_decoded(s).len() ==> #[trigger] url_decoded(s)[i] != 43,
        !valid_utf8(percent_decoded(s)) ==> url_decoded(s).len() == 0,
{
}


proof fn lemma_hex_roundtrip(v: int)
    requires
        0 <= v < 16,
    ensures
        hex_value(hex_upper(v)) == Some(v),
{
}

/// Percent-encoding leaves nothing in its text but ASCII letters, digits and
/// `%`: every other byte is escaped, and what decodes back (see
/// `percent_decoding_undoes_encoding`) is the input.
pub proof fn percent_encoding_leaves_only_letters_digits_and_escapes(s: Seq<u8>)
    ensures
        forall|i: int|
            0 <= i < percent_encoded(s).len() ==> {
                let b = #[trigger] percent_encoded(s)[i];
                (48 <= b <= 57) || (65 <= b <= 90) || (97 <= b <= 122) || b == 37
            },
    decreases s.len(),
{
    if s.len() > 0 {
        percent_encoding_leaves_only_letters_digits_and_escapes(s.skip(1));
        let p = percent_encoded_byte(s[0]);
        let r = percent_encoded(s.skip(1));
        assert forall|i: int| 0 <= i < percent_encoded(s).len() implies {
            let b = #[trigger] percent_encoded(s)[i];
            (48 <= b <= 57) || (65 <= b <= 90) || (97 <= b <= 122) || b == 37
        } by {
            if i >= p.len() {
                assert(percent_encoded(s)[i] == r[i - p.len()]);
            } else {
                assert(percent_encoded(s)[i] == p[i]);
            }
        }
    }
}

/// Percent-decoding undoes percent-encoding.
pub proof fn percent_decoding_undoes_encoding(s: Seq<u8>)
    ensures
        percent_decoded(percent_encoded(s)) == s,
    decreases s.len(),
{
    if s.len() > 0 {
        percent_decoding_undoes_encoding(s.skip(1));
        let c = s[0];
        let rest = percent_encoded(s.skip(1));
        let e = percent_encoded(s);
        if is_alphanumeric(c) {
            assert(e.skip(1) =~= rest);
            assert(e[0] == c);
        } else {
            lemma_hex_roundtrip(c as int / 16);
            lemma_hex_roundtrip(c as int % 16);
            assert(e.skip(3) =~= rest);
            assert(e[0] == 37u8);
            assert(e[1] == hex_upper(c as int / 16));
            assert(e[2] == hex_upper(c as int % 16));
            assert(((c as int / 16) * 16 + c as int % 16) as u8 == c);
        }
        assert(seq![c] + s.skip(1) =~= s);
    } else {
        assert(percent_encoded(s) =~= Seq::<u8>::empty());
    }
}

/// `urlDecode` gives back what `urlEncode` encoded, for UTF-8 text without `+`
/// (a `+` comes back as a space).
pub proof fn url_decode_undoes_encode(s: Seq<u8>)
    requires
        valid_utf8(s),
        forall|i: int| 0 <= i < s.len() ==> s[i] != 43,
    ensures
        url_decoded(percent_encoded(s)) == s,
{
    percent_decoding_undoes_encoding(s);
    assert(plus_to_space(s) =~= s);
}

} // verus!
