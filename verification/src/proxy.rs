//! Building signed proxy URLs: the target URL is form-urlencoded as the
//! `url` query parameter, the wall-clock timestamp is appended as `t`, and
//! the signature over the assembled string is appended as `sig`.

use vstd::prelude::*;
use vstd::string::StringExecFns;
use crate::codec::{is_y64_char, y64_of};
use crate::digits::{dec_of, is_dec_digit};
use crate::signer::{md5_of, spec_sign};

verus! {

/// The `application/x-www-form-urlencoded` serialization of a string: its
/// UTF-8 bytes with unreserved bytes kept, space turned into `+`, and every
/// other byte percent-encoded. A function of the string alone.
pub uninterp spec fn form_encoded_of(s: Seq<char>) -> Seq<char>;

pub open spec fn is_alnum_char(c: char) -> bool {
    (48 <= c as u32 && c as u32 <= 57) || (65 <= c as u32 && c as u32 <= 90) || (97 <= c as u32
        && c as u32 <= 122)
}

/// The characters a form-urlencoded value may contain: the bytes kept
/// as they are (`A-Za-z0-9*-._`), `+` for a space, and `%` with two
/// uppercase hex digits for everything else.
pub open spec fn is_form_value_char(c: char) -> bool {
    is_alnum_char(c) || c == '*' || c == '-' || c == '.' || c == '_' || c == '+' || c == '%'
}

/// What the form-urlencoded serializer guarantees of one input string.
pub open spec fn form_encoded_props(s: Seq<char>) -> bool {
    &&& forall|i: int|
        0 <= i < form_encoded_of(s).len() ==> is_form_value_char(#[trigger] form_encoded_of(s)[i])
    &&& (s.len() == 0 ==> form_encoded_of(s).len() == 0)
    &&& ((forall|i: int| 0 <= i < s.len() ==> is_alnum_char(#[trigger] s[i]))
        ==> form_encoded_of(s) == s)
}

/// The serialization is one-to-one: every byte that could be mistaken for
/// an escape — `%` and `+` among them — is itself escaped, so distinct
/// strings serialize to distinct strings and a value round-trips through
/// its encoding.
pub open spec fn form_encoded_injective() -> bool {
    forall|a: Seq<char>, b: Seq<char>|
        form_encoded_of(a) == form_encoded_of(b) ==> a == b
}

/// What holds of the string `append_pair` writes for one name/value pair.
pub open spec fn urlencode_pair_post(r: Seq<char>, name: Seq<char>, value: Seq<char>) -> bool {
    &&& form_encoded_props(name)
    &&& form_encoded_props(value)
    &&& form_encoded_injective()
}

/// Relies on url::form_urlencoded::Serializer::append_pair on a fresh
/// serializer: it writes the name, `=`, and the value, each serialized
/// by the form-urlencoded byte serializer, which keeps `A-Za-z0-9*-._`,
/// writes a space as `+`, and percent-encodes every other byte — `%` and
/// `+` included, which makes the serialization one-to-one.
#[verifier::external_body]
fn urlencode_pair(name: &str, value: &str) -> (r: String)
    ensures
        r@ == form_encoded_of(name@) + seq!['='] + form_encoded_of(value@),
        urlencode_pair_post(r@, name@, value@),
{
    url::form_urlencoded::Serializer::new(String::new()).append_pair(name, value).finish()
}

/// Relies on std::time::SystemTime::now: the wall clock, read as whole
/// seconds since the Unix epoch, `None` when the clock reads before the
/// epoch — so the read never aborts. Nothing is assumed of the value.
#[verifier::external_body]
fn unix_now_seconds() -> Option<u64> {
    match std::time::SystemTime::now().duration_since(std::time::UNIX_EPOCH) {
        Ok(elapsed) => Some(elapsed.as_secs()),
        Err(_) => None,
    }
}

/// The string that gets signed: the proxy base, then the encoded target URL
/// as the `url` parameter, then the timestamp in decimal as `t`.
pub open spec fn spec_url_to_sign(base: Seq<char>, target: Seq<char>, t: u64) -> Seq<char> {
    base + seq!['?', 'u', 'r', 'l', '='] + form_encoded_of(target) + seq!['&', 't', '='] + dec_of(
        t as nat,
    )
}

/// The full signed proxy URL: the signed string with the signature appended
/// as the `sig` parameter.
pub open spec fn spec_proxy_url(
    base: Seq<char>,
    target: Seq<char>,
    key: Seq<char>,
    ver: Seq<char>,
    t: u64,
) -> Seq<char> {
    let u = spec_url_to_sign(base, target, t);
    u + seq!['&', 's', 'i', 'g', '='] + spec_sign(u, key, ver)
}

/// Builds the signed proxy URL for a target URL at a given timestamp. The
/// timestamp is part of the signed string, so two calls with different
/// timestamps yield different, independently valid URLs.
pub fn build_proxy_url(proxy_url: &str, base_url: &str, key: &str, ver: &str, t: u64) -> (r:
    String)
    ensures
        r@ == spec_proxy_url(proxy_url@, base_url@, key@, ver@, t),
        y64_of(md5_of(spec_url_to_sign(proxy_url@, base_url@, t) + key@)).len() == 24,
        form_encoded_props(base_url@),
        form_encoded_injective(),
{
    let pair = urlencode_pair("url", base_url);
    proof {
        reveal_strlit("url");
        let name = "url"@;
        assert forall|i: int| 0 <= i < name.len() implies is_alnum_char(#[trigger] name[i]) by {
            if i == 0 {
                assert(name[0] == 'u');
            } else if i == 1 {
                assert(name[1] == 'r');
            } else {
                assert(name[2] == 'l');
            }
        }
        assert(form_encoded_of(name) == name);
    }
    let mut u = String::from_str(proxy_url);
    u.append("?");
    u.append(pair.as_str());
    u.append("&t=");
    let ts = crate::digits::u64_to_dec(t);
    u.append(ts.as_str());
    proof {
        reveal_strlit("?");
        reveal_strlit("&t=");
        assert(u@ =~= spec_url_to_sign(proxy_url@, base_url@, t));
    }
    let sig = crate::signer::sign_url(u.as_str(), key, ver);
    u.append("&sig=");
    u.append(sig.as_str());
    proof {
        reveal_strlit("&sig=");
        assert(u@ =~= spec_proxy_url(proxy_url@, base_url@, key@, ver@, t));
    }
    u
}

/// Builds the signed proxy URL for the present moment: the timestamp is
/// read from the wall clock, so the result is a proxy URL for some
/// timestamp, not a function of the arguments alone. A clock before the
/// Unix epoch reads as timestamp 0.
pub fn generate_proxy_url(proxy_url: &str, base_url: &str, key: &str, ver: &str) -> (r: String)
    ensures
        exists|t: u64|
            #![auto]
            r@ == spec_proxy_url(proxy_url@, base_url@, key@, ver@, t) && y64_of(
                md5_of(spec_url_to_sign(proxy_url@, base_url@, t) + key@),
            ).len() == 24,
        form_encoded_props(base_url@),
        form_encoded_injective(),
{
    let t: u64 = match unix_now_seconds() {
        Some(seconds) => seconds,
        None => 0,
    };
    let r = build_proxy_url(proxy_url, base_url, key, ver, t);
    proof {
        assert(r@ == spec_proxy_url(proxy_url@, base_url@, key@, ver@, t));
    }
    r
}

/// The base endpoint of the first proxy destination.
pub fn ec_proxy_base() -> (r: &'static str)
    ensures
        r@ == "https://ec.yimg.com/ec"@,
{
    "https://ec.yimg.com/ec"
}

/// The base endpoint of the second proxy destination.
pub fn mail_proxy_base() -> (r: &'static str)
    ensures
        r@ == "https://ecp.yusercontent.com/mail"@,
{
    "https://ecp.yusercontent.com/mail"
}

/// The shape of a signed proxy URL: the signed prefix, `&sig=`, a Y64
/// signature body, `~`, and the version letter; the timestamp part is a
/// nonempty run of decimal digits.
pub proof fn lemma_proxy_url_shape(
    base: Seq<char>,
    target: Seq<char>,
    key: Seq<char>,
    ver: Seq<char>,
    t: u64,
)
    ensures
        spec_proxy_url(base, target, key, ver, t) == spec_url_to_sign(base, target, t) + seq![
            '&',
            's',
            'i',
            'g',
            '=',
        ] + y64_of(md5_of(spec_url_to_sign(base, target, t) + key)) + seq!['~'] + ver,
        forall|i: int|
            0 <= i < y64_of(md5_of(spec_url_to_sign(base, target, t) + key)).len()
                ==> is_y64_char(
                #[trigger] y64_of(md5_of(spec_url_to_sign(base, target, t) + key))[i],
            ),
        y64_of(md5_of(spec_url_to_sign(base, target, t) + key)).len() == 4 * ((md5_of(
            spec_url_to_sign(base, target, t) + key,
        ).len() + 2) / 3),
        dec_of(t as nat).len() >= 1,
        forall|i: int|
            0 <= i < dec_of(t as nat).len() ==> is_dec_digit(#[trigger] dec_of(t as nat)[i]),
{
    let u = spec_url_to_sign(base, target, t);
    crate::codec::lemma_y64_alphabet(md5_of(u + key));
    crate::codec::lemma_y64_len(md5_of(u + key));
    crate::digits::lemma_dec_of_digits(t as nat);
    assert(spec_proxy_url(base, target, key, ver, t) =~= u + seq!['&', 's', 'i', 'g', '=']
        + y64_of(md5_of(u + key)) + seq!['~'] + ver);
}

} // verus!
