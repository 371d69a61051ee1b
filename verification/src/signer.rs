//! URL signing: the MD5 digest of the string to sign concatenated with the
//! secret key, Y64-encoded, followed by `~` and the key-version letter.

use vstd::prelude::*;
use vstd::string::StringExecFns;
use crate::codec::y64_of;
use crate::digits::is_dec_digit;

verus! {

/// The 16-byte MD5 digest of a string's bytes; a function of the string
/// alone.
pub uninterp spec fn md5_of(s: Seq<char>) -> Seq<u8>;

/// Relies on md5::compute: the MD5 digest of the input bytes, 16 bytes
/// long and a function of the input alone.
#[verifier::external_body]
fn md5_digest(s: &str) -> (r: Vec<u8>)
    ensures
        r@ == md5_of(s@),
        r@.len() == 16,
{
    md5::compute(s).0.to_vec()
}

/// The signature of `url` under `key`: the Y64-encoded MD5 digest of the
/// URL immediately followed by the key, then `~` and the version letter.
pub open spec fn spec_sign(url: Seq<char>, key: Seq<char>, ver: Seq<char>) -> Seq<char> {
    y64_of(md5_of(url + key)) + seq!['~'] + ver
}

/// Signs a URL string with a secret key and a key-version tag. The
/// 16-byte digest encodes to 24 characters (22 symbols and two `-`
/// padding characters), so the signature is 25 characters plus the tag.
pub fn sign_url(url: &str, key: &str, ver: &str) -> (r: String)
    ensures
        r@ == spec_sign(url@, key@, ver@),
        md5_of(url@ + key@).len() == 16,
        y64_of(md5_of(url@ + key@)).len() == 24,
        r@.len() == 25 + ver@.len(),
{
    let mut combined = String::from_str(url);
    combined.append(key);
    let digest = md5_digest(combined.as_str());
    let mut out = crate::codec::y64_encode(digest.as_slice());
    out.append("~");
    out.append(ver);
    proof {
        reveal_strlit("~");
        crate::codec::lemma_y64_len(md5_of(url@ + key@));
        assert(out@ =~= spec_sign(url@, key@, ver@));
    }
    out
}

/// Signing is deterministic: with the string to sign, the key and the
/// version fixed, any two signatures are the same string. Each call of
/// `sign_url` returns `spec_sign` of its inputs, so any two calls on equal
/// inputs return equal signatures.
pub proof fn lemma_sign_deterministic(
    r1: Seq<char>,
    r2: Seq<char>,
    url: Seq<char>,
    key: Seq<char>,
    ver: Seq<char>,
)
    requires
        r1 == spec_sign(url, key, ver),
        r2 == spec_sign(url, key, ver),
    ensures
        r1 == r2,
{
}

pub open spec fn all_dec_digits(s: Seq<char>) -> bool {
    forall|i: int| 0 <= i < s.len() ==> is_dec_digit(#[trigger] s[i])
}

/// The number a digit string stands for.
pub open spec fn dec_val(s: Seq<char>) -> int
    decreases s.len(),
{
    if s.len() == 0 {
        0
    } else {
        dec_val(s.drop_last()) * 10 + (s.last() as u32 - 48)
    }
}

/// The digit part of a version numeral: everything after one optional
/// leading `+` sign.
pub open spec fn version_digits(s: Seq<char>) -> Seq<char> {
    if s.len() > 0 && s[0] == '+' {
        s.skip(1)
    } else {
        s
    }
}

/// A key-version string is valid when, after one optional leading `+`, it
/// is all decimal digits and names a number between 1 and 26.
pub open spec fn valid_version(s: Seq<char>) -> bool {
    version_digits(s).len() > 0 && all_dec_digits(version_digits(s)) && 1 <= dec_val(
        version_digits(s),
    ) <= 26
}

pub open spec fn upper_alphabet() -> Seq<char> {
    "ABCDEFGHIJKLMNOPQRSTUVWXYZ"@
}

/// The letter tag of a key version: 1 is `A`, 26 is `Z`.
pub open spec fn version_letter(v: int) -> char
    recommends
        1 <= v <= 26,
{
    upper_alphabet()[v - 1]
}

/// `dec_val` capped just above the largest valid version, the running value
/// the parser keeps so it never overflows.
spec fn capped_val(s: Seq<char>) -> int {
    if dec_val(s) <= 27 {
        dec_val(s)
    } else {
        27
    }
}

proof fn lemma_dec_val_nonneg(s: Seq<char>)
    requires
        all_dec_digits(s),
    ensures
        dec_val(s) >= 0,
    decreases s.len(),
{
    if s.len() > 0 {
        assert(all_dec_digits(s.drop_last())) by {
            assert(forall|i: int|
                0 <= i < s.len() - 1 ==> #[trigger] s.drop_last()[i] == s[i]);
        }
        lemma_dec_val_nonneg(s.drop_last());
    }
}

/// Turns a key-version numeral, given in decimal with one optional
/// leading `+`, into its letter tag; `None` when the string is not a
/// number between 1 and 26.
pub fn number_to_letter(num_str: &str) -> (r: Option<String>)
    ensures
        match r {
            Some(l) => valid_version(num_str@) && l@ == seq![
                version_letter(dec_val(version_digits(num_str@))),
            ],
            None => !valid_version(num_str@),
        },
{
    let n = num_str.unicode_len();
    if n == 0 {
        return None;
    }
    let start: usize = if num_str.get_char(0) == '+' {
        1
    } else {
        0
    };
    proof {
        assert(version_digits(num_str@) =~= num_str@.skip(start as int));
    }
    if n == start {
        return None;
    }
    let mut i: usize = start;
    let mut v: u32 = 0;
    while i < n
        invariant
            n == num_str@.len(),
            start <= i <= n,
            start < n,
            version_digits(num_str@) == num_str@.skip(start as int),
            all_dec_digits(num_str@.subrange(start as int, i as int)),
            v == capped_val(num_str@.subrange(start as int, i as int)),
            v <= 27,
        decreases n - i,
    {
        let c = num_str.get_char(i);
        let u = c as u32;
        if u < 48 || u > 57 {
            proof {
                assert(version_digits(num_str@)[i - start] == num_str@[i as int]);
                assert(!is_dec_digit(version_digits(num_str@)[i - start]));
                assert(!all_dec_digits(version_digits(num_str@)));
            }
            return None;
        }
        let d = u - 48;
        let t = v * 10 + d;
        proof {
            let prefix = num_str@.subrange(start as int, i as int);
            let next = num_str@.subrange(start as int, i as int + 1);
            assert(next.drop_last() =~= prefix);
            assert(next.last() == num_str@[i as int]);
            assert(dec_val(next) == dec_val(prefix) * 10 + d);
            lemma_dec_val_nonneg(prefix);
            assert(all_dec_digits(next)) by {
                assert(forall|j: int| 0 <= j < i - start ==> next[j] == prefix[j]);
            }
        }
        v = if t > 27 {
            27
        } else {
            t
        };
        i = i + 1;
    }
    proof {
        assert(num_str@.subrange(start as int, n as int) =~= num_str@.skip(start as int));
    }
    if 1 <= v && v <= 26 {
        let letters = "ABCDEFGHIJKLMNOPQRSTUVWXYZ";
        proof {
            reveal_strlit("ABCDEFGHIJKLMNOPQRSTUVWXYZ");
        }
        let letter = letters.get_char((v - 1) as usize);
        let mut out = String::new();
        out.push(letter);
        proof {
            assert(out@ =~= seq![version_letter(dec_val(version_digits(num_str@)))]);
        }
        Some(out)
    } else {
        None
    }
}

} // verus!
