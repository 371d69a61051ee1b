//! Decimal digit strings: rendering an unsigned number and reading a small
//! one back, as the signed proxy URLs carry their timestamp in decimal.

use vstd::prelude::*;

verus! {

pub open spec fn dec_alphabet() -> Seq<char> {
    "0123456789"@
}

/// A decimal digit character.
pub open spec fn is_dec_digit(c: char) -> bool {
    48 <= c as u32 && c as u32 <= 57
}

/// The character for one digit value.
pub open spec fn digit_char(d: int) -> char
    recommends
        0 <= d < 10,
{
    dec_alphabet()[d]
}

/// The decimal rendering of a number, most significant digit first, with no
/// sign and no leading zero except for the number zero itself.
pub open spec fn dec_of(n: nat) -> Seq<char>
    decreases n,
{
    if n < 10 {
        seq![digit_char(n as int)]
    } else {
        dec_of(n / 10).push(digit_char((n % 10) as int))
    }
}

proof fn lemma_dec_alphabet()
    ensures
        dec_alphabet().len() == 10,
        forall|d: int| 0 <= d < 10 ==> is_dec_digit(#[trigger] digit_char(d)),
{
    reveal_strlit("0123456789");
    assert forall|d: int| 0 <= d < 10 implies is_dec_digit(#[trigger] digit_char(d)) by {
        if d == 0 {
            assert(digit_char(0) == '0');
        } else if d == 1 {
            assert(digit_char(1) == '1');
        } else if d == 2 {
            assert(digit_char(2) == '2');
        } else if d == 3 {
            assert(digit_char(3) == '3');
        } else if d == 4 {
            assert(digit_char(4) == '4');
        } else if d == 5 {
            assert(digit_char(5) == '5');
        } else if d == 6 {
            assert(digit_char(6) == '6');
        } else if d == 7 {
            assert(digit_char(7) == '7');
        } else if d == 8 {
            assert(digit_char(8) == '8');
        } else {
            assert(digit_char(9) == '9');
        }
    }
}

/// A decimal rendering is never empty and holds digit characters only.
pub proof fn lemma_dec_of_digits(n: nat)
    ensures
        dec_of(n).len() >= 1,
        forall|i: int| 0 <= i < dec_of(n).len() ==> is_dec_digit(#[trigger] dec_of(n)[i]),
    decreases n,
{
    lemma_dec_alphabet();
    if n >= 10 {
        lemma_dec_of_digits(n / 10);
        let prefix = dec_of(n / 10);
        assert forall|i: int| 0 <= i < dec_of(n).len() implies is_dec_digit(
            #[trigger] dec_of(n)[i],
        ) by {
            if i < prefix.len() {
                assert(dec_of(n)[i] == prefix[i]);
            } else {
                assert(dec_of(n)[i] == digit_char((n % 10) as int));
            }
        }
    }
}

fn digit_char_at(d: u64) -> (c: char)
    requires
        d < 10,
    ensures
        c == digit_char(d as int),
{
    let digits = "0123456789";
    proof {
        reveal_strlit("0123456789");
    }
    digits.get_char(d as usize)
}

/// Renders a number in decimal.
pub fn u64_to_dec(n: u64) -> (r: String)
    ensures
        r@ == dec_of(n as nat),
    decreases n,
{
    if n < 10 {
        let mut s = String::new();
        s.push(digit_char_at(n));
        proof {
            assert(s@ =~= dec_of(n as nat));
        }
        s
    } else {
        let mut s = u64_to_dec(n / 10);
        s.push(digit_char_at(n % 10));
        proof {
            assert(s@ =~= dec_of(n as nat));
        }
        s
    }
}

} // verus!
