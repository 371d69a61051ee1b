//! The Y64 encoding: base64 over the alphabet `A-Za-z0-9._`, with the
//! padding character `=` replaced by `-`, so that an encoded value can stand
//! in a URL query parameter without further escaping.

use vstd::prelude::*;

verus! {

/// Appending one character to a `String`; the standard library documents
/// `String::push` as appending the given `char` to the end of the string.
pub assume_specification[ String::push ](s: &mut String, c: char)
    ensures
        final(s)@ == old(s)@.push(c),
;

/// The 64 data symbols of the Y64 encoding, in value order.
pub open spec fn y64_alphabet() -> Seq<char> {
    "ABCDEFGHIJKLMNOPQRSTUVWXYZabcdefghijklmnopqrstuvwxyz0123456789._"@
}

/// The symbol for a six-bit value.
pub open spec fn y64_char(i: int) -> char
    recommends
        0 <= i < 64,
{
    y64_alphabet()[i]
}

/// The characters that a Y64-encoded string may contain: the 64 data
/// symbols together with the padding character `-`.
pub open spec fn is_y64_char(c: char) -> bool {
    y64_alphabet().contains(c) || c == '-'
}

/// The four symbols that encode one full group of three bytes.
pub open spec fn y64_group(b0: u8, b1: u8, b2: u8) -> Seq<char> {
    seq![
        y64_char((b0 >> 2) as int),
        y64_char((((b0 & 3) << 4) | (b1 >> 4)) as int),
        y64_char((((b1 & 15) << 2) | (b2 >> 6)) as int),
        y64_char((b2 & 63) as int),
    ]
}

/// The Y64 encoding of a byte sequence: full three-byte groups become four
/// symbols each; a final group of one or two bytes is padded with `-`.
pub open spec fn y64_of(bytes: Seq<u8>) -> Seq<char>
    decreases bytes.len(),
{
    if bytes.len() >= 3 {
        y64_group(bytes[0], bytes[1], bytes[2]) + y64_of(bytes.skip(3))
    } else if bytes.len() == 2 {
        seq![
            y64_char((bytes[0] >> 2) as int),
            y64_char((((bytes[0] & 3) << 4) | (bytes[1] >> 4)) as int),
            y64_char(((bytes[1] & 15) << 2) as int),
            '-',
        ]
    } else if bytes.len() == 1 {
        seq![
            y64_char((bytes[0] >> 2) as int),
            y64_char(((bytes[0] & 3) << 4) as int),
            '-',
            '-',
        ]
    } else {
        Seq::empty()
    }
}

/// Every six-bit value computed while encoding lies below 64, so it indexes
/// the alphabet.
proof fn lemma_sextet_bounds(b0: u8, b1: u8, b2: u8)
    ensures
        b0 >> 2 < 64,
        ((b0 & 3) << 4) | (b1 >> 4) < 64,
        ((b1 & 15) << 2) | (b2 >> 6) < 64,
        b2 & 63 < 64,
        (b0 & 3) << 4 < 64,
        (b1 & 15) << 2 < 64,
{
    assert(b0 >> 2 < 64) by (bit_vector);
    assert(((b0 & 3) << 4) | (b1 >> 4) < 64) by (bit_vector);
    assert(((b1 & 15) << 2) | (b2 >> 6) < 64) by (bit_vector);
    assert(b2 & 63 < 64) by (bit_vector);
    assert((b0 & 3) << 4 < 64) by (bit_vector);
    assert((b1 & 15) << 2 < 64) by (bit_vector);
}

proof fn lemma_alphabet_len()
    ensures
        y64_alphabet().len() == 64,
{
    reveal_strlit("ABCDEFGHIJKLMNOPQRSTUVWXYZabcdefghijklmnopqrstuvwxyz0123456789._");
}

/// Splitting a byte sequence at a group boundary splits its encoding.
proof fn lemma_y64_of_split(bytes: Seq<u8>, i: int)
    requires
        0 <= i <= bytes.len(),
        i % 3 == 0,
    ensures
        y64_of(bytes) == y64_of(bytes.take(i)) + y64_of(bytes.skip(i)),
    decreases i,
{
    if i == 0 {
        assert(bytes.take(0) =~= Seq::<u8>::empty());
        assert(bytes.skip(0) =~= bytes);
        assert(y64_of(bytes) =~= y64_of(bytes.take(0)) + y64_of(bytes.skip(0)));
    } else {
        let rest = bytes.skip(3);
        lemma_y64_of_split(rest, i - 3);
        assert(bytes.take(i).skip(3) =~= rest.take(i - 3));
        assert(bytes.skip(i) =~= rest.skip(i - 3));
        assert(bytes.take(i)[0] == bytes[0]);
        assert(bytes.take(i)[1] == bytes[1]);
        assert(bytes.take(i)[2] == bytes[2]);
        assert(y64_of(bytes.take(i)) == y64_group(bytes[0], bytes[1], bytes[2]) + y64_of(
            rest.take(i - 3),
        ));
        assert(y64_of(bytes.take(i)) + y64_of(bytes.skip(i)) =~= y64_group(
            bytes[0],
            bytes[1],
            bytes[2],
        ) + (y64_of(rest.take(i - 3)) + y64_of(rest.skip(i - 3))));
    }
}

/// The encoding of `n` bytes has `4 * ceil(n / 3)` characters.
pub proof fn lemma_y64_len(bytes: Seq<u8>)
    ensures
        y64_of(bytes).len() == 4 * ((bytes.len() + 2) / 3),
    decreases bytes.len(),
{
    if bytes.len() >= 3 {
        lemma_y64_len(bytes.skip(3));
    }
}

/// Every character of a Y64 encoding is drawn from `A-Za-z0-9._-`.
pub proof fn lemma_y64_alphabet(bytes: Seq<u8>)
    ensures
        forall|i: int| 0 <= i < y64_of(bytes).len() ==> is_y64_char(#[trigger] y64_of(bytes)[i]),
    decreases bytes.len(),
{
    lemma_alphabet_len();
    if bytes.len() >= 3 {
        lemma_y64_alphabet(bytes.skip(3));
        lemma_sextet_bounds(bytes[0], bytes[1], bytes[2]);
        let g = y64_group(bytes[0], bytes[1], bytes[2]);
        let rest = y64_of(bytes.skip(3));
        assert forall|i: int| 0 <= i < y64_of(bytes).len() implies is_y64_char(
            #[trigger] y64_of(bytes)[i],
        ) by {
            if i < 4 {
                assert(y64_of(bytes)[i] == g[i]);
                assert(y64_alphabet().contains(g[i]));
            } else {
                assert(y64_of(bytes)[i] == rest[i - 4]);
            }
        }
    } else if bytes.len() == 2 {
        lemma_sextet_bounds(bytes[0], bytes[1], 0);
        let e = y64_of(bytes);
        assert forall|i: int| 0 <= i < e.len() implies is_y64_char(#[trigger] e[i]) by {
            if i == 0 {
                assert(y64_alphabet().contains(e[0]));
            } else if i == 1 {
                assert(y64_alphabet().contains(e[1]));
            } else if i == 2 {
                assert(y64_alphabet().contains(e[2]));
            } else {
                assert(e[3] == '-');
            }
        }
    } else if bytes.len() == 1 {
        lemma_sextet_bounds(bytes[0], 0, 0);
        let e = y64_of(bytes);
        assert forall|i: int| 0 <= i < e.len() implies is_y64_char(#[trigger] e[i]) by {
            if i == 0 {
                assert(y64_alphabet().contains(e[0]));
            } else if i == 1 {
                assert(y64_alphabet().contains(e[1]));
            } else {
                assert(e[i] == '-');
            }
        }
    }
}

/// The padding character is not one of the 64 data symbols.
pub proof fn lemma_pad_not_data()
    ensures
        !y64_alphabet().contains('-'),
{
    reveal_strlit("ABCDEFGHIJKLMNOPQRSTUVWXYZabcdefghijklmnopqrstuvwxyz0123456789._");
}

/// A byte sequence one byte past a group boundary — such as a 16-byte
/// digest — encodes with exactly two trailing `-` padding characters, and
/// a data symbol everywhere before them.
pub proof fn lemma_y64_padding(bytes: Seq<u8>)
    requires
        bytes.len() % 3 == 1,
    ensures
        y64_of(bytes).len() >= 4,
        y64_of(bytes)[y64_of(bytes).len() - 1] == '-',
        y64_of(bytes)[y64_of(bytes).len() - 2] == '-',
        forall|i: int|
            0 <= i < y64_of(bytes).len() - 2 ==> y64_alphabet().contains(
                #[trigger] y64_of(bytes)[i],
            ),
    decreases bytes.len(),
{
    lemma_alphabet_len();
    if bytes.len() == 1 {
        lemma_sextet_bounds(bytes[0], 0, 0);
        let e = y64_of(bytes);
        assert forall|i: int| 0 <= i < e.len() - 2 implies y64_alphabet().contains(
            #[trigger] e[i],
        ) by {
            if i == 0 {
                assert(y64_alphabet().contains(e[0]));
            } else {
                assert(y64_alphabet().contains(e[1]));
            }
        }
    } else {
        lemma_y64_padding(bytes.skip(3));
        lemma_sextet_bounds(bytes[0], bytes[1], bytes[2]);
        let g = y64_group(bytes[0], bytes[1], bytes[2]);
        let rest = y64_of(bytes.skip(3));
        let e = y64_of(bytes);
        assert(e == g + rest);
        assert(e[e.len() - 1] == rest[rest.len() - 1]);
        assert(e[e.len() - 2] == rest[rest.len() - 2]);
        assert forall|i: int| 0 <= i < e.len() - 2 implies y64_alphabet().contains(
            #[trigger] e[i],
        ) by {
            if i < 4 {
                assert(e[i] == g[i]);
                assert(y64_alphabet().contains(g[i]));
            } else {
                assert(e[i] == rest[i - 4]);
            }
        }
    }
}

/// The symbol for a six-bit value, looked up in the alphabet.
fn y64_char_at(i: u8) -> (c: char)
    requires
        i < 64,
    ensures
        c == y64_char(i as int),
{
    let alpha = "ABCDEFGHIJKLMNOPQRSTUVWXYZabcdefghijklmnopqrstuvwxyz0123456789._";
    proof {
        lemma_alphabet_len();
    }
    alpha.get_char(i as usize)
}

/// Encodes a byte sequence as Y64: base64 over `A-Za-z0-9._` with `-` as
/// the padding character.
pub fn y64_encode(src: &[u8]) -> (r: String)
    ensures
        r@ == y64_of(src@),
{
    let mut out = String::new();
    let mut i: usize = 0;
    while src.len() - i >= 3
        invariant
            i <= src.len(),
            i % 3 == 0,
            out@ == y64_of(src@.take(i as int)),
        decreases src.len() - i,
    {
        let b0 = src[i];
        let b1 = src[i + 1];
        let b2 = src[i + 2];
        proof {
            lemma_sextet_bounds(b0, b1, b2);
        }
        out.push(y64_char_at(b0 >> 2));
        out.push(y64_char_at(((b0 & 3) << 4) | (b1 >> 4)));
        out.push(y64_char_at(((b1 & 15) << 2) | (b2 >> 6)));
        out.push(y64_char_at(b2 & 63));
        proof {
            let pre = src@.take(i as int + 3);
            lemma_y64_of_split(pre, i as int);
            assert(pre.take(i as int) =~= src@.take(i as int));
            let s3 = seq![b0, b1, b2];
            assert(pre.skip(i as int) =~= s3);
            assert(s3.skip(3) =~= Seq::<u8>::empty());
            assert(y64_of(s3.skip(3)) =~= Seq::<char>::empty());
            assert(s3[0] == b0 && s3[1] == b1 && s3[2] == b2);
            assert(y64_of(s3) =~= y64_group(b0, b1, b2));
            assert(out@ =~= y64_of(pre));
        }
        i = i + 3;
    }
    proof {
        lemma_y64_of_split(src@, i as int);
    }
    if src.len() - i == 2 {
        let b0 = src[i];
        let b1 = src[i + 1];
        proof {
            lemma_sextet_bounds(b0, b1, 0);
            assert(src@.skip(i as int) =~= seq![b0, b1]);
        }
        out.push(y64_char_at(b0 >> 2));
        out.push(y64_char_at(((b0 & 3) << 4) | (b1 >> 4)));
        out.push(y64_char_at((b1 & 15) << 2));
        out.push('-');
        assert(out@ =~= y64_of(src@.take(i as int)) + y64_of(src@.skip(i as int)));
    } else if src.len() - i == 1 {
        let b0 = src[i];
        proof {
            lemma_sextet_bounds(b0, 0, 0);
            assert(src@.skip(i as int) =~= seq![b0]);
        }
        out.push(y64_char_at(b0 >> 2));
        out.push(y64_char_at((b0 & 3) << 4));
        out.push('-');
        out.push('-');
        assert(out@ =~= y64_of(src@.take(i as int)) + y64_of(src@.skip(i as int)));
    } else {
        proof {
            assert(src@.skip(i as int) =~= Seq::<u8>::empty());
            assert(src@.take(i as int) =~= src@);
            assert(out@ =~= y64_of(src@.take(i as int)) + y64_of(src@.skip(i as int)));
        }
    }
    out
}

} // verus!
