use vstd::prelude::*;

use crate::text::push_char;

verus! {

/// The character of the standard Base64 alphabet (RFC 4648) for `n < 64`.
pub open spec fn b64_char(n: u8) -> char {
    if n < 26 {
        ('A' as u8 + n) as char
    } else if n < 52 {
        ('a' as u8 + (n - 26)) as char
    } else if n < 62 {
        ('0' as u8 + (n - 52)) as char
    } else if n == 62 {
        '+'
    } else {
        '/'
    }
}

/// Base64 with `=` padding: each group of three bytes becomes four characters;
/// a last group of one or two bytes is filled with zero bits and padded.
pub open spec fn base64(d: Seq<u8>) -> Seq<char>
    decreases d.len(),
{
    if d.len() == 0 {
        seq![]
    } else if d.len() == 1 {
        seq![b64_char(d[0] >> 2), b64_char((d[0] & 3) << 4), '=', '=']
    } else if d.len() == 2 {
        seq![
            b64_char(d[0] >> 2),
            b64_char(((d[0] & 3) << 4) | (d[1] >> 4)),
            b64_char((d[1] & 15) << 2),
            '=',
        ]
    } else {
        seq![
            b64_char(d[0] >> 2),
            b64_char(((d[0] & 3) << 4) | (d[1] >> 4)),
            b64_char(((d[1] & 15) << 2) | (d[2] >> 6)),
            b64_char(d[2] & 63),
        ] + base64(d.skip(3))
    }
}

fn b64_digit(n: u8) -> (c: char)
    requires
        n < 64,
    ensures
        c == b64_char(n),
{
    if n < 26 {
        ('A' as u8 + n) as char
    } else if n < 52 {
        ('a' as u8 + (n - 26)) as char
    } else if n < 62 {
        ('0' as u8 + (n - 52)) as char
    } else if n == 62 {
        '+'
    } else {
        '/'
    }
}

proof fn lemma_sextets(b0: u8, b1: u8, b2: u8)
    ensures
        b0 >> 2 < 64,
        (b0 & 3) << 4 < 64,
        ((b0 & 3) << 4) | (b1 >> 4) < 64,
        (b1 & 15) << 2 < 64,
        ((b1 & 15) << 2) | (b2 >> 6) < 64,
        b2 & 63 < 64,
{
    assert(b0 >> 2 < 64) by (bit_vector);
    assert((b0 & 3) << 4 < 64) by (bit_vector);
    assert(((b0 & 3) << 4) | (b1 >> 4) < 64) by (bit_vector);
    assert((b1 & 15) << 2 < 64) by (bit_vector);
    assert(((b1 & 15) << 2) | (b2 >> 6) < 64) by (bit_vector);
    assert(b2 & 63 < 64) by (bit_vector);
}

/// Base64-encodes the bytes, with `=` padding.
pub fn base64_encode(data: &[u8]) -> (r: String)
    ensures
        r@ == base64(data@),
{
    let mut r = String::new();
    let n = data.len();
    let mut i: usize = 0;
    assert(data@.skip(0) == data@);
    while i < n
        invariant
            i <= n == data@.len(),
            base64(data@) == r@ + base64(data@.skip(i as int)),
        decreases n - i,
    {
        let ghost rest = data@.skip(i as int);
        let ghost old_r = r@;
        let b0 = data[i];
        let b1 = if n - i > 1 { data[i + 1] } else { 0 };
        let b2 = if n - i > 2 { data[i + 2] } else { 0 };
        proof {
            lemma_sextets(b0, b1, b2);
        }
        push_char(&mut r, b64_digit(b0 >> 2));
        push_char(&mut r, b64_digit(((b0 & 3) << 4) | (b1 >> 4)));
        if n - i > 1 {
            push_char(&mut r, b64_digit(((b1 & 15) << 2) | (b2 >> 6)));
        } else {
            push_char(&mut r, '=');
        }
        if n - i > 2 {
            push_char(&mut r, b64_digit(b2 & 63));
        } else {
            push_char(&mut r, '=');
        }
        proof {
            assert(rest[0] == b0);
            if n - i == 1 {
                assert((b0 & 3) << 4 == ((b0 & 3) << 4) | (0u8 >> 4)) by (bit_vector);
                assert(r@ == old_r + base64(rest));
                assert(data@.skip(n as int) == Seq::<u8>::empty());
            } else if n - i == 2 {
                assert(rest[1] == b1);
                assert((b1 & 15) << 2 == ((b1 & 15) << 2) | (0u8 >> 6)) by (bit_vector);
                assert(r@ == old_r + base64(rest));
                assert(data@.skip(n as int) == Seq::<u8>::empty());
            } else {
                assert(rest[1] == b1);
                assert(rest[2] == b2);
                assert(rest.skip(3) == data@.skip(i + 3));
            }
        }
        if n - i < 3 {
            i = n;
        } else {
            i += 3;
        }
    }
    assert(data@.skip(n as int) == Seq::<u8>::empty());
    r
}


/// A character of the Base64 alphabet.
pub open spec fn is_b64_char(c: char) -> bool {
    'A' <= c <= 'Z' || 'a' <= c <= 'z' || '0' <= c <= '9' || c == '+' || c == '/'
}

/// The six bits that an alphabet character stands for.
pub open spec fn b64_value(c: char) -> u8 {
    if 'A' <= c <= 'Z' {
        (c as int - 'A' as int) as u8
    } else if 'a' <= c <= 'z' {
        (c as int - 'a' as int + 26) as u8
    } else if '0' <= c <= '9' {
        (c as int - '0' as int + 52) as u8
    } else if c == '+' {
        62
    } else {
        63
    }
}

/// Base64 decoding of padded text: each group of four characters gives three
/// bytes, or fewer when the group ends in `=`.
pub open spec fn base64_decode(t: Seq<char>) -> Seq<u8>
    decreases t.len(),
{
    if t.len() < 4 {
        seq![]
    } else {
        let a = b64_value(t[0]);
        let b = b64_value(t[1]);
        let c = b64_value(t[2]);
        let d = b64_value(t[3]);
        let x0 = (a << 2) | (b >> 4);
        let x1 = (b << 4) | (c >> 2);
        let x2 = (c << 6) | d;
        if t[2] == '=' {
            seq![x0]
        } else if t[3] == '=' {
            seq![x0, x1]
        } else {
            seq![x0, x1, x2] + base64_decode(t.skip(4))
        }
    }
}

proof fn lemma_b64_char(n: u8)
    requires
        n < 64,
    ensures
        is_b64_char(b64_char(n)),
        b64_char(n) != '=',
        b64_value(b64_char(n)) == n,
{
}

proof fn lemma_regroup(b0: u8, b1: u8, b2: u8)
    ensures
        (((b0 >> 2) << 2) | ((((b0 & 3) << 4) | (b1 >> 4)) >> 4)) == b0,
        ((((b0 & 3) << 4) | (b1 >> 4)) << 4) | ((((b1 & 15) << 2) | (b2 >> 6)) >> 2) == b1,
        ((((b1 & 15) << 2) | (b2 >> 6)) << 6) | (b2 & 63) == b2,
        (((b0 >> 2) << 2) | (((b0 & 3) << 4) >> 4)) == b0,
        ((((b0 & 3) << 4) | (b1 >> 4)) << 4) | (((b1 & 15) << 2) >> 2) == b1,
{
    assert((((b0 >> 2) << 2) | ((((b0 & 3) << 4) | (b1 >> 4)) >> 4)) == b0) by (bit_vector);
    assert(((((b0 & 3) << 4) | (b1 >> 4)) << 4) | ((((b1 & 15) << 2) | (b2 >> 6)) >> 2) == b1)
        by (bit_vector);
    assert(((((b1 & 15) << 2) | (b2 >> 6)) << 6) | (b2 & 63) == b2) by (bit_vector);
    assert((((b0 >> 2) << 2) | (((b0 & 3) << 4) >> 4)) == b0) by (bit_vector);
    assert(((((b0 & 3) << 4) | (b1 >> 4)) << 4) | (((b1 & 15) << 2) >> 2) == b1) by (bit_vector);
}

/// Decoding what `base64_encode` wrote gives back the bytes it was given.
pub proof fn law_base64_roundtrip(d: Seq<u8>)
    ensures
        base64_decode(base64(d)) == d,
    decreases d.len(),
{
    if d.len() > 0 {
        let b0 = d[0];
        let b1: u8 = if d.len() > 1 { d[1] } else { 0 };
        let b2: u8 = if d.len() > 2 { d[2] } else { 0 };
        lemma_sextets(b0, b1, b2);
        lemma_regroup(b0, b1, b2);
        lemma_b64_char(b0 >> 2);
        lemma_b64_char(((b0 & 3) << 4) | (b1 >> 4));
        lemma_b64_char((b0 & 3) << 4);
        lemma_b64_char(((b1 & 15) << 2) | (b2 >> 6));
        lemma_b64_char((b1 & 15) << 2);
        lemma_b64_char(b2 & 63);
        let t = base64(d);
        if d.len() == 1 {
            assert(d == seq![b0]);
        } else if d.len() == 2 {
            assert(d == seq![b0, b1]);
        } else {
            law_base64_roundtrip(d.skip(3));
            assert(t.skip(4) == base64(d.skip(3)));
            assert(d == seq![b0, b1, b2] + d.skip(3));
        }
    }
}

/// Four characters for every started group of three bytes.
pub proof fn law_base64_length(d: Seq<u8>)
    ensures
        base64(d).len() == 4 * ((d.len() + 2) / 3),
    decreases d.len(),
{
    if d.len() > 2 {
        law_base64_length(d.skip(3));
    }
}

/// Only alphabet characters and `=` padding, and `=` only in the last group.
pub proof fn law_base64_alphabet(d: Seq<u8>)
    ensures
        forall|i: int|
            0 <= i < base64(d).len() ==> is_b64_char(#[trigger] base64(d)[i]) || (base64(d)[i]
                == '=' && i >= base64(d).len() - 2),
    decreases d.len(),
{
    if d.len() > 0 {
        let b0 = d[0];
        let b1: u8 = if d.len() > 1 { d[1] } else { 0 };
        let b2: u8 = if d.len() > 2 { d[2] } else { 0 };
        lemma_sextets(b0, b1, b2);
        lemma_b64_char(b0 >> 2);
        lemma_b64_char(((b0 & 3) << 4) | (b1 >> 4));
        lemma_b64_char((b0 & 3) << 4);
        lemma_b64_char(((b1 & 15) << 2) | (b2 >> 6));
        lemma_b64_char((b1 & 15) << 2);
        lemma_b64_char(b2 & 63);
        if d.len() > 2 {
            law_base64_alphabet(d.skip(3));
            let t = base64(d);
            let rest = base64(d.skip(3));
            assert forall|i: int| 4 <= i < t.len() implies t[i] == rest[i - 4] by {}
        }
    }
}

} // verus!
