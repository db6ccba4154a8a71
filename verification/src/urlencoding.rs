use vstd::prelude::*;
use vstd::utf8::*;

use crate::text::push_char;

verus! {

/// Characters that percent-encoding leaves as they are: ASCII letters, digits and `-_.~`.
pub open spec fn is_unreserved(c: char) -> bool {
    ||| 'A' <= c <= 'Z'
    ||| 'a' <= c <= 'z'
    ||| '0' <= c <= '9'
    ||| c == '-'
    ||| c == '_'
    ||| c == '.'
    ||| c == '~'
}

/// The upper-case hexadecimal digit for `n < 16`.
pub open spec fn hex_digit(n: u8) -> char {
    if n < 10 {
        ('0' as u8 + n) as char
    } else {
        ('A' as u8 + n - 10) as char
    }
}

/// `%XX` for each byte, with upper-case hexadecimal digits.
pub open spec fn percent_bytes(bs: Seq<u8>) -> Seq<char>
    decreases bs.len(),
{
    if bs.len() == 0 {
        seq![]
    } else {
        seq!['%', hex_digit(bs[0] / 16), hex_digit(bs[0] % 16)] + percent_bytes(bs.drop_first())
    }
}

/// How one character is written: itself when unreserved, else `%XX` for each
/// byte of its UTF-8 encoding.
pub open spec fn encode_piece(c: char) -> Seq<char> {
    if is_unreserved(c) {
        seq![c]
    } else {
        percent_bytes(encode_utf8(seq![c]))
    }
}

/// The percent-encoding of `s`, character by character.
pub open spec fn url_encode(s: Seq<char>) -> Seq<char>
    decreases s.len(),
{
    if s.len() == 0 {
        seq![]
    } else {
        encode_piece(s[0]) + url_encode(s.drop_first())
    }
}

proof fn lemma_url_encode_push(s: Seq<char>, c: char)
    ensures
        url_encode(s.push(c)) == url_encode(s) + encode_piece(c),
    decreases s.len(),
{
    if s.len() == 0 {
        assert(s.push(c).drop_first() == s);
    } else {
        assert(s.push(c).drop_first() == s.drop_first().push(c));
        lemma_url_encode_push(s.drop_first(), c);
    }
}

fn push_percent(r: &mut String, b: u8)
    ensures
        final(r)@ == old(r)@ + percent_bytes(seq![b]),
{
    let hi = b / 16;
    let lo = b % 16;
    push_char(r, '%');
    push_char(r, if hi < 10 { ('0' as u8 + hi) as char } else { ('A' as u8 + hi - 10) as char });
    push_char(r, if lo < 10 { ('0' as u8 + lo) as char } else { ('A' as u8 + lo - 10) as char });
    assert(seq![b].drop_first() == Seq::<u8>::empty());
    assert(percent_bytes(Seq::<u8>::empty()) == Seq::<char>::empty());
    assert(percent_bytes(seq![b]) == seq!['%', hex_digit(hi), hex_digit(lo)]);
}

proof fn lemma_percent_bytes_concat(a: Seq<u8>, b: Seq<u8>)
    ensures
        percent_bytes(a + b) == percent_bytes(a) + percent_bytes(b),
    decreases a.len(),
{
    if a.len() == 0 {
        assert(a + b == b);
    } else {
        assert((a + b).drop_first() == a.drop_first() + b);
        lemma_percent_bytes_concat(a.drop_first(), b);
    }
}

/// Writes `%XX` for each byte of the UTF-8 encoding of `c`.
fn push_percent_utf8(r: &mut String, c: char)
    ensures
        final(r)@ == old(r)@ + percent_bytes(encode_utf8(seq![c])),
{
    proof {
        assert(seq![c].drop_first() == Seq::<char>::empty());
        assert(seq![c][0] == c);
        reveal_with_fuel(encode_utf8, 2);
        assert(encode_utf8(Seq::<char>::empty()) == Seq::<u8>::empty());
        assert(encode_utf8(seq![c]) == encode_scalar(c as u32) + Seq::<u8>::empty());
        assert(encode_utf8(seq![c]) == encode_scalar(c as u32));
    }
    let u = c as u32;
    if u <= 0x7F {
        push_percent(r, (u & 0x7F) as u8);
    } else if u <= 0x7FF {
        let b1 = 0xC0 | ((u >> 6) & 0x1F) as u8;
        let b2 = 0x80 | (u & 0x3F) as u8;
        push_percent(r, b1);
        push_percent(r, b2);
        proof {
            assert(seq![b1, b2] == seq![b1] + seq![b2]);
            lemma_percent_bytes_concat(seq![b1], seq![b2]);
        }
    } else if u <= 0xFFFF {
        let b1 = 0xE0 | ((u >> 12) & 0x0F) as u8;
        let b2 = 0x80 | ((u >> 6) & 0x3F) as u8;
        let b3 = 0x80 | (u & 0x3F) as u8;
        push_percent(r, b1);
        push_percent(r, b2);
        push_percent(r, b3);
        proof {
            assert(seq![b1, b2, b3] == seq![b1] + seq![b2] + seq![b3]);
            lemma_percent_bytes_concat(seq![b1], seq![b2]);
            lemma_percent_bytes_concat(seq![b1] + seq![b2], seq![b3]);
        }
    } else {
        let b1 = 0xF0 | ((u >> 18) & 0x7) as u8;
        let b2 = 0x80 | ((u >> 12) & 0x3F) as u8;
        let b3 = 0x80 | ((u >> 6) & 0x3F) as u8;
        let b4 = 0x80 | (u & 0x3F) as u8;
        push_percent(r, b1);
        push_percent(r, b2);
        push_percent(r, b3);
        push_percent(r, b4);
        proof {
            assert(seq![b1, b2, b3, b4] == seq![b1] + seq![b2] + seq![b3] + seq![b4]);
            lemma_percent_bytes_concat(seq![b1], seq![b2]);
            lemma_percent_bytes_concat(seq![b1] + seq![b2], seq![b3]);
            lemma_percent_bytes_concat(seq![b1] + seq![b2] + seq![b3], seq![b4]);
        }
    }
}

/// Percent-encodes `s` for a URL query: unreserved characters stay, every other
/// character becomes `%XX` for each byte of its UTF-8 encoding.
pub fn encode(s: &str) -> (r: String)
    ensures
        r@ == url_encode(s@),
{
    let mut r = String::new();
    for c in it: s.chars()
        invariant
            it.seq() == s@,
            r@ == url_encode(it.seq().take(it.index() as int)),
    {
        let ghost pre = it.seq().take(it.index() as int);
        let ghost old_r = r@;
        if ('A' <= c && c <= 'Z') || ('a' <= c && c <= 'z') || ('0' <= c && c <= '9') || c == '-'
            || c == '_' || c == '.' || c == '~' {
            push_char(&mut r, c);
        } else {
            push_percent_utf8(&mut r, c);
        }
        proof {
            lemma_url_encode_push(pre, c);
            assert(it.seq().take(it.index() + 1) == pre.push(c));
        }
    }
    assert(s@.take(s@.len() as int) == s@);
    r
}


/// A hexadecimal digit, in either case.
pub open spec fn is_hex_char(c: char) -> bool {
    '0' <= c <= '9' || 'A' <= c <= 'F' || 'a' <= c <= 'f'
}

/// The value of a hexadecimal digit.
pub open spec fn hex_value(c: char) -> int {
    if '0' <= c <= '9' {
        c as int - '0' as int
    } else if 'A' <= c <= 'F' {
        c as int - 'A' as int + 10
    } else {
        c as int - 'a' as int + 10
    }
}

/// Percent-decoding into bytes: `%XX` stands for the byte `0xXX`, any other
/// character for its UTF-8 encoding.
pub open spec fn percent_decode(t: Seq<char>) -> Seq<u8>
    decreases t.len(),
{
    if t.len() == 0 {
        seq![]
    } else if t.len() >= 3 && t[0] == '%' && is_hex_char(t[1]) && is_hex_char(t[2]) {
        seq![(hex_value(t[1]) * 16 + hex_value(t[2])) as u8] + percent_decode(t.skip(3))
    } else {
        encode_utf8(seq![t[0]]) + percent_decode(t.drop_first())
    }
}

/// Only characters that need no encoding in a query component, and `%`.
pub open spec fn is_url_safe(t: Seq<char>) -> bool {
    forall|i: int| 0 <= i < t.len() ==> is_unreserved(#[trigger] t[i]) || t[i] == '%'
}

proof fn lemma_hex_digit(n: u8)
    requires
        n < 16,
    ensures
        is_hex_char(hex_digit(n)),
        hex_value(hex_digit(n)) == n,
        is_unreserved(hex_digit(n)),
{
}

proof fn lemma_decode_percent_bytes(bs: Seq<u8>, rest: Seq<char>)
    ensures
        percent_decode(percent_bytes(bs) + rest) == bs + percent_decode(rest),
    decreases bs.len(),
{
    if bs.len() == 0 {
        assert(percent_bytes(bs) + rest == rest);
        assert(bs + percent_decode(rest) == percent_decode(rest));
    } else {
        let b = bs[0];
        let t = percent_bytes(bs) + rest;
        lemma_hex_digit(b / 16);
        lemma_hex_digit(b % 16);
        assert(t[0] == '%');
        assert(t[1] == hex_digit(b / 16));
        assert(t[2] == hex_digit(b % 16));
        assert((hex_value(t[1]) * 16 + hex_value(t[2])) as u8 == b);
        assert(t.skip(3) == percent_bytes(bs.drop_first()) + rest);
        lemma_decode_percent_bytes(bs.drop_first(), rest);
        assert(bs == seq![b] + bs.drop_first());
    }
}

proof fn lemma_encode_utf8_single(c: char)
    ensures
        encode_utf8(seq![c]) == encode_scalar(c as u32),
{
    reveal_with_fuel(encode_utf8, 2);
    assert(seq![c].drop_first() == Seq::<char>::empty());
    assert(seq![c][0] == c);
    assert(encode_scalar(c as u32) + Seq::<u8>::empty() == encode_scalar(c as u32));
}

/// Percent-decoding what `encode` wrote gives back the UTF-8 bytes of the input:
/// the encoding loses nothing.
pub proof fn law_decode_after_encode(s: Seq<char>)
    ensures
        percent_decode(url_encode(s)) == encode_utf8(s),
    decreases s.len(),
{
    if s.len() > 0 {
        let c = s[0];
        let rest = url_encode(s.drop_first());
        law_decode_after_encode(s.drop_first());
        lemma_encode_utf8_single(c);
        if is_unreserved(c) {
            let t = seq![c] + rest;
            assert(t[0] == c);
            assert(t.drop_first() == rest);
        } else {
            lemma_decode_percent_bytes(encode_utf8(seq![c]), rest);
        }
    }
}

proof fn lemma_percent_bytes_safe(bs: Seq<u8>)
    ensures
        is_url_safe(percent_bytes(bs)),
    decreases bs.len(),
{
    if bs.len() > 0 {
        lemma_percent_bytes_safe(bs.drop_first());
        lemma_hex_digit(bs[0] / 16);
        lemma_hex_digit(bs[0] % 16);
        let head = seq!['%', hex_digit(bs[0] / 16), hex_digit(bs[0] % 16)];
        let t = head + percent_bytes(bs.drop_first());
        assert forall|i: int| 0 <= i < t.len() implies is_unreserved(#[trigger] t[i]) || t[i]
            == '%' by {
            if i >= 3 {
                assert(t[i] == percent_bytes(bs.drop_first())[i - 3]);
            }
        }
    }
}

/// What `encode` writes holds only unreserved characters and `%`, so no `&`,
/// `=`, `?`, `#` or space of the input survives into a query string.
pub proof fn law_encoded_is_url_safe(s: Seq<char>)
    ensures
        is_url_safe(url_encode(s)),
    decreases s.len(),
{
    if s.len() > 0 {
        law_encoded_is_url_safe(s.drop_first());
        let p = encode_piece(s[0]);
        if !is_unreserved(s[0]) {
            lemma_percent_bytes_safe(encode_utf8(seq![s[0]]));
        }
        let rest = url_encode(s.drop_first());
        let t = p + rest;
        assert forall|i: int| 0 <= i < t.len() implies is_unreserved(#[trigger] t[i]) || t[i]
            == '%' by {
            if i >= p.len() {
                assert(t[i] == rest[i - p.len()]);
            } else {
                assert(t[i] == p[i]);
            }
        }
    }
}


/// Every character that `encode` writes is an ASCII letter or digit, one of
/// `-`, `_`, `.`, `~`, or the `%` that starts an escape; so no `#`, `&`, `=`,
/// `?`, `+` or space survives into a query string.
pub proof fn law_encoded_chars(s: Seq<char>)
    ensures
        forall|i: int|
            0 <= i < url_encode(s).len() ==> {
                let c = #[trigger] url_encode(s)[i];
                ||| 'A' <= c <= 'Z'
                ||| 'a' <= c <= 'z'
                ||| '0' <= c <= '9'
                ||| c == '-'
                ||| c == '_'
                ||| c == '.'
                ||| c == '~'
                ||| c == '%'
            },
{
    law_encoded_is_url_safe(s);
}

/// One character: an ASCII letter or digit, or one of `-`, `_`, `.`, `~`,
/// is written as itself; any other character as `%XX` for each byte of its
/// UTF-8 encoding, which for an ASCII character is the one escape of its code
/// (so `#` becomes `%23`).
pub proof fn law_encode_char(c: char)
    ensures
        ('A' <= c <= 'Z' || 'a' <= c <= 'z' || '0' <= c <= '9' || c == '-' || c == '_' || c
            == '.' || c == '~') ==> url_encode(seq![c]) == seq![c],
        !('A' <= c <= 'Z' || 'a' <= c <= 'z' || '0' <= c <= '9' || c == '-' || c == '_' || c
            == '.' || c == '~') ==> url_encode(seq![c]) == percent_bytes(encode_utf8(seq![c])),
        !('A' <= c <= 'Z' || 'a' <= c <= 'z' || '0' <= c <= '9' || c == '-' || c == '_' || c
            == '.' || c == '~') && (c as u32) < 0x80 ==> url_encode(seq![c]) == seq![
            '%',
            hex_digit(((c as u32) / 16) as u8),
            hex_digit(((c as u32) % 16) as u8),
        ],
{
    assert(seq![c].drop_first() =~= Seq::<char>::empty());
    assert(seq![c][0] == c);
    assert(url_encode(seq![c]) =~= encode_piece(c) + url_encode(Seq::<char>::empty()));
    assert(url_encode(seq![c]) =~= encode_piece(c));
    let u = c as u32;
    if u < 0x80 {
        lemma_encode_utf8_single(c);
        assert(encode_scalar(u) == seq![leading_byte_width_1(u)]);
        assert((u & 0x7F) as u8 == u as u8 && (u as u8) as u32 == u) by (bit_vector)
            requires
                u < 0x80,
        ;
        let b = u as u8;
        assert(encode_utf8(seq![c]) =~= seq![b]);
        assert(seq![b].drop_first() =~= Seq::<u8>::empty());
        assert(percent_bytes(seq![b]) =~= seq!['%', hex_digit(b / 16), hex_digit(b % 16)]
            + percent_bytes(Seq::<u8>::empty()));
        assert(b / 16 == ((u / 16) as u8));
        assert(b % 16 == ((u % 16) as u8));
    }
}

/// Encoding a concatenation encodes each part: `encode(a + b) == encode(a) + encode(b)`.
pub proof fn law_encode_concat(a: Seq<char>, b: Seq<char>)
    ensures
        url_encode(a + b) == url_encode(a) + url_encode(b),
    decreases a.len(),
{
    if a.len() == 0 {
        assert(a + b == b);
    } else {
        assert((a + b)[0] == a[0]);
        assert((a + b).drop_first() == a.drop_first() + b);
        law_encode_concat(a.drop_first(), b);
    }
}

proof fn lemma_percent_bytes_len(bs: Seq<u8>)
    ensures
        percent_bytes(bs).len() == 3 * bs.len(),
    decreases bs.len(),
{
    if bs.len() > 0 {
        lemma_percent_bytes_len(bs.drop_first());
    }
}

proof fn lemma_encode_len(s: Seq<char>)
    ensures
        url_encode(s).len() >= s.len(),
        (exists|i: int| 0 <= i < s.len() && !is_unreserved(s[i])) ==> url_encode(s).len()
            > s.len(),
    decreases s.len(),
{
    if s.len() > 0 {
        lemma_encode_len(s.drop_first());
        if !is_unreserved(s[0]) {
            lemma_encode_utf8_single(s[0]);
            lemma_percent_bytes_len(encode_utf8(seq![s[0]]));
            assert(encode_scalar(s[0] as u32).len() >= 1);
        }
        if exists|i: int| 0 <= i < s.len() && !is_unreserved(s[i]) {
            let i = choose|i: int| 0 <= i < s.len() && !is_unreserved(s[i]);
            if i > 0 {
                assert(s.drop_first()[i - 1] == s[i]);
            }
        }
    }
}

/// The encoding leaves a text unchanged exactly when every character of it
/// is unreserved.
pub proof fn law_encode_fixed_point(s: Seq<char>)
    ensures
        url_encode(s) == s <==> forall|i: int| 0 <= i < s.len() ==> is_unreserved(#[trigger] s[i]),
    decreases s.len(),
{
    lemma_encode_len(s);
    if forall|i: int| 0 <= i < s.len() ==> is_unreserved(#[trigger] s[i]) {
        if s.len() == 0 {
            assert(url_encode(s) == s);
        } else {
            assert forall|i: int| 0 <= i < s.drop_first().len() implies is_unreserved(
                #[trigger] s.drop_first()[i],
            ) by {
                assert(s.drop_first()[i] == s[i + 1]);
            }
            law_encode_fixed_point(s.drop_first());
            assert(is_unreserved(s[0]));
            assert(encode_piece(s[0]) == seq![s[0]]);
            assert(seq![s[0]] + s.drop_first() == s);
            assert(url_encode(s) == s);
        }
    } else {
        let i = choose|i: int| !(0 <= i < s.len() ==> is_unreserved(#[trigger] s[i]));
        assert(0 <= i < s.len() && !is_unreserved(s[i]));
        assert(url_encode(s).len() > s.len());
        assert(url_encode(s) != s);
        assert(!(forall|i: int| 0 <= i < s.len() ==> is_unreserved(#[trigger] s[i])));
    }
}

} // verus!
