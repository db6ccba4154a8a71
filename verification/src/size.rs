use vstd::prelude::*;

use crate::text::{decimal, digit_char, push_char, push_decimal, split_once};

verus! {

/// `2` to the power `n`.
pub open spec fn two_pow(n: nat) -> nat
    decreases n,
{
    if n == 0 {
        1
    } else {
        2 * two_pow((n - 1) as nat)
    }
}

/// How many low bits of `b` do not fit in the 53-bit significand of an `f64`.
pub open spec fn dropped_bits(b: nat) -> nat
    decreases b,
{
    if b < 0x20_0000_0000_0000 {
        0
    } else {
        1 + dropped_bits(b / 2)
    }
}

/// `n / d` rounded to the nearest whole number, a tie going to the even one.
pub open spec fn round_div_even(n: nat, d: nat) -> nat {
    let q = n / d;
    let r = n % d;
    if 2 * r > d || (2 * r == d && q % 2 == 1) {
        q + 1
    } else {
        q
    }
}

/// The value of `b as f64`: `b` rounded to the nearest number that an `f64`
/// holds, a tie going to the even significand.
pub open spec fn as_f64(b: nat) -> nat {
    let p = two_pow(dropped_bits(b));
    round_div_even(b, p) * p
}

/// The number of hundredths shown for `bytes` in the given unit: the `f64`
/// quotient `bytes as f64 / unit as f64` rounded half-to-even to two places,
/// as `{:.2}` formats it.
pub open spec fn hundredths(bytes: u64, unit: nat) -> nat {
    round_div_even(as_f64(bytes as nat) * 100, unit)
}

/// A number of hundredths written with two decimals.
pub open spec fn fixed2(h: nat) -> Seq<char> {
    decimal(h / 100) + seq!['.', digit_char((h % 100) / 10), digit_char(h % 10)]
}

pub open spec fn kib() -> nat {
    1024
}

pub open spec fn mib() -> nat {
    1024 * 1024
}

pub open spec fn gib() -> nat {
    1024 * 1024 * 1024
}

/// A size in bytes as it is shown: in GB, MB or KB with two decimals from the
/// unit on, else in whole bytes.
pub open spec fn size_text(bytes: u64) -> Seq<char> {
    if bytes >= gib() {
        fixed2(hundredths(bytes, gib())) + seq![' ', 'G', 'B']
    } else if bytes >= mib() {
        fixed2(hundredths(bytes, mib())) + seq![' ', 'M', 'B']
    } else if bytes >= kib() {
        fixed2(hundredths(bytes, kib())) + seq![' ', 'K', 'B']
    } else {
        decimal(bytes as nat) + seq![' ', 'B']
    }
}

fn round_div_even_u128(n: u128, d: u128) -> (r: u128)
    requires
        d > 0,
        n / d < u128::MAX,
    ensures
        r == round_div_even(n as nat, d as nat),
{
    let q = n / d;
    let r = n % d;
    if r > d - r || (r == d - r && q % 2 == 1) {
        q + 1
    } else {
        q
    }
}

proof fn lemma_round_div_even_bound(n: nat, d: nat)
    requires
        d > 0,
    ensures
        round_div_even(n, d) * d <= n + d,
        round_div_even(n, d) <= n / d + 1,
{
    let q = n / d;
    let r = n % d;
    assert(n == d * q + r) by (nonlinear_arith)
        requires
            d > 0,
            q == n / d,
            r == n % d,
    ;
    assert((q + 1) * d == q * d + d) by (nonlinear_arith);
    assert(q * d == d * q) by (nonlinear_arith);
}

/// The value of `b as f64`, exactly.
fn f64_value(b: u64) -> (x: u128)
    ensures
        x == as_f64(b as nat),
        x <= b + 4096,
{
    let mut t: u128 = b as u128;
    let mut p: u128 = 1;
    let ghost mut s: nat = 0;
    while t >= 0x20_0000_0000_0000
        invariant
            p == two_pow(s),
            1 <= p <= 4096,
            t == (b as nat) / (p as nat),
            p == 1 || (p as nat) * 0x10_0000_0000_0000 <= b,
            dropped_bits(b as nat) == s + dropped_bits(t as nat),
        decreases t,
    {
        proof {
            vstd::arithmetic::div_mod::lemma_div_denominator(b as int, p as int, 2);
            assert((p as nat) * 0x20_0000_0000_0000 <= b) by (nonlinear_arith)
                requires
                    t >= 0x20_0000_0000_0000,
                    t == (b as nat) / (p as nat),
                    p >= 1,
            ;
            assert(p * 2 <= 4096) by (nonlinear_arith)
                requires
                    (p as nat) * 0x20_0000_0000_0000 <= b,
                    b <= u64::MAX,
            ;
        }
        t = t / 2;
        p = p * 2;
        proof {
            s = s + 1;
        }
    }
    proof {
        lemma_round_div_even_bound(b as nat, p as nat);
    }
    assert(t == (b as u128) / p);
    let q = round_div_even_u128(b as u128, p);
    assert(q * p <= b + 4096) by (nonlinear_arith)
        requires
            q * p <= b + p,
            p <= 4096,
    ;
    q * p
}

/// Appends a number of hundredths with two decimals.
fn push_fixed2(out: &mut String, h: u128)
    ensures
        final(out)@ == old(out)@ + fixed2(h as nat),
{
    push_decimal(out, h / 100);
    push_char(out, '.');
    let tenths = (h % 100) / 10;
    let last = h % 10;
    push_char(out, ('0' as u8 + tenths as u8) as char);
    push_char(out, ('0' as u8 + last as u8) as char);
}

/// The size shown for a number of bytes, such as `1.50 KB` or `512 B`.
pub fn format_size(bytes: u64) -> (s: String)
    ensures
        s@ == size_text(bytes),
{
    let mut out = String::new();
    if bytes < 1024 {
        push_decimal(&mut out, bytes as u128);
        push_char(&mut out, ' ');
        push_char(&mut out, 'B');
        return out;
    }
    let x = f64_value(bytes);
    let unit: u128 = if bytes >= 1073741824 {
        1073741824
    } else if bytes >= 1048576 {
        1048576
    } else {
        1024
    };
    assert(x * 100 <= (u64::MAX as u128 + 4096) * 100);
    let h = round_div_even_u128(x * 100, unit);
    push_fixed2(&mut out, h);
    push_char(&mut out, ' ');
    if bytes >= 1073741824 {
        push_char(&mut out, 'G');
    } else if bytes >= 1048576 {
        push_char(&mut out, 'M');
    } else {
        push_char(&mut out, 'K');
    }
    push_char(&mut out, 'B');
    out
}


proof fn lemma_round_div_even_close(n: nat, d: nat)
    requires
        d > 0,
    ensures
        -(d as int) <= 2 * (n as int - (round_div_even(n, d) * d) as int) <= d as int,
{
    let q = n / d;
    let r = n % d;
    assert(n == d * q + r) by (nonlinear_arith)
        requires
            d > 0,
            q == n / d,
            r == n % d,
    ;
    assert((q + 1) * d == q * d + d) by (nonlinear_arith);
    assert(q * d == d * q) by (nonlinear_arith);
}

/// An `f64` holds every whole number below 2^53 exactly.
pub proof fn law_f64_exact_below_2_53(b: nat)
    requires
        b < 0x20_0000_0000_0000,
    ensures
        as_f64(b) == b,
{
    assert(dropped_bits(b) == 0);
    assert(two_pow(0) == 1);
    assert(b / 1 == b && b % 1 == 0) by (nonlinear_arith);
    assert(round_div_even(b, 1) == b);
}

/// The shown size is rounded correctly: below 2^53 bytes the number of
/// hundredths shown is within half a hundredth of `bytes / unit`.
pub proof fn law_size_rounding(bytes: u64, unit: nat)
    requires
        bytes < 0x20_0000_0000_0000,
        unit > 0,
    ensures
        -(unit as int) <= 2 * (100 * bytes - hundredths(bytes, unit) * unit) <= unit as int,
{
    law_f64_exact_below_2_53(bytes as nat);
    lemma_round_div_even_close(100 * bytes as nat, unit);
    assert(as_f64(bytes as nat) * 100 == 100 * bytes);
}


proof fn lemma_round_div_even_monotone(n1: nat, n2: nat, d: nat)
    requires
        n1 <= n2,
        d > 0,
    ensures
        round_div_even(n1, d) <= round_div_even(n2, d),
{
    let q1 = n1 / d;
    let q2 = n2 / d;
    let r1 = n1 % d;
    let r2 = n2 % d;
    vstd::arithmetic::div_mod::lemma_div_is_ordered(n1 as int, n2 as int, d as int);
    vstd::arithmetic::div_mod::lemma_fundamental_div_mod(n1 as int, d as int);
    vstd::arithmetic::div_mod::lemma_fundamental_div_mod(n2 as int, d as int);
    vstd::arithmetic::div_mod::lemma_mod_pos_bound(n1 as int, d as int);
    vstd::arithmetic::div_mod::lemma_mod_pos_bound(n2 as int, d as int);
    if q1 == q2 {
        assert(r1 <= r2) by (nonlinear_arith)
            requires
                n1 == d * q1 + r1,
                n2 == d * q2 + r2,
                q1 == q2,
                n1 <= n2,
        ;
    }
}

proof fn lemma_two_pow_pos(n: nat)
    ensures
        two_pow(n) >= 1,
    decreases n,
{
    if n > 0 {
        lemma_two_pow_pos((n - 1) as nat);
    }
}

proof fn lemma_two_pow_grows(m: nat, n: nat)
    requires
        m < n,
    ensures
        two_pow(n) >= 2 * two_pow(m),
    decreases n,
{
    lemma_two_pow_pos(m);
    if n - 1 > m {
        lemma_two_pow_grows(m, (n - 1) as nat);
    }
}

/// What the shift leaves of `b`: fewer than 2^53 units of `2^s`, and, when
/// something was dropped, at least 2^52 of them.
proof fn lemma_dropped_bits(b: nat)
    ensures
        b < 0x20_0000_0000_0000 * two_pow(dropped_bits(b)),
        dropped_bits(b) > 0 ==> b >= 0x10_0000_0000_0000 * two_pow(dropped_bits(b)),
    decreases b,
{
    if b >= 0x20_0000_0000_0000 {
        let h = b / 2;
        lemma_dropped_bits(h);
        let p1 = two_pow(dropped_bits(h));
        lemma_two_pow_pos(dropped_bits(h));
        assert(two_pow(dropped_bits(b)) == 2 * p1);
        assert(b < 0x20_0000_0000_0000 * (2 * p1)) by (nonlinear_arith)
            requires
                h == b / 2,
                h < 0x20_0000_0000_0000 * p1,
        ;
        if dropped_bits(h) > 0 {
            assert(b >= 0x10_0000_0000_0000 * (2 * p1)) by (nonlinear_arith)
                requires
                    h == b / 2,
                    h >= 0x10_0000_0000_0000 * p1,
            ;
        } else {
            assert(p1 == 1);
        }
    }
}

proof fn lemma_dropped_bits_monotone(a: nat, b: nat)
    requires
        a <= b,
    ensures
        dropped_bits(a) <= dropped_bits(b),
    decreases b,
{
    if a >= 0x20_0000_0000_0000 {
        lemma_dropped_bits_monotone(a / 2, b / 2);
    }
}

/// Rounding to an `f64` never reverses the order of two numbers.
pub proof fn law_as_f64_monotone(a: nat, b: nat)
    requires
        a <= b,
    ensures
        as_f64(a) <= as_f64(b),
{
    let sa = dropped_bits(a);
    let sb = dropped_bits(b);
    let pa = two_pow(sa);
    let pb = two_pow(sb);
    lemma_dropped_bits_monotone(a, b);
    lemma_two_pow_pos(sa);
    lemma_two_pow_pos(sb);
    if sa == sb {
        lemma_round_div_even_monotone(a, b, pa);
        assert(round_div_even(a, pa) * pa <= round_div_even(b, pa) * pa) by (nonlinear_arith)
            requires
                round_div_even(a, pa) <= round_div_even(b, pa),
        ;
    } else {
        lemma_two_pow_grows(sa, sb);
        lemma_dropped_bits(a);
        lemma_dropped_bits(b);
        lemma_round_div_even_bound(a, pa);
        let qa = round_div_even(a, pa);
        let qb = round_div_even(b, pb);
        assert(a / pa < 0x20_0000_0000_0000) by (nonlinear_arith)
            requires
                a < 0x20_0000_0000_0000 * pa,
                pa >= 1,
        ;
        assert(b / pb >= 0x10_0000_0000_0000) by (nonlinear_arith)
            requires
                b >= 0x10_0000_0000_0000 * pb,
                pb >= 1,
        ;
        assert(qb >= b / pb);
        assert(qa * pa <= qb * pb) by (nonlinear_arith)
            requires
                qa <= 0x20_0000_0000_0000,
                qb >= 0x10_0000_0000_0000,
                pb >= 2 * pa,
                pa >= 1,
        ;
    }
}

/// The size as shown, in hundredths of a byte: the number shown (in
/// hundredths) times its unit, or a hundred times the bytes below 1 KB.
pub open spec fn shown_hundredths(bytes: u64) -> nat {
    if bytes >= gib() {
        hundredths(bytes, gib()) * gib()
    } else if bytes >= mib() {
        hundredths(bytes, mib()) * mib()
    } else if bytes >= kib() {
        hundredths(bytes, kib()) * kib()
    } else {
        100 * bytes as nat
    }
}

proof fn lemma_hundredths_monotone(a: u64, b: u64, unit: nat)
    requires
        a <= b,
        unit > 0,
    ensures
        hundredths(a, unit) <= hundredths(b, unit),
{
    law_as_f64_monotone(a as nat, b as nat);
    lemma_round_div_even_monotone(as_f64(a as nat) * 100, as_f64(b as nat) * 100, unit);
}

/// At most 102400 hundredths in a unit below the next unit, and at least 100
/// from the unit on.
proof fn lemma_hundredths_range(bytes: u64, unit: nat)
    requires
        unit == kib() || unit == mib() || unit == gib(),
    ensures
        bytes >= unit ==> hundredths(bytes, unit) >= 100,
        bytes < unit * 1024 ==> hundredths(bytes, unit) <= 102400,
{
    if bytes >= unit {
        let low: u64 = if unit == kib() { 1024 } else if unit == mib() { 1048576 } else { 1073741824 };
        lemma_hundredths_monotone(low, bytes, unit);
        law_f64_exact_below_2_53(low as nat);
        assert(round_div_even((low * 100) as nat, unit) == 100);
    }
    if bytes < unit * 1024 {
        let high: u64 = if unit == kib() { 1048575 } else if unit == mib() { 1073741823 } else { 1099511627775 };
        lemma_hundredths_monotone(bytes, high, unit);
        law_f64_exact_below_2_53(high as nat);
        assert(round_div_even((high * 100) as nat, unit) == 102400);
    }
}

/// A larger number of bytes is never shown as a smaller size, also where the
/// unit changes.
pub proof fn law_size_monotone(a: u64, b: u64)
    requires
        a <= b,
    ensures
        shown_hundredths(a) <= shown_hundredths(b),
{
    let ua: nat = if a >= gib() {
        gib()
    } else if a >= mib() {
        mib()
    } else if a >= kib() {
        kib()
    } else {
        1
    };
    let ub: nat = if b >= gib() {
        gib()
    } else if b >= mib() {
        mib()
    } else if b >= kib() {
        kib()
    } else {
        1
    };
    if ua == ub {
        if ua > 1 {
            lemma_hundredths_monotone(a, b, ua);
            let ha = hundredths(a, ua);
            let hb = hundredths(b, ua);
            assert(ha * ua <= hb * ua) by (nonlinear_arith)
                requires
                    ha <= hb,
            ;
        }
    } else {
        // the shown size of `a` is at most 1024 of its unit, that of `b` at
        // least one of its larger unit
        let top: nat = if ua == 1 {
            100 * a as nat
        } else {
            lemma_hundredths_range(a, ua);
            let ha = hundredths(a, ua);
            assert(ha * ua <= 102400 * ua) by (nonlinear_arith)
                requires
                    ha <= 102400,
            ;
            ha * ua
        };
        assert(top <= 102400 * ua);
        assert(ub >= 1024 * ua);
        lemma_hundredths_range(b, ub);
        let hb = hundredths(b, ub);
        assert(100 * ub <= hb * ub) by (nonlinear_arith)
            requires
                hb >= 100,
        ;
        assert(shown_hundredths(a) == top);
        assert(shown_hundredths(b) == hb * ub);
    }
}


/// The value of a digit character.
pub open spec fn digit_value(c: char) -> nat {
    (c as int - '0' as int) as nat
}

/// The number that a numeral of decimal digits reads as.
pub open spec fn digits_value(s: Seq<char>) -> nat
    decreases s.len(),
{
    if s.len() == 0 {
        0
    } else {
        digits_value(s.drop_last()) * 10 + digit_value(s.last())
    }
}

/// The bytes that a unit's name stands for: `KB`, `MB`, `GB`, else one.
pub open spec fn unit_value(name: Seq<char>) -> nat {
    if name == seq!['K', 'B'] {
        kib()
    } else if name == seq!['M', 'B'] {
        mib()
    } else if name == seq!['G', 'B'] {
        gib()
    } else {
        1
    }
}

/// A number such as `12` or `12.34`, read in hundredths.
pub open spec fn number_hundredths(num: Seq<char>) -> nat {
    match split_once(num, '.') {
        Some((whole, frac)) => digits_value(whole) * 100 + digits_value(frac),
        None => digits_value(num) * 100,
    }
}

/// What a shown size such as `1.50 KB` or `512 B` reads as, in hundredths of
/// a byte: the number times its unit.
pub open spec fn size_value(t: Seq<char>) -> nat {
    match split_once(t, ' ') {
        Some((num, unit)) => number_hundredths(num) * unit_value(unit),
        None => 0,
    }
}

proof fn lemma_digit(d: nat)
    requires
        d < 10,
    ensures
        digit_value(digit_char(d)) == d,
        '0' <= digit_char(d) <= '9',
{
    assert(('0' as u8 + d as u8) as char as int == 48 + d);
}

proof fn lemma_decimal_digits(n: nat)
    ensures
        digits_value(decimal(n)) == n,
        forall|i: int| 0 <= i < decimal(n).len() ==> '0' <= #[trigger] decimal(n)[i] <= '9',
        decimal(n).len() > 0,
    decreases n,
{
    lemma_digit(n % 10);
    if n >= 10 {
        lemma_decimal_digits(n / 10);
        let d = decimal(n / 10);
        assert(decimal(n) == d.push(digit_char(n % 10)));
        assert(decimal(n).drop_last() == d);
        assert(decimal(n).last() == digit_char(n % 10));
        assert(digits_value(decimal(n)) == digits_value(d) * 10 + digit_value(digit_char(n % 10)));
        assert(n == (n / 10) * 10 + n % 10);
        assert forall|i: int| 0 <= i < decimal(n).len() implies '0' <= #[trigger] decimal(n)[i]
            <= '9' by {
            if i < d.len() {
                assert(decimal(n)[i] == d[i]);
            }
        }
    } else {
        assert(decimal(n) == seq![digit_char(n)]);
        assert(decimal(n).drop_last().len() == 0);
        assert(decimal(n).last() == digit_char(n));
        assert(n % 10 == n);
        assert(digits_value(decimal(n)) == digits_value(decimal(n).drop_last()) * 10 + digit_value(
            digit_char(n),
        ));
    }
}

proof fn lemma_split_after_digits(d: Seq<char>, c: char, rest: Seq<char>)
    requires
        forall|i: int| 0 <= i < d.len() ==> '0' <= #[trigger] d[i] <= '9',
        !('0' <= c <= '9'),
    ensures
        split_once(d + seq![c] + rest, c) == Some((d, rest)),
{
    let t = d + seq![c] + rest;
    let i = d.len() as int;
    assert(t[i] == c);
    assert forall|j: int| 0 <= j < i implies t[j] != c by {
        assert(t[j] == d[j]);
    }
    crate::text::lemma_split_once_at(t, c, i);
    assert(t.take(i) == d);
    assert(t.skip(i + 1) == rest);
}

proof fn lemma_fixed2_value(h: nat)
    ensures
        number_hundredths(fixed2(h)) == h,
        forall|i: int| 0 <= i < fixed2(h).len() ==> (#[trigger] fixed2(h)[i]) != ' ',
{
    let w = decimal(h / 100);
    lemma_decimal_digits(h / 100);
    let f = seq![digit_char((h % 100) / 10), digit_char(h % 10)];
    assert(fixed2(h) == w + seq!['.'] + f);
    lemma_split_after_digits(w, '.', f);
    lemma_digit((h % 100) / 10);
    lemma_digit(h % 10);
    assert(f.drop_last() == seq![digit_char((h % 100) / 10)]);
    let f0 = seq![digit_char((h % 100) / 10)];
    assert(f0.drop_last().len() == 0);
    assert(f0.last() == digit_char((h % 100) / 10));
    assert(digits_value(f0) == digits_value(f0.drop_last()) * 10 + digit_value(f0.last()));
    assert(digits_value(f0) == (h % 100) / 10);
    assert(f.last() == digit_char(h % 10));
    assert(digits_value(f) == digits_value(f0) * 10 + digit_value(f.last()));
    assert(digits_value(f) == ((h % 100) / 10) * 10 + h % 10);
    assert forall|i: int| 0 <= i < fixed2(h).len() implies (#[trigger] fixed2(h)[i]) != ' ' by {
        if i < w.len() {
            assert(fixed2(h)[i] == w[i]);
        }
    }
}

/// The text `format_size` shows reads as `shown_hundredths`: the number shown
/// (whole bytes below 1 KB, else with two decimals) times its unit.
pub proof fn law_size_text_value(bytes: u64)
    ensures
        size_value(size_text(bytes)) == shown_hundredths(bytes),
{
    if bytes >= kib() {
        let unit = if bytes >= gib() {
            gib()
        } else if bytes >= mib() {
            mib()
        } else {
            kib()
        };
        let name = if bytes >= gib() {
            seq!['G', 'B']
        } else if bytes >= mib() {
            seq!['M', 'B']
        } else {
            seq!['K', 'B']
        };
        let h = hundredths(bytes, unit);
        let num = fixed2(h);
        lemma_fixed2_value(h);
        let t = num + seq![' '] + name;
        assert(size_text(bytes) == t);
        let i = num.len() as int;
        assert(t[i] == ' ');
        assert forall|j: int| 0 <= j < i implies t[j] != ' ' by {
            assert(t[j] == num[j]);
        }
        crate::text::lemma_split_once_at(t, ' ', i);
        assert(t.take(i) == num);
        assert(t.skip(i + 1) == name);
        assert(unit_value(name) == unit);
        assert(split_once(t, ' ') == Some((num, name)));
        assert(size_value(t) == h * unit);
        assert(shown_hundredths(bytes) == h * unit);
    } else {
        let w = decimal(bytes as nat);
        lemma_decimal_digits(bytes as nat);
        lemma_split_after_digits(w, ' ', seq!['B']);
        assert(size_text(bytes) == w + seq![' '] + seq!['B']);
        assert forall|j: int| 0 <= j < w.len() implies w[j] != '.' by {}
        assert(!w.contains('.'));
        assert(unit_value(seq!['B']) == 1);
        assert(split_once(w, '.') is None);
        assert(number_hundredths(w) == bytes * 100);
        assert(size_value(w + seq![' '] + seq!['B']) == number_hundredths(w) * 1);
    }
}

/// A larger number of bytes is never shown as a smaller size: the shown text
/// read as its number times its unit never decreases, also where the unit
/// changes.
pub proof fn law_size_text_monotone(a: u64, b: u64)
    requires
        a <= b,
    ensures
        size_value(size_text(a)) <= size_value(size_text(b)),
{
    law_size_text_value(a);
    law_size_text_value(b);
    law_size_monotone(a, b);
}

} // verus!
