//! Fixed-point numeric codec for attribute widths.
//!
//! A width is an unsigned decimal literal (`digits`, `digits.digits`,
//! `digits.` or `.digits`) held as an exact count of micro-units (six
//! fractional digits). At most twelve integer digits and six fractional
//! digits are accepted, so every value fits comfortably in a `u64` and the
//! arithmetic below is exact. Formatting writes the integer part without
//! leading zeros and the fractional part without trailing zeros, so output is
//! reproducible; parsing the formatted string gives back the same value.

use vstd::prelude::*;

use crate::text::{find_char, find_char_str, lemma_find_char_at, lemma_find_char_in_range};

verus! {

/// One micro-unit scale: `10^6`.
pub const MICRO: u64 = 1000000;

pub open spec fn is_digit(c: char) -> bool {
    c == '0' || c == '1' || c == '2' || c == '3' || c == '4' || c == '5' || c == '6' || c == '7'
        || c == '8' || c == '9'
}

pub open spec fn digit_val(c: char) -> nat {
    if c == '0' {
        0
    } else if c == '1' {
        1
    } else if c == '2' {
        2
    } else if c == '3' {
        3
    } else if c == '4' {
        4
    } else if c == '5' {
        5
    } else if c == '6' {
        6
    } else if c == '7' {
        7
    } else if c == '8' {
        8
    } else {
        9
    }
}

pub open spec fn digit_char(d: nat) -> char {
    if d == 0 {
        '0'
    } else if d == 1 {
        '1'
    } else if d == 2 {
        '2'
    } else if d == 3 {
        '3'
    } else if d == 4 {
        '4'
    } else if d == 5 {
        '5'
    } else if d == 6 {
        '6'
    } else if d == 7 {
        '7'
    } else if d == 8 {
        '8'
    } else {
        '9'
    }
}

pub open spec fn all_digits(s: Seq<char>) -> bool {
    forall|i: int| 0 <= i < s.len() ==> is_digit(s[i])
}

/// Value of a digit string read most-significant first.
pub open spec fn digits_val(s: Seq<char>) -> nat
    decreases s.len(),
{
    if s.len() == 0 {
        0
    } else {
        digits_val(s.drop_last()) * 10 + digit_val(s.last())
    }
}

pub open spec fn pow10(k: nat) -> nat
    decreases k,
{
    if k == 0 {
        1
    } else {
        10 * pow10((k - 1) as nat)
    }
}

/// The micro-unit value of a width literal, or `None` when the literal is
/// rejected: it must hold at least one digit, at most twelve before the
/// point and at most six after it, and nothing else.
pub open spec fn width_value(s: Seq<char>) -> Option<nat> {
    let i = find_char(s, '.');
    if i == s.len() {
        if 1 <= s.len() <= 12 && all_digits(s) {
            Some(digits_val(s) * 1000000)
        } else {
            None
        }
    } else {
        let ip = s.subrange(0, i);
        let fp = s.subrange(i + 1, s.len() as int);
        if ip.len() <= 12 && fp.len() <= 6 && ip.len() + fp.len() >= 1 && all_digits(ip)
            && all_digits(fp) {
            Some(digits_val(ip) * 1000000 + digits_val(fp) * pow10((6 - fp.len()) as nat))
        } else {
            None
        }
    }
}

/// A width scaled by a per-mille charge, truncating to micro-units.
pub open spec fn scale(w: nat, charge: nat) -> nat {
    (w * charge) / 1000
}

pub proof fn lemma_pow10_adds(a: nat, b: nat)
    ensures
        pow10(a) * pow10(b) == pow10(a + b),
    decreases a,
{
    if a == 0 {
        assert(1 * pow10(b) == pow10(b));
    } else {
        lemma_pow10_adds((a - 1) as nat, b);
        assert(10 * pow10((a - 1) as nat) * pow10(b) == 10 * (pow10((a - 1) as nat) * pow10(b)))
            by (nonlinear_arith);
    }
}

pub proof fn lemma_pow10_pos(k: nat)
    ensures
        pow10(k) >= 1,
    decreases k,
{
    if k > 0 {
        lemma_pow10_pos((k - 1) as nat);
    }
}

pub proof fn lemma_digits_val_bound(s: Seq<char>)
    ensures
        digits_val(s) < pow10(s.len()),
    decreases s.len(),
{
    if s.len() == 0 {
    } else {
        lemma_digits_val_bound(s.drop_last());
        assert(digit_val(s.last()) <= 9);
        assert(digits_val(s.drop_last()) * 10 + 9 < pow10((s.len() - 1) as nat) * 10) by {
            assert(digits_val(s.drop_last()) + 1 <= pow10((s.len() - 1) as nat));
            assert((digits_val(s.drop_last()) + 1) * 10 <= pow10((s.len() - 1) as nat) * 10)
                by (nonlinear_arith)
                requires digits_val(s.drop_last()) + 1 <= pow10((s.len() - 1) as nat);
        }
        assert(pow10((s.len() - 1) as nat) * 10 == pow10(s.len()));
    }
}

/// Every accepted width literal is worth less than `10^18` micro-units.
pub proof fn lemma_width_value_bound(s: Seq<char>, v: nat)
    requires
        width_value(s) == Some(v),
    ensures
        v < 1000000000000000000,
{
    lemma_pow10_18();
    let i = find_char(s, '.');
    if i == s.len() {
        lemma_digits_val_bound(s);
        lemma_pow10_le(s.len(), 12);
        assert(digits_val(s) * 1000000 < pow10(12) * 1000000) by (nonlinear_arith)
            requires digits_val(s) < pow10(12);
        lemma_pow10_adds(12, 6);
        lemma_pow10_6();
        lemma_pow10_12();
    } else {
        let ip = s.subrange(0, i);
        let fp = s.subrange(i + 1, s.len() as int);
        lemma_digits_val_bound(ip);
        lemma_digits_val_bound(fp);
        lemma_pow10_le(ip.len(), 12);
        lemma_pow10_12();
        lemma_pow10_6();
        lemma_pow10_pos((6 - fp.len()) as nat);
        assert(digits_val(ip) * 1000000 <= (pow10(12) - 1) * 1000000) by (nonlinear_arith)
            requires digits_val(ip) <= pow10(12) - 1;
        assert(digits_val(fp) * pow10((6 - fp.len()) as nat) < pow10(fp.len()) * pow10(
            (6 - fp.len()) as nat,
        )) by (nonlinear_arith)
            requires
                digits_val(fp) < pow10(fp.len()),
                pow10((6 - fp.len()) as nat) >= 1,
        ;
        lemma_pow10_adds(fp.len(), (6 - fp.len()) as nat);
    }
}

pub proof fn lemma_pow10_le(a: nat, b: nat)
    requires
        a <= b,
    ensures
        pow10(a) <= pow10(b),
    decreases b,
{
    if a < b {
        lemma_pow10_le(a, (b - 1) as nat);
        lemma_pow10_pos((b - 1) as nat);
    }
}

pub proof fn lemma_pow10_6()
    ensures
        pow10(6) == 1000000,
{
    reveal_with_fuel(pow10, 7);
}

pub proof fn lemma_pow10_12()
    ensures
        pow10(12) == 1000000000000,
{
    reveal_with_fuel(pow10, 13);
}

pub proof fn lemma_pow10_18()
    ensures
        pow10(18) == 1000000000000000000,
{
    reveal_with_fuel(pow10, 19);
}

/// Decimal digits of `n`, most significant first, with no leading zeros
/// (`0` itself is the single digit `'0'`).
pub open spec fn dec_digits(n: nat) -> Seq<char>
    decreases n,
{
    if n < 10 {
        seq![digit_char(n)]
    } else {
        dec_digits(n / 10) + seq![digit_char(n % 10)]
    }
}

/// The last `k` decimal digits of `n`, zero-padded to exactly `k` characters.
pub open spec fn padded_digits(n: nat, k: nat) -> Seq<char>
    decreases k,
{
    if k == 0 {
        Seq::empty()
    } else {
        padded_digits(n / 10, (k - 1) as nat) + seq![digit_char(n % 10)]
    }
}

/// `s` without its trailing `'0'` characters.
pub open spec fn trim_zeros(s: Seq<char>) -> Seq<char>
    decreases s.len(),
{
    if s.len() > 0 && s.last() == '0' {
        trim_zeros(s.drop_last())
    } else {
        s
    }
}

/// The canonical decimal form of `v` micro-units: integer part, then a point
/// and the fractional digits only when the fraction is not zero.
pub open spec fn format_micro(v: nat) -> Seq<char> {
    let ip = v / 1000000;
    let fp = v % 1000000;
    if fp == 0 {
        dec_digits(ip)
    } else {
        dec_digits(ip) + seq!['.'] + trim_zeros(padded_digits(fp, 6))
    }
}

pub proof fn lemma_dec_digits(n: nat)
    ensures
        all_digits(dec_digits(n)),
        digits_val(dec_digits(n)) == n,
        dec_digits(n).len() >= 1,
    decreases n,
{
    vstd::arithmetic::div_mod::lemma_fundamental_div_mod(n as int, 10);
    if n < 10 {
        let s = seq![digit_char(n)];
        assert(s.drop_last() =~= Seq::<char>::empty());
        assert(s.last() == digit_char(n));
        assert(digits_val(Seq::<char>::empty()) == 0);
        assert(digits_val(s) == digits_val(s.drop_last()) * 10 + digit_val(s.last()));
        assert(digit_val(digit_char(n)) == n);
    } else {
        lemma_dec_digits(n / 10);
        let s = dec_digits(n / 10) + seq![digit_char(n % 10)];
        assert(s.drop_last() =~= dec_digits(n / 10));
        assert(s.last() == digit_char(n % 10));
        assert(digit_val(digit_char(n % 10)) == n % 10);
        assert forall|i: int| 0 <= i < s.len() implies is_digit(s[i]) by {
            if i < s.len() - 1 {
                assert(s[i] == dec_digits(n / 10)[i]);
            }
        }
    }
}

pub proof fn lemma_dec_digits_len(n: nat, k: nat)
    requires
        k >= 1,
        n < pow10(k),
    ensures
        dec_digits(n).len() <= k,
    decreases n,
{
    if n < 10 {
    } else {
        assert(k >= 2) by {
            if k == 1 {
                reveal_with_fuel(pow10, 2);
            }
        }
        assert(n / 10 < pow10((k - 1) as nat)) by {
            assert(pow10(k) == 10 * pow10((k - 1) as nat));
            vstd::arithmetic::div_mod::lemma_fundamental_div_mod(n as int, 10);
        }
        lemma_dec_digits_len(n / 10, (k - 1) as nat);
    }
}

pub proof fn lemma_padded_digits(n: nat, k: nat)
    ensures
        all_digits(padded_digits(n, k)),
        padded_digits(n, k).len() == k,
        digits_val(padded_digits(n, k)) == n % pow10(k),
    decreases k,
{
    if k == 0 {
        assert(n % 1 == 0) by (nonlinear_arith);
    } else {
        lemma_padded_digits(n / 10, (k - 1) as nat);
        let s = padded_digits(n / 10, (k - 1) as nat) + seq![digit_char(n % 10)];
        assert(s.drop_last() =~= padded_digits(n / 10, (k - 1) as nat));
        assert(digit_val(digit_char(n % 10)) == n % 10);
        assert forall|i: int| 0 <= i < s.len() implies is_digit(s[i]) by {
            if i < s.len() - 1 {
                assert(s[i] == padded_digits(n / 10, (k - 1) as nat)[i]);
            }
        }
        let p = pow10((k - 1) as nat);
        lemma_pow10_pos((k - 1) as nat);
        vstd::arithmetic::div_mod::lemma_fundamental_div_mod(n as int, 10);
        vstd::arithmetic::div_mod::lemma_fundamental_div_mod((n / 10) as int, p as int);
        // n == 10 * (p * (n/10/p) + n/10 % p) + n % 10
        assert(n as int == ((n / 10 / p) as int) * ((10 * p) as int) + (((n / 10) % p) * 10 + n
            % 10) as int) by (nonlinear_arith)
            requires
                p >= 1,
                n as int == 10 * ((n / 10) as int) + (n % 10) as int,
                (n / 10) as int == p as int * ((n / 10 / p) as int) + ((n / 10) % p) as int,
        ;
        assert(((n / 10) % p) * 10 + n % 10 < 10 * p) by (nonlinear_arith)
            requires
                p >= 1,
                (n / 10) % p < p,
                n % 10 < 10,
        ;
        vstd::arithmetic::div_mod::lemma_fundamental_div_mod_converse(
            n as int,
            (10 * p) as int,
            (n / 10 / p) as int,
            (((n / 10) % p) * 10 + n % 10) as int,
        );
        assert(pow10(k) == 10 * p);
    }
}

/// Trailing zeros carry no value: the trimmed digits, rescaled, are worth the
/// original digit string.
pub proof fn lemma_trim_zeros(s: Seq<char>)
    requires
        all_digits(s),
    ensures
        all_digits(trim_zeros(s)),
        trim_zeros(s).len() <= s.len(),
        trim_zeros(s) == s.subrange(0, trim_zeros(s).len() as int),
        digits_val(trim_zeros(s)) * pow10((s.len() - trim_zeros(s).len()) as nat) == digits_val(s),
        trim_zeros(s).len() == 0 ==> digits_val(s) == 0,
    decreases s.len(),
{
    if s.len() > 0 && s.last() == '0' {
        let d = s.drop_last();
        assert(all_digits(d)) by {
            assert(forall|i: int| 0 <= i < d.len() ==> d[i] == s[i]);
        }
        lemma_trim_zeros(d);
        let t = trim_zeros(d);
        assert(trim_zeros(s) == t);
        assert(d.subrange(0, t.len() as int) =~= s.subrange(0, t.len() as int));
        assert(digit_val(s.last()) == 0);
        assert(digits_val(s) == digits_val(d) * 10);
        let e = (d.len() - t.len()) as nat;
        assert(pow10(e + 1) == pow10(e) * 10) by {
            lemma_pow10_adds(e, 1);
            reveal_with_fuel(pow10, 2);
        }
        assert(digits_val(t) * (pow10(e) * 10) == (digits_val(t) * pow10(e)) * 10) by (
        nonlinear_arith);
        assert((s.len() - trim_zeros(s).len()) as nat == e + 1);
        assert(digits_val(t) * pow10(e + 1) == digits_val(s));
        assert(digits_val(trim_zeros(s)) * pow10((s.len() - trim_zeros(s).len()) as nat)
            == digits_val(s));
    } else {
        assert(trim_zeros(s) == s);
        assert(s.subrange(0, s.len() as int) =~= s);
        assert(pow10((s.len() - trim_zeros(s).len()) as nat) == 1);
        assert(digits_val(trim_zeros(s)) * pow10((s.len() - trim_zeros(s).len()) as nat)
            == digits_val(s));
    }
}

/// Digit characters are never a point: searching for `'.'` in a digit string
/// runs to its end.
pub proof fn lemma_find_dot_digits(s: Seq<char>)
    requires
        all_digits(s),
    ensures
        find_char(s, '.') == s.len(),
{
    assert forall|j: int| 0 <= j < s.len() implies s[j] != '.' by {
        assert(is_digit(s[j]));
    }
    lemma_find_char_at(s, '.', s.len() as int);
}

/// Parsing the canonical form of `v` gives back exactly `v`: the numeric
/// codec round-trips.
pub proof fn lemma_width_value_of_format(v: nat)
    requires
        v < 1000000000000000000,
    ensures
        width_value(format_micro(v)) == Some(v),
{
    lemma_pow10_6();
    lemma_pow10_12();
    lemma_pow10_18();
    let ip = v / 1000000;
    let fp = v % 1000000;
    vstd::arithmetic::div_mod::lemma_fundamental_div_mod(v as int, 1000000);
    assert(ip < pow10(12)) by (nonlinear_arith)
        requires
            v < 1000000000000000000,
            v as int == 1000000 * ip as int + fp as int,
            0 <= fp < 1000000,
            pow10(12) == 1000000000000,
    ;
    lemma_dec_digits(ip);
    lemma_dec_digits_len(ip, 12);
    let ds = dec_digits(ip);
    if fp == 0 {
        lemma_find_dot_digits(ds);
        assert(width_value(ds) == Some(digits_val(ds) * 1000000));
        assert(v == ip * 1000000);
    } else {
        lemma_padded_digits(fp, 6);
        let padded = padded_digits(fp, 6);
        assert(digits_val(padded) == fp % pow10(6));
        assert(fp % pow10(6) == fp) by {
            vstd::arithmetic::div_mod::lemma_small_mod(fp, 1000000);
        }
        lemma_trim_zeros(padded);
        let t = trim_zeros(padded);
        assert(t.len() > 0) by {
            if t.len() == 0 {
                assert(digits_val(padded) == 0);
            }
        }
        let s = ds + seq!['.'] + t;
        assert forall|j: int| 0 <= j < ds.len() implies s[j] != '.' by {
            assert(s[j] == ds[j]);
            assert(is_digit(ds[j]));
        }
        assert(s[ds.len() as int] == '.');
        lemma_find_char_at(s, '.', ds.len() as int);
        let i = ds.len() as int;
        assert(s.subrange(0, i) =~= ds);
        assert(s.subrange(i + 1, s.len() as int) =~= t);
        assert(t.len() <= 6);
        assert(digits_val(t) * pow10((6 - t.len()) as nat) == fp);
        assert(width_value(s) == Some(digits_val(ds) * 1000000 + digits_val(t) * pow10(
            (6 - t.len()) as nat,
        )));
        assert(v == ip * 1000000 + fp);
    }
}

/// A digit character's value, or `None` for any other character.
pub fn digit_of(c: char) -> (r: Option<u64>)
    ensures
        match r {
            Some(d) => is_digit(c) && d as nat == digit_val(c) && d < 10,
            None => !is_digit(c),
        },
{
    if c == '0' {
        Some(0)
    } else if c == '1' {
        Some(1)
    } else if c == '2' {
        Some(2)
    } else if c == '3' {
        Some(3)
    } else if c == '4' {
        Some(4)
    } else if c == '5' {
        Some(5)
    } else if c == '6' {
        Some(6)
    } else if c == '7' {
        Some(7)
    } else if c == '8' {
        Some(8)
    } else if c == '9' {
        Some(9)
    } else {
        None
    }
}

/// The value of the digit run `s[from..to]`, or `None` when any character in
/// that range is not a digit.
fn parse_digits(s: &str, from: usize, to: usize) -> (r: Option<u64>)
    requires
        from <= to <= s@.len(),
        to - from <= 12,
    ensures
        match r {
            Some(v) => all_digits(s@.subrange(from as int, to as int)) && v as nat == digits_val(
                s@.subrange(from as int, to as int),
            ) && v < 1000000000000,
            None => !all_digits(s@.subrange(from as int, to as int)),
        },
{
    let mut val: u64 = 0;
    let mut i: usize = from;
    proof {
        assert(s@.subrange(from as int, from as int) =~= Seq::<char>::empty());
        lemma_pow10_12();
    }
    while i < to
        invariant
            from <= i <= to <= s@.len(),
            to - from <= 12,
            all_digits(s@.subrange(from as int, i as int)),
            val as nat == digits_val(s@.subrange(from as int, i as int)),
            val < pow10((i - from) as nat),
            pow10(12) == 1000000000000,
        decreases to - i,
    {
        let c = s.get_char(i);
        let d = match digit_of(c) {
            Some(d) => d,
            None => {
                proof {
                    assert(s@.subrange(from as int, to as int)[i - from] == s@[i as int]);
                }
                return None;
            },
        };
        proof {
            let pre = s@.subrange(from as int, i as int);
            let ext = s@.subrange(from as int, i + 1);
            assert(ext.drop_last() =~= pre);
            assert(ext.last() == s@[i as int]);
            lemma_pow10_le((i + 1 - from) as nat, 12);
            assert(val * 10 + 9 < pow10((i + 1 - from) as nat)) by (nonlinear_arith)
                requires
                    (val + 1) as nat <= pow10((i - from) as nat),
                    pow10((i + 1 - from) as nat) == 10 * pow10((i - from) as nat),
            ;
        }
        val = val * 10 + d;
        i += 1;
    }
    proof {
        lemma_pow10_le((to - from) as nat, 12);
    }
    Some(val)
}

/// The micro-unit value of the width literal `s`, or `None` when `s` is not
/// an accepted literal.
pub fn parse_width(s: &str) -> (r: Option<u64>)
    ensures
        match r {
            Some(v) => width_value(s@) == Some(v as nat),
            None => width_value(s@) is None,
        },
{
    let n = s.unicode_len();
    let dot = find_char_str(s, '.');
    proof {
        lemma_find_char_in_range(s@, '.');
        lemma_pow10_6();
        lemma_pow10_12();
    }
    if dot == n {
        if n < 1 || n > 12 {
            return None;
        }
        let v = match parse_digits(s, 0, n) {
            Some(v) => v,
            None => {
                proof {
                    assert(s@.subrange(0, n as int) =~= s@);
                }
                return None;
            },
        };
        proof {
            assert(s@.subrange(0, n as int) =~= s@);
        }
        Some(v * 1000000)
    } else {
        let ip_len = dot;
        let fp_len = n - dot - 1;
        if ip_len > 12 || fp_len > 6 || n < 2 {
            return None;
        }
        let iv = match parse_digits(s, 0, dot) {
            Some(v) => v,
            None => {
                return None;
            },
        };
        let fv = match parse_digits(s, dot + 1, n) {
            Some(v) => v,
            None => {
                return None;
            },
        };
        let mut p: u64 = 1;
        let mut k: usize = 0;
        proof {
            lemma_pow10_6();
        }
        while k < 6 - fp_len
            invariant
                0 <= k <= 6 - fp_len <= 6,
                p as nat == pow10(k as nat),
                p >= 1,
                pow10(6) == 1000000,
            decreases 6 - fp_len - k,
        {
            proof {
                lemma_pow10_le((k + 1) as nat, 6);
            }
            p = p * 10;
            k += 1;
        }
        proof {
            let fp = s@.subrange(dot + 1, n as int);
            lemma_digits_val_bound(fp);
            lemma_pow10_adds(fp.len(), (6 - fp.len()) as nat);
            assert(fv * p < pow10(6)) by (nonlinear_arith)
                requires
                    (fv + 1) as nat <= pow10((fp_len) as nat),
                    p as nat == pow10((6 - fp_len) as nat),
                    pow10(fp_len as nat) * pow10((6 - fp_len) as nat) == pow10(6),
                    p >= 1,
            ;
            lemma_pow10_pos((6 - fp_len) as nat);
        }
        Some(iv * 1000000 + fv * p)
    }
}

/// Scales `w` micro-units by a per-mille charge, truncating.
pub fn scale_width(w: u64, charge: u32) -> (r: u64)
    requires
        charge <= 1000,
    ensures
        r as nat == scale(w as nat, charge as nat),
        r <= w,
{
    proof {
        assert((w as nat) * (charge as nat) <= (w as nat) * 1000) by (nonlinear_arith)
            requires (charge as nat) <= 1000;
        assert((w as nat) * 1000 <= (0xffff_ffff_ffff_ffff as nat) * 1000) by (nonlinear_arith)
            requires (w as nat) <= 0xffff_ffff_ffff_ffff as nat;
    }
    let p: u128 = (w as u128) * (charge as u128);
    let q: u128 = p / 1000;
    proof {
        assert(w as nat * charge as nat <= w as nat * 1000) by (nonlinear_arith)
            requires charge as nat <= 1000;
        vstd::arithmetic::div_mod::lemma_div_is_ordered(
            (w as nat * charge as nat) as int,
            (w as nat * 1000) as int,
            1000,
        );
        vstd::arithmetic::div_mod::lemma_div_by_multiple(w as int, 1000);
    }
    q as u64
}

/// One decimal digit as a borrowed string.
fn digit_str(d: u64) -> (r: &'static str)
    requires
        d < 10,
    ensures
        r@ == seq![digit_char(d as nat)],
{
    proof {
        reveal_strlit("0");
        reveal_strlit("1");
        reveal_strlit("2");
        reveal_strlit("3");
        reveal_strlit("4");
        reveal_strlit("5");
        reveal_strlit("6");
        reveal_strlit("7");
        reveal_strlit("8");
        reveal_strlit("9");
    }
    if d == 0 {
        "0"
    } else if d == 1 {
        "1"
    } else if d == 2 {
        "2"
    } else if d == 3 {
        "3"
    } else if d == 4 {
        "4"
    } else if d == 5 {
        "5"
    } else if d == 6 {
        "6"
    } else if d == 7 {
        "7"
    } else if d == 8 {
        "8"
    } else {
        "9"
    }
}

/// The decimal digits of `n`, most significant first.
fn format_u64(n: u64) -> (r: String)
    ensures
        r@ == dec_digits(n as nat),
    decreases n,
{
    if n < 10 {
        String::from_str(digit_str(n))
    } else {
        let mut s = format_u64(n / 10);
        s.append(digit_str(n % 10));
        s
    }
}

/// The last `k` decimal digits of `n`, zero-padded.
fn format_padded(n: u64, k: usize) -> (r: String)
    ensures
        r@ == padded_digits(n as nat, k as nat),
    decreases k,
{
    if k == 0 {
        let r = String::new();
        proof {
            assert(r@ =~= padded_digits(n as nat, 0));
        }
        r
    } else {
        let mut s = format_padded(n / 10, k - 1);
        s.append(digit_str(n % 10));
        s
    }
}

/// The canonical decimal form of `v` micro-units.
pub fn format_micro_str(v: u64) -> (r: String)
    ensures
        r@ == format_micro(v as nat),
{
    let ip = v / MICRO;
    let fp = v % MICRO;
    if fp == 0 {
        format_u64(ip)
    } else {
        let mut f = fp;
        let mut k: usize = 6;
        proof {
            lemma_pow10_6();
        }
        while f % 10 == 0
            invariant
                1 <= k <= 6,
                (f as nat) < pow10(k as nat),
                f > 0,
                trim_zeros(padded_digits(fp as nat, 6)) == trim_zeros(
                    padded_digits(f as nat, k as nat),
                ),
            decreases k,
        {
            proof {
                let fn_ = f as nat;
                let kn = k as nat;
                let s = padded_digits(fn_, kn);
                lemma_padded_digits(fn_, kn);
                assert(s.last() == digit_char(fn_ % 10));
                assert(s.drop_last() =~= padded_digits(fn_ / 10, (kn - 1) as nat));
                assert(k >= 2) by {
                    if k == 1 {
                        reveal_with_fuel(pow10, 2);
                        vstd::arithmetic::div_mod::lemma_fundamental_div_mod(f as int, 10);
                    }
                }
                assert(((f / 10) as nat) < pow10((k - 1) as nat)) by {
                    vstd::arithmetic::div_mod::lemma_fundamental_div_mod(f as int, 10);
                    assert(pow10(kn) == 10 * pow10((kn - 1) as nat));
                }
                vstd::arithmetic::div_mod::lemma_fundamental_div_mod(f as int, 10);
            }
            f = f / 10;
            k = k - 1;
        }
        proof {
            let s = padded_digits(f as nat, k as nat);
            lemma_padded_digits(f as nat, k as nat);
            assert(s.last() == digit_char(f as nat % 10));
            assert(f as nat % 10 != 0);
            assert(trim_zeros(s) == s);
        }
        let mut out = format_u64(ip);
        out.append(".");
        out.append(format_padded(f, k).as_str());
        proof {
            reveal_strlit(".");
            assert(out@ =~= format_micro(v as nat));
        }
        out
    }
}

} // verus!
