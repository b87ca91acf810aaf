//! Zero-padded decimal and lower-case hexadecimal rendering of integers, as
//! the `{:0N}` and `{:0Nx}` format specifications produce them.

use vstd::prelude::*;
use vstd::arithmetic::power::{pow, lemma_pow1, lemma_pow_positive};

verus! {

/// The character for digit `d` (`0`-`9`, then `a`-`f`).
pub open spec fn digit_char(d: nat) -> char {
    if d < 10 {
        (48 + d) as char
    } else {
        (87 + d) as char
    }
}

/// The digits of `n` in base `base`, most significant first, without leading zeros
/// (`0` is the single digit `0`).
pub open spec fn digits(n: nat, base: nat) -> Seq<char>
    recommends
        base >= 2,
    decreases n,
    when base >= 2
{
    if n < base {
        seq![digit_char(n)]
    } else {
        proof {
            assert(n / base < n) by (nonlinear_arith)
                requires
                    n >= base,
                    base >= 2,
            ;
        }
        digits(n / base, base).push(digit_char(n % base))
    }
}

/// `s` padded on the left with `0` to at least `width` characters.
pub open spec fn zero_pad(s: Seq<char>, width: nat) -> Seq<char> {
    if s.len() >= width {
        s
    } else {
        Seq::new((width - s.len()) as nat, |_i: int| '0') + s
    }
}

/// `{:0width}` of an unsigned integer.
pub open spec fn padded_decimal(n: nat, width: nat) -> Seq<char> {
    zero_pad(digits(n, 10), width)
}

/// `{:0widthx}` of an unsigned integer.
pub open spec fn padded_hex(n: nat, width: nat) -> Seq<char> {
    zero_pad(digits(n, 16), width)
}

/// `{:0width}` of a signed integer: the sign comes first and the zeros fill
/// the rest of the width.
pub open spec fn padded_signed_decimal(n: int, width: nat) -> Seq<char> {
    if n < 0 {
        seq!['-'] + zero_pad(digits((-n) as nat, 10), if width >= 1 { (width - 1) as nat } else { 0 })
    } else {
        padded_decimal(n as nat, width)
    }
}

fn digit(d: u64) -> (c: char)
    requires
        d < 16,
    ensures
        c == digit_char(d as nat),
{
    if d < 10 {
        ((48 + d) as u8) as char
    } else {
        ((87 + d) as u8) as char
    }
}

/// Appends the digits of `n` in base `base`.
pub fn push_digits(out: &mut String, n: u64, base: u64)
    requires
        base == 10 || base == 16,
    ensures
        final(out)@ == old(out)@ + digits(n as nat, base as nat),
    decreases n,
{
    if n >= base {
        push_digits(out, n / base, base);
    }
    out.push(digit(n % base));
}

/// The number of digits of `n` in base `base`.
pub fn digits_len(n: u64, base: u64) -> (len: usize)
    requires
        base == 10 || base == 16,
    ensures
        len == digits(n as nat, base as nat).len(),
    decreases n,
{
    if n >= base {
        let l = digits_len(n / base, base);
        proof {
            lemma_digits_len_small(n as nat, base as nat);
        }
        l + 1
    } else {
        1
    }
}

/// No base-10 or base-16 rendering of a 64-bit value has more than 20 digits.
proof fn lemma_digits_len_small(n: nat, base: nat)
    requires
        base == 10 || base == 16,
        n < 0x1_0000_0000_0000_0000,
    ensures
        digits(n, base).len() <= 20,
{
    assert(pow(10, 20) == 100_000_000_000_000_000_000) by {
        reveal_with_fuel(pow, 21);
    }
    assert(pow(16, 20) == 0x1_0000_0000_0000_0000_0000) by {
        reveal_with_fuel(pow, 21);
    }
    lemma_digits_len_bound(n, base, 20);
}

/// Below `base^k` a number has at most `k` digits.
pub proof fn lemma_digits_len_bound(n: nat, base: nat, k: nat)
    requires
        base >= 2,
        k >= 1,
        n < pow(base as int, k),
    ensures
        digits(n, base).len() <= k,
    decreases k,
{
    if n >= base {
        lemma_pow1(base as int);
        let p = pow(base as int, (k - 1) as nat);
        lemma_pow_positive(base as int, (k - 1) as nat);
        assert(pow(base as int, k) == base * p) by {
            reveal(pow);
        }
        assert(k >= 2);
        assert(n / base < p) by (nonlinear_arith)
            requires
                n < base * p,
                base >= 2,
        ;
        lemma_digits_len_bound(n / base, base, (k - 1) as nat);
    }
}

/// Appends `{:0width}` (base 10) or `{:0widthx}` (base 16) of `n`.
pub fn push_zero_padded(out: &mut String, n: u64, base: u64, width: usize)
    requires
        base == 10 || base == 16,
    ensures
        final(out)@ == old(out)@ + zero_pad(digits(n as nat, base as nat), width as nat),
{
    let len = digits_len(n, base);
    let ghost start = out@;
    if len < width {
        let mut k: usize = 0;
        while k < width - len
            invariant
                len < width,
                k <= width - len,
                out@ == start + Seq::new(k as nat, |_i: int| '0'),
            decreases width - len - k,
        {
            out.push('0');
            proof {
                assert(Seq::new(k as nat, |_i: int| '0').push('0') =~= Seq::new(
                    (k + 1) as nat,
                    |_i: int| '0',
                ));
            }
            k = k + 1;
        }
    }
    let ghost mid = out@;
    push_digits(out, n, base);
    proof {
        if len < width {
            assert(out@ =~= start + (Seq::new((width - len) as nat, |_i: int| '0') + digits(
                n as nat,
                base as nat,
            )));
        } else {
            assert(mid == start);
        }
    }
}

/// Appends `{:0width}` of a signed value.
pub fn push_signed_zero_padded(out: &mut String, n: i64, width: usize)
    ensures
        final(out)@ == old(out)@ + padded_signed_decimal(n as int, width as nat),
{
    if n < 0 {
        let m: u64 = (0 - (n as i128)) as u64;
        let ghost start = out@;
        out.push('-');
        let w = if width >= 1 { width - 1 } else { 0 };
        push_zero_padded(out, m, 10, w);
        proof {
            assert(out@ =~= start + (seq!['-'] + zero_pad(digits(m as nat, 10), w as nat)));
        }
    } else {
        push_zero_padded(out, n as u64, 10, width);
    }
}

} // verus!

verus! {

/// Whether `c` is a digit character (`0`-`9` or `a`-`f`).
pub open spec fn is_digit_char(c: char) -> bool {
    ('0' <= c && c <= '9') || ('a' <= c && c <= 'f')
}

/// The code point of the character of a digit.
pub proof fn lemma_digit_char_value(d: nat)
    requires
        d < 16,
    ensures
        d < 10 ==> digit_char(d) as u32 == 48 + d,
        d >= 10 ==> digit_char(d) as u32 == 87 + d,
        is_digit_char(digit_char(d)),
{
}

/// Every character of a rendering is a digit character.
pub proof fn lemma_digits_are_digit_chars(n: nat, base: nat)
    requires
        base == 10 || base == 16,
    ensures
        forall|i: int| 0 <= i < digits(n, base).len() ==> is_digit_char(#[trigger] digits(n, base)[i]),
    decreases n,
{
    if n < base {
        lemma_digit_char_value(n);
    } else {
        lemma_digits_are_digit_chars(n / base, base);
        lemma_digit_char_value(n % base);
        let d = digits(n, base);
        let e = digits(n / base, base);
        assert forall|i: int| 0 <= i < d.len() implies is_digit_char(#[trigger] d[i]) by {
            if i < e.len() {
                assert(d[i] == e[i]);
            }
        }
    }
}

/// Padding adds only `0`s, on the left, up to the width.
pub proof fn lemma_zero_pad(s: Seq<char>, width: nat)
    ensures
        zero_pad(s, width).len() == if s.len() >= width { s.len() } else { width },
        forall|i: int|
            0 <= i < zero_pad(s, width).len() - s.len() ==> #[trigger] zero_pad(s, width)[i] == '0',
        zero_pad(s, width).subrange(zero_pad(s, width).len() - s.len(), zero_pad(s, width).len() as int)
            == s,
{
    if s.len() < width {
        let z = zero_pad(s, width);
        assert(z.subrange(z.len() - s.len(), z.len() as int) =~= s);
    } else {
        assert(s.subrange(0, s.len() as int) =~= s);
    }
}

/// `n` written with exactly `w` decimal digits, keeping the low `w` digits.
pub open spec fn fixed_digits(n: nat, w: nat) -> Seq<char>
    decreases w,
{
    if w == 0 {
        Seq::empty()
    } else {
        fixed_digits(n / 10, (w - 1) as nat).push(digit_char(n % 10))
    }
}

proof fn lemma_fixed_digits_zero(w: nat)
    ensures
        fixed_digits(0, w) == Seq::new(w, |_i: int| '0'),
    decreases w,
{
    if w > 0 {
        lemma_fixed_digits_zero((w - 1) as nat);
        assert(fixed_digits(0, w) =~= Seq::new(w, |_i: int| '0'));
    } else {
        assert(fixed_digits(0, w) =~= Seq::new(w, |_i: int| '0'));
    }
}

/// Below `10^w`, padding the decimal digits to width `w` writes exactly `w` digits.
pub proof fn lemma_zero_pad_is_fixed(n: nat, w: nat)
    requires
        w >= 1,
        n < pow(10, w),
    ensures
        zero_pad(digits(n, 10), w) == fixed_digits(n, w),
    decreases w,
{
    if n < 10 {
        lemma_fixed_digits_zero((w - 1) as nat);
        assert(zero_pad(digits(n, 10), w) =~= fixed_digits(n, w));
    } else {
        lemma_pow1(10);
        let p = pow(10, (w - 1) as nat);
        lemma_pow_positive(10, (w - 1) as nat);
        assert(pow(10, w) == 10 * p) by {
            reveal(pow);
        }
        assert(w >= 2);
        assert(n / 10 < p) by (nonlinear_arith)
            requires
                n < 10 * p,
        ;
        lemma_zero_pad_is_fixed(n / 10, (w - 1) as nat);
        lemma_digits_len_bound(n / 10, 10, (w - 1) as nat);
        let inner = digits(n / 10, 10);
        assert(zero_pad(digits(n, 10), w) =~= zero_pad(inner, (w - 1) as nat).push(digit_char(n % 10)));
    }
}

/// Fixed-width digit strings compare as the numbers do: below `10^w`, the
/// smaller number's digits come first at the first place where they differ.
pub proof fn lemma_fixed_digits_ordered(a: nat, b: nat, w: nat)
    requires
        a < b,
        b < pow(10, w),
    ensures
        exists|k: int|
            0 <= k < w && fixed_digits(a, w).take(k) == fixed_digits(b, w).take(k) && (fixed_digits(
                a,
                w,
            )[k] as u32) < (fixed_digits(b, w)[k] as u32),
    decreases w,
{
    if w == 0 {
        reveal(pow);
    } else {
        let p = pow(10, (w - 1) as nat);
        assert(pow(10, w) == 10 * p) by {
            reveal(pow);
        }
        lemma_pow_positive(10, (w - 1) as nat);
        assert(b / 10 < p) by (nonlinear_arith)
            requires
                b < 10 * p,
        ;
        assert(a / 10 <= b / 10) by (nonlinear_arith)
            requires
                a < b,
        ;
        let fa = fixed_digits(a / 10, (w - 1) as nat);
        let fb = fixed_digits(b / 10, (w - 1) as nat);
        let xa = fixed_digits(a, w);
        let xb = fixed_digits(b, w);
        lemma_fixed_digits_len(a / 10, (w - 1) as nat);
        lemma_fixed_digits_len(b / 10, (w - 1) as nat);
        if a / 10 == b / 10 {
            assert(a % 10 < b % 10) by (nonlinear_arith)
                requires
                    a < b,
                    a / 10 == b / 10,
            ;
            lemma_digit_char_value(a % 10);
            lemma_digit_char_value(b % 10);
            let k = (w - 1) as int;
            assert(xa.take(k) =~= fa);
            assert(xb.take(k) =~= fb);
            assert(xa[k] == digit_char(a % 10));
            assert(xb[k] == digit_char(b % 10));
        } else {
            lemma_fixed_digits_ordered(a / 10, b / 10, (w - 1) as nat);
            let k = choose|k: int|
                0 <= k < w - 1 && fa.take(k) == fb.take(k) && (fa[k] as u32) < (fb[k] as u32);
            assert(xa.take(k) =~= fa.take(k));
            assert(xb.take(k) =~= fb.take(k));
            assert(xa[k] == fa[k]);
            assert(xb[k] == fb[k]);
        }
    }
}

/// A fixed-width digit string has the width as its length.
pub proof fn lemma_fixed_digits_len(n: nat, w: nat)
    ensures
        fixed_digits(n, w).len() == w,
    decreases w,
{
    if w > 0 {
        lemma_fixed_digits_len(n / 10, (w - 1) as nat);
    }
}

} // verus!

verus! {

/// `s[from..from + n]` lies within `s` and holds decimal digits only.
pub open spec fn decimal_digits_at(s: Seq<char>, from: int, n: int) -> bool {
    &&& 0 <= from
    &&& from + n <= s.len()
    &&& forall|i: int| from <= i < from + n ==> '0' <= #[trigger] s[i] && s[i] <= '9'
}

/// An RFC 3339 time in UTC as `DateTime::<Utc>::to_rfc3339` writes it:
/// `YYYY-MM-DDTHH:MM:SS`, then `.` and 3, 6 or 9 digits of the fraction when
/// it is not zero, then `+00:00`; a year above 9999 is written as `+` and its
/// 5 or 6 digits.
pub open spec fn rfc3339_utc_time(s: Seq<char>) -> bool {
    exists|y: int, f: int| #[trigger] rfc3339_utc_layout(s, y, f)
}

/// `s` is an RFC 3339 time in UTC whose year takes `y` characters and whose
/// fraction of a second takes `f` characters.
pub open spec fn rfc3339_utc_layout(s: Seq<char>, y: int, f: int) -> bool {
    &&& (y == 4 && decimal_digits_at(s, 0, 4)) || ((y == 6 || y == 7) && s.len() > 0 && s[0]
        == '+' && decimal_digits_at(s, 1, y - 1))
    &&& s.len() == y + 15 + f + 6
    &&& s[y] == '-' && decimal_digits_at(s, y + 1, 2)
    &&& s[y + 3] == '-' && decimal_digits_at(s, y + 4, 2)
    &&& s[y + 6] == 'T' && decimal_digits_at(s, y + 7, 2)
    &&& s[y + 9] == ':' && decimal_digits_at(s, y + 10, 2)
    &&& s[y + 12] == ':' && decimal_digits_at(s, y + 13, 2)
    &&& f == 0 || ((f == 4 || f == 7 || f == 10) && s[y + 15] == '.' && decimal_digits_at(
        s,
        y + 16,
        f - 1,
    ))
    &&& s.subrange(y + 15 + f, s.len() as int) == seq!['+', '0', '0', ':', '0', '0']
}

/// The value of a decimal digit character.
pub open spec fn digit_value(c: char) -> int {
    (c as u32) - 48
}

/// The number that a string of decimal digits denotes.
pub open spec fn decimal_value(s: Seq<char>) -> int
    decreases s.len(),
{
    if s.len() == 0 {
        0
    } else {
        10 * decimal_value(s.drop_last()) + digit_value(s.last())
    }
}

proof fn lemma_decimal_value_of_digits(n: nat)
    ensures
        decimal_value(digits(n, 10)) == n,
    decreases n,
{
    let d = digits(n, 10);
    if n < 10 {
        lemma_digit_char_value(n);
        assert(d.drop_last() =~= Seq::<char>::empty());
        assert(decimal_value(Seq::<char>::empty()) == 0);
        assert(d.last() == digit_char(n));
    } else {
        lemma_decimal_value_of_digits(n / 10);
        lemma_digit_char_value(n % 10);
        assert(d.drop_last() == digits(n / 10, 10));
        assert(d.last() == digit_char(n % 10));
        assert(n == 10 * (n / 10) + n % 10) by (nonlinear_arith);
    }
}

proof fn lemma_decimal_value_of_zeros(k: nat)
    ensures
        decimal_value(Seq::new(k, |_i: int| '0')) == 0,
    decreases k,
{
    if k > 0 {
        assert(Seq::new(k, |_i: int| '0').drop_last() =~= Seq::new((k - 1) as nat, |_i: int| '0'));
        lemma_decimal_value_of_zeros((k - 1) as nat);
    }
}

proof fn lemma_decimal_value_leading_zeros(k: nat, s: Seq<char>)
    ensures
        decimal_value(Seq::new(k, |_i: int| '0') + s) == decimal_value(s),
    decreases s.len(),
{
    let z = Seq::new(k, |_i: int| '0');
    if s.len() == 0 {
        assert(z + s =~= z);
        lemma_decimal_value_of_zeros(k);
    } else {
        lemma_decimal_value_leading_zeros(k, s.drop_last());
        assert((z + s).drop_last() =~= z + s.drop_last());
        assert((z + s).last() == s.last());
    }
}

/// Leading zeros do not change a number: `{:0w}` of `n` denotes `n`.
pub proof fn lemma_decimal_value_of_padded(n: nat, w: nat)
    ensures
        decimal_value(padded_decimal(n, w)) == n,
{
    lemma_decimal_value_of_digits(n);
    let d = digits(n, 10);
    if d.len() < w {
        lemma_decimal_value_leading_zeros((w - d.len()) as nat, d);
    }
}

} // verus!
