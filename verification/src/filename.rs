//! Names on disk: envelope file names
//! (`{nanos:020}-{pid:010}-{rand_hex:08x}-{seq:010}-from-{from}.json`), the
//! temporary names of atomic writes, receipt names, and which directory
//! entries count as envelope files.

use vstd::prelude::*;
use vstd::utf8::{valid_utf8, decode_utf8};
use vstd::arithmetic::power::pow;
use crate::format::{decimal_value, lemma_decimal_value_of_padded, is_digit_char, zero_pad, fixed_digits, lemma_digits_are_digit_chars, lemma_zero_pad, lemma_digits_len_bound, lemma_zero_pad_is_fixed, lemma_fixed_digits_len, lemma_fixed_digits_ordered, digits, padded_decimal, padded_hex, padded_signed_decimal, push_digits, push_signed_zero_padded, push_zero_padded};
use crate::text::push_str;
use crate::outside::{now_timestamp_nanos, random_u32, utf8_str};

verus! {

/// `-from-`
pub open spec fn from_marker() -> Seq<char> {
    seq!['-', 'f', 'r', 'o', 'm', '-']
}

/// `.json`
pub open spec fn json_suffix() -> Seq<char> {
    seq!['.', 'j', 's', 'o', 'n']
}

/// The file name of an envelope written at `nanos` by process `pid` with
/// random tag `rand_hex`, as the `seq`-th envelope of that process, sent by `from`.
pub open spec fn envelope_file_name(nanos: int, pid: nat, rand_hex: nat, seq: nat, from: Seq<char>) -> Seq<char> {
    padded_signed_decimal(nanos, 20) + seq!['-'] + padded_decimal(pid, 10) + seq!['-'] + padded_hex(
        rand_hex,
        8,
    ) + seq!['-'] + padded_decimal(seq, 10) + from_marker() + from + json_suffix()
}

/// Renders an envelope file name.
pub fn format_envelope_file_name(nanos: i64, pid: u32, rand_hex: u32, seq: u64, from: &str) -> (name: String)
    ensures
        name@ == envelope_file_name(nanos as int, pid as nat, rand_hex as nat, seq as nat, from@),
{
    let mut name = String::new();
    push_signed_zero_padded(&mut name, nanos, 20);
    name.push('-');
    push_zero_padded(&mut name, pid as u64, 10, 10);
    name.push('-');
    push_zero_padded(&mut name, rand_hex as u64, 16, 8);
    name.push('-');
    push_zero_padded(&mut name, seq, 10, 10);
    name.push('-');
    name.push('f');
    name.push('r');
    name.push('o');
    name.push('m');
    name.push('-');
    push_str(&mut name, from);
    name.push('.');
    name.push('j');
    name.push('s');
    name.push('o');
    name.push('n');
    assert(name@ =~= envelope_file_name(nanos as int, pid as nat, rand_hex as nat, seq as nat, from@));
    name
}

/// The per-process counter that numbers written envelopes.
pub struct FilenameSequence {
    next: u64,
}

impl FilenameSequence {
    /// The number the next envelope gets.
    pub closed spec fn value(&self) -> u64 {
        self.next
    }

    /// A counter that starts at zero.
    pub fn new() -> (s: Self)
        ensures
            s.value() == 0,
    {
        FilenameSequence { next: 0 }
    }

    /// Takes the next number; the counter wraps around after `u64::MAX`.
    pub fn take(&mut self) -> (n: u64)
        ensures
            n == old(self).value(),
            final(self).value() == (if n == u64::MAX { 0 } else { (n + 1) as u64 }),
    {
        let n = self.next;
        self.next = n.wrapping_add(1);
        n
    }
}

/// A fresh envelope file name for an envelope from `from`, written by process
/// `pid`: the current time in nanoseconds since the epoch (0 when out of
/// range), a random tag and the next number of `seq`.
pub fn build_filename(from: &str, pid: u32, seq: &mut FilenameSequence) -> (name: String)
    ensures
        final(seq).value() == (if old(seq).value() == u64::MAX { 0 } else { (old(seq).value() + 1) as u64 }),
        exists|nanos: i64, rand_hex: u32|
            nanos >= 0 && name@ == envelope_file_name(
                nanos as int,
                pid as nat,
                rand_hex as nat,
                old(seq).value() as nat,
                from@,
            ),
{
    let n = seq.take();
    let nanos = match now_timestamp_nanos() {
        Some(t) => t,
        None => 0,
    };
    let rand_hex = random_u32();
    format_envelope_file_name(nanos, pid, rand_hex, n, from)
}

/// The temporary name `.{name}.{attempt}.tmp` used while writing `name`.
pub open spec fn temp_file_name(name: Seq<char>, attempt: nat) -> Seq<char> {
    seq!['.'] + name + seq!['.'] + digits(attempt, 10) + seq!['.', 't', 'm', 'p']
}

/// Renders the temporary name for an attempt to write `name`.
pub fn format_temp_file_name(name: &str, attempt: u32) -> (r: String)
    ensures
        r@ == temp_file_name(name@, attempt as nat),
{
    let mut r = String::new();
    r.push('.');
    push_str(&mut r, name);
    r.push('.');
    push_digits(&mut r, attempt as u64, 10);
    r.push('.');
    r.push('t');
    r.push('m');
    r.push('p');
    assert(r@ =~= temp_file_name(name@, attempt as nat));
    r
}

/// Whether a file name has the extension `json`: it ends in `.json` and
/// something comes before that dot (`Path::extension`).
pub open spec fn has_json_extension(name: Seq<u8>) -> bool {
    name.len() > 5 && name.subrange(name.len() - 5, name.len() as int) == seq![
        46u8,
        106u8,
        115u8,
        111u8,
        110u8,
    ]
}

/// Tests [`has_json_extension`].
pub fn is_json_name(name: &Vec<u8>) -> (b: bool)
    ensures
        b == has_json_extension(name@),
{
    let n = name.len();
    if n <= 5 {
        return false;
    }
    let r = name[n - 5] == 46u8 && name[n - 4] == 106u8 && name[n - 3] == 115u8 && name[n - 2] == 111u8
        && name[n - 1] == 110u8;
    proof {
        let tail = name@.subrange(n - 5, n as int);
        if r {
            assert(tail =~= seq![46u8, 106u8, 115u8, 111u8, 110u8]);
        } else {
            assert(tail != seq![46u8, 106u8, 115u8, 111u8, 110u8] ) by {
                if tail == seq![46u8, 106u8, 115u8, 111u8, 110u8] {
                    assert(tail[0] == name@[n - 5]);
                    assert(tail[4] == name@[n - 1]);
                    assert(tail[1] == name@[n - 4]);
                    assert(tail[2] == name@[n - 3]);
                    assert(tail[3] == name@[n - 2]);
                }
            }
        }
    }
    r
}

/// The view of an optional file name.
pub open spec fn file_name_view(file_name: Option<&Vec<u8>>) -> Option<Seq<u8>> {
    match file_name {
        Some(n) => Some(n@),
        None => None,
    }
}

/// The name that a receipt reports as its source: the envelope's file name
/// when it has one that is valid UTF-8, else `envelope.json`.
pub open spec fn receipt_source(file_name: Option<Seq<u8>>) -> Seq<char> {
    match file_name {
        Some(n) => if valid_utf8(n) {
            decode_utf8(n)
        } else {
            "envelope.json"@
        },
        None => "envelope.json"@,
    }
}

/// Returns [`receipt_source`] of a file name.
pub fn receipt_source_name(file_name: Option<&Vec<u8>>) -> (r: String)
    ensures
        r@ == receipt_source(file_name_view(file_name)),
{
    match file_name {
        Some(n) => match utf8_str(n.as_slice()) {
            Some(s) => crate::text::string_of(s),
            None => crate::text::string_of("envelope.json"),
        },
        None => crate::text::string_of("envelope.json"),
    }
}

/// The file name of the receipt for an envelope whose source name is `source`.
pub open spec fn receipt_file_name(source: Seq<char>) -> Seq<char> {
    source + ".receipt.json"@
}

/// Renders [`receipt_file_name`].
pub fn format_receipt_file_name(source: &str) -> (r: String)
    ensures
        r@ == receipt_file_name(source@),
{
    let mut r = crate::text::string_of(source);
    push_str(&mut r, ".receipt.json");
    r
}

} // verus!

verus! {

/// File names in lexicographic order: `x` comes before `y` when it is smaller
/// at the first place where they differ, or a proper prefix of `y`.
pub open spec fn name_precedes(x: Seq<char>, y: Seq<char>) -> bool {
    ||| exists|k: int|
        0 <= k < x.len() && k < y.len() && x.take(k) == y.take(k) && (x[k] as u32) < (y[k] as u32)
    ||| (x.len() < y.len() && x == y.take(x.len() as int))
}

proof fn lemma_padded_all_digits(n: nat, base: nat, w: nat)
    requires
        base == 10 || base == 16,
    ensures
        forall|i: int|
            0 <= i < zero_pad(digits(n, base), w).len() ==> is_digit_char(
                #[trigger] zero_pad(digits(n, base), w)[i],
            ),
        zero_pad(digits(n, base), w).len() >= w,
{
    let d = digits(n, base);
    let z = zero_pad(d, w);
    lemma_digits_are_digit_chars(n, base);
    lemma_zero_pad(d, w);
    assert forall|i: int| 0 <= i < z.len() implies is_digit_char(#[trigger] z[i]) by {
        if i >= z.len() - d.len() {
            assert(z[i] == z.subrange(z.len() - d.len(), z.len() as int)[i - (z.len() - d.len())]);
        }
    }
}

proof fn lemma_padded_exact(n: nat, base: nat, w: nat)
    requires
        base == 10 || base == 16,
        w >= 1,
        n < pow(base as int, w),
    ensures
        zero_pad(digits(n, base), w).len() == w,
{
    lemma_digits_len_bound(n, base, w);
    lemma_zero_pad(digits(n, base), w);
}

proof fn lemma_powers()
    ensures
        pow(10, 20) == 100_000_000_000_000_000_000,
        pow(10, 10) == 10_000_000_000,
        pow(16, 8) == 0x1_0000_0000,
{
    reveal_with_fuel(pow, 21);
}

/// The shape of an envelope file name written at a time after the epoch:
/// a 20-digit time, `-`, a 10-digit process id, `-`, an 8-digit hex tag, `-`,
/// a sequence number of at least 10 digits, then `-from-{from}.json`.
pub proof fn lemma_envelope_file_name_shape(nanos: int, pid: u32, rand_hex: u32, seq: u64, from: Seq<char>)
    requires
        0 <= nanos <= i64::MAX,
    ensures
        ({
            let name = envelope_file_name(nanos, pid as nat, rand_hex as nat, seq as nat, from);
            let l = padded_decimal(seq as nat, 10).len();
            &&& l >= 10
            &&& name.len() == 41 + l + from.len() + 11
            &&& name[20] == '-' && name[31] == '-' && name[40] == '-'
            &&& forall|i: int|
                (0 <= i < 20 || 21 <= i < 31 || 32 <= i < 40 || 41 <= i < 41 + l) ==> is_digit_char(
                    #[trigger] name[i],
                )
            &&& name.subrange(41 + l as int, name.len() as int) == from_marker() + from + json_suffix()
            &&& decimal_value(name.subrange(0, 20)) == nanos
            &&& decimal_value(name.subrange(41, 41 + l as int)) == seq
        }),
{
    lemma_powers();
    let t = padded_signed_decimal(nanos, 20);
    let p = padded_decimal(pid as nat, 10);
    let h = padded_hex(rand_hex as nat, 8);
    let s = padded_decimal(seq as nat, 10);
    lemma_padded_exact(nanos as nat, 10, 20);
    lemma_padded_exact(pid as nat, 10, 10);
    lemma_padded_exact(rand_hex as nat, 16, 8);
    lemma_padded_all_digits(nanos as nat, 10, 20);
    lemma_padded_all_digits(pid as nat, 10, 10);
    lemma_padded_all_digits(rand_hex as nat, 16, 8);
    lemma_padded_all_digits(seq as nat, 10, 10);
    let name = envelope_file_name(nanos, pid as nat, rand_hex as nat, seq as nat, from);
    let l = s.len();
    let tail = from_marker() + from + json_suffix();
    assert(name =~= t + seq!['-'] + p + seq!['-'] + h + seq!['-'] + s + tail);
    assert forall|i: int| (0 <= i < 20 || 21 <= i < 31 || 32 <= i < 40 || 41 <= i < 41 + l) implies is_digit_char(
        #[trigger] name[i],
    ) by {
        if i < 20 {
            assert(name[i] == t[i]);
        } else if i < 31 {
            assert(name[i] == p[i - 21]);
        } else if i < 40 {
            assert(name[i] == h[i - 32]);
        } else {
            assert(name[i] == s[i - 41]);
        }
    }
    assert(name.subrange(41 + l as int, name.len() as int) =~= tail);
    assert(name.subrange(0, 20) =~= t);
    assert(name.subrange(41, 41 + l as int) =~= s);
    lemma_decimal_value_of_padded(nanos as nat, 20);
    lemma_decimal_value_of_padded(seq as nat, 10);
}

/// Names numbered differently by the counter differ, whatever the clock,
/// process id and random tag: the number is the fourth field of the name,
/// and it is read back from the name. While the counter does not wrap,
/// every name built from one counter differs from every earlier one.
pub proof fn lemma_names_from_one_counter_differ(
    nanos_a: int,
    pid_a: u32,
    hex_a: u32,
    seq_a: u64,
    from_a: Seq<char>,
    nanos_b: int,
    pid_b: u32,
    hex_b: u32,
    seq_b: u64,
    from_b: Seq<char>,
)
    requires
        0 <= nanos_a <= i64::MAX,
        0 <= nanos_b <= i64::MAX,
        seq_a != seq_b,
    ensures
        envelope_file_name(nanos_a, pid_a as nat, hex_a as nat, seq_a as nat, from_a) != envelope_file_name(
            nanos_b,
            pid_b as nat,
            hex_b as nat,
            seq_b as nat,
            from_b,
        ),
{
    let x = envelope_file_name(nanos_a, pid_a as nat, hex_a as nat, seq_a as nat, from_a);
    let y = envelope_file_name(nanos_b, pid_b as nat, hex_b as nat, seq_b as nat, from_b);
    lemma_envelope_file_name_shape(nanos_a, pid_a, hex_a, seq_a, from_a);
    lemma_envelope_file_name_shape(nanos_b, pid_b, hex_b, seq_b, from_b);
    let la = padded_decimal(seq_a as nat, 10).len();
    let lb = padded_decimal(seq_b as nat, 10).len();
    if x == y {
        if la < lb {
            assert(x[41 + la as int] == x.subrange(41 + la as int, x.len() as int)[0]);
            assert(is_digit_char(y[41 + la as int]));
        } else if lb < la {
            assert(y[41 + lb as int] == y.subrange(41 + lb as int, y.len() as int)[0]);
            assert(is_digit_char(x[41 + lb as int]));
        }
    }
}

/// What follows the time in an envelope file name.
pub open spec fn name_after_time(pid: nat, rand_hex: nat, seq: nat, from: Seq<char>) -> Seq<char> {
    seq!['-'] + padded_decimal(pid, 10) + seq!['-'] + padded_hex(rand_hex, 8) + seq!['-']
        + padded_decimal(seq, 10) + from_marker() + from + json_suffix()
}

proof fn lemma_name_split(nanos: int, pid: nat, rand_hex: nat, seq: nat, from: Seq<char>)
    ensures
        envelope_file_name(nanos, pid, rand_hex, seq, from) == padded_signed_decimal(nanos, 20)
            + name_after_time(pid, rand_hex, seq, from),
{
    assert(envelope_file_name(nanos, pid, rand_hex, seq, from) =~= padded_signed_decimal(nanos, 20)
        + name_after_time(pid, rand_hex, seq, from));
}

/// Where two names built at times `earlier < later` after the epoch first
/// differ: a place `k` within the time field, where the earlier name has the
/// smaller digit.
pub proof fn lemma_time_field_first_difference(
    earlier: int,
    later: int,
    pid_a: u32,
    hex_a: u32,
    seq_a: u64,
    from_a: Seq<char>,
    pid_b: u32,
    hex_b: u32,
    seq_b: u64,
    from_b: Seq<char>,
) -> (k: int)
    requires
        0 <= earlier < later <= i64::MAX,
    ensures
        ({
            let x = envelope_file_name(earlier, pid_a as nat, hex_a as nat, seq_a as nat, from_a);
            let y = envelope_file_name(later, pid_b as nat, hex_b as nat, seq_b as nat, from_b);
            &&& 0 <= k < 20
            &&& x.take(k) == y.take(k)
            &&& (x[k] as u32) < (y[k] as u32)
        }),
{
    lemma_powers();
    lemma_zero_pad_is_fixed(earlier as nat, 20);
    lemma_zero_pad_is_fixed(later as nat, 20);
    lemma_fixed_digits_len(earlier as nat, 20);
    lemma_fixed_digits_len(later as nat, 20);
    lemma_fixed_digits_ordered(earlier as nat, later as nat, 20);
    let fa = fixed_digits(earlier as nat, 20);
    let fb = fixed_digits(later as nat, 20);
    let k = choose|k: int|
        0 <= k < 20 && fa.take(k) == fb.take(k) && (fa[k] as u32) < (fb[k] as u32);
    lemma_name_split(earlier, pid_a as nat, hex_a as nat, seq_a as nat, from_a);
    lemma_name_split(later, pid_b as nat, hex_b as nat, seq_b as nat, from_b);
    let x = envelope_file_name(earlier, pid_a as nat, hex_a as nat, seq_a as nat, from_a);
    let y = envelope_file_name(later, pid_b as nat, hex_b as nat, seq_b as nat, from_b);
    let ra = name_after_time(pid_a as nat, hex_a as nat, seq_a as nat, from_a);
    let rb = name_after_time(pid_b as nat, hex_b as nat, seq_b as nat, from_b);
    assert((fa + ra).take(k) =~= fa.take(k));
    assert((fb + rb).take(k) =~= fb.take(k));
    assert((fa + ra)[k] == fa[k]);
    assert((fb + rb)[k] == fb[k]);
    k
}

/// Sorting envelope file names sorts them by time: of two names written at
/// different times after the epoch, the earlier one comes first, whatever
/// the other fields hold.
pub proof fn lemma_file_names_follow_time(
    earlier: int,
    later: int,
    pid_a: u32,
    hex_a: u32,
    seq_a: u64,
    from_a: Seq<char>,
    pid_b: u32,
    hex_b: u32,
    seq_b: u64,
    from_b: Seq<char>,
)
    requires
        0 <= earlier < later <= i64::MAX,
    ensures
        name_precedes(
            envelope_file_name(earlier, pid_a as nat, hex_a as nat, seq_a as nat, from_a),
            envelope_file_name(later, pid_b as nat, hex_b as nat, seq_b as nat, from_b),
        ),
{
    let _k = lemma_time_field_first_difference(
        earlier,
        later,
        pid_a,
        hex_a,
        seq_a,
        from_a,
        pid_b,
        hex_b,
        seq_b,
        from_b,
    );
}

} // verus!
