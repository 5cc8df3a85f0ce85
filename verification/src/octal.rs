//! Octal number fields of a tar header: ASCII digits written with `{:o}` and
//! read back the way `u64::from_str_radix(.., 8)` reads them.

use vstd::prelude::*;

verus! {

/// The ASCII digit for an octal digit value below 8.
pub open spec fn digit_byte(d: nat) -> u8 {
    (d + 48) as u8
}

/// The octal digits of `n`, most significant first, with no leading zeros
/// (`0` is the single digit `"0"`): what `format!("{:o}", n)` produces.
pub open spec fn octal_digits(n: nat) -> Seq<u8>
    decreases n,
{
    if n < 8 {
        seq![digit_byte(n)]
    } else {
        octal_digits(n / 8).push(digit_byte(n % 8))
    }
}

/// Writes `n` in octal as ASCII digits, like `format!("{:o}", n)`.
pub fn octal_ascii(n: u64) -> (digits: Vec<u8>)
    ensures
        digits@ == octal_digits(n as nat),
    decreases n,
{
    if n < 8 {
        let mut v: Vec<u8> = Vec::new();
        v.push(n as u8 + 48);
        v
    } else {
        let mut v = octal_ascii(n / 8);
        v.push((n % 8) as u8 + 48);
        v
    }
}


/// `field` without the NUL bytes at its end.
pub open spec fn trim_trailing_nul(field: Seq<u8>) -> Seq<u8>
    decreases field.len(),
{
    if field.len() > 0 && field.last() == 0 {
        trim_trailing_nul(field.drop_last())
    } else {
        field
    }
}

/// An ASCII digit `0` to `7`.
pub open spec fn is_octal_digit(b: u8) -> bool {
    48 <= b <= 55
}

pub open spec fn all_octal_digits(s: Seq<u8>) -> bool {
    forall|i: int| 0 <= i < s.len() ==> #[trigger] is_octal_digit(s[i])
}

/// The number that a string of octal digits denotes.
pub open spec fn octal_value(s: Seq<u8>) -> nat
    decreases s.len(),
{
    if s.len() == 0 {
        0
    } else {
        octal_value(s.drop_last()) * 8 + (s.last() - 48) as nat
    }
}

/// The digits of an unsigned number written as text: a leading `+` is
/// dropped when something follows it.
pub open spec fn unsigned_digits(t: Seq<u8>) -> Seq<u8> {
    if t.len() > 1 && t[0] == 43 {
        t.drop_first()
    } else {
        t
    }
}

/// What an octal header field holds: the field is read as text, NULs at its
/// end are dropped, and the rest must be a non-empty octal number (with an
/// optional leading `+`) that fits in a `u64`.
pub open spec fn parse_octal(field: Seq<u8>) -> Option<u64> {
    let d = unsigned_digits(trim_trailing_nul(field));
    if d.len() > 0 && all_octal_digits(d) && octal_value(d) <= u64::MAX {
        Some(octal_value(d) as u64)
    } else {
        None
    }
}

proof fn lemma_trim_of_prefix(field: Seq<u8>, end: int)
    requires
        0 < end <= field.len(),
        field[end - 1] == 0,
    ensures
        trim_trailing_nul(field.subrange(0, end)) == trim_trailing_nul(field.subrange(0, end - 1)),
{
    assert(field.subrange(0, end).drop_last() =~= field.subrange(0, end - 1));
}

proof fn lemma_octal_value_step(s: Seq<u8>, i: int)
    requires
        0 <= i < s.len(),
    ensures
        octal_value(s.subrange(0, i + 1)) == octal_value(s.subrange(0, i)) * 8 + (s[i] - 48) as nat,
{
    assert(s.subrange(0, i + 1).drop_last() =~= s.subrange(0, i));
}

/// A longer prefix of a digit string never denotes a smaller number.
proof fn lemma_octal_value_prefix(s: Seq<u8>, j: int)
    requires
        0 <= j <= s.len(),
        all_octal_digits(s),
    ensures
        octal_value(s.subrange(0, j)) <= octal_value(s),
    decreases s.len(),
{
    if j < s.len() {
        let t = s.drop_last();
        assert(all_octal_digits(t)) by {
            assert forall|i: int| 0 <= i < t.len() implies #[trigger] is_octal_digit(t[i]) by {
                assert(is_octal_digit(s[i]));
            }
        }
        lemma_octal_value_prefix(t, j);
        assert(t.subrange(0, j) =~= s.subrange(0, j));
    } else {
        assert(s.subrange(0, j) =~= s);
    }
}

/// Reads an octal header field as `u64::from_str_radix` does after the NULs
/// at its end are trimmed: `None` where the text is empty, holds a byte
/// that is not an octal digit, or denotes a number above `u64::MAX`.
pub fn parse_octal_field(field: &[u8]) -> (value: Option<u64>)
    ensures
        value == parse_octal(field@),
{
    let mut end: usize = field.len();
    assert(field@.subrange(0, end as int) =~= field@);
    while end > 0 && field[end - 1] == 0
        invariant
            end <= field.len(),
            trim_trailing_nul(field@) == trim_trailing_nul(field@.subrange(0, end as int)),
        decreases end,
    {
        proof {
            lemma_trim_of_prefix(field@, end as int);
        }
        end = end - 1;
    }
    let ghost t = field@.subrange(0, end as int);
    assert(trim_trailing_nul(t) == t);
    assert(field@.subrange(0, field@.len() as int) =~= field@);
    assert(trim_trailing_nul(field@) == t);
    let start: usize = if end > 1 && field[0] == 43 {
        1
    } else {
        0
    };
    let ghost d = unsigned_digits(t);
    assert(d =~= field@.subrange(start as int, end as int));
    if start == end {
        return None;
    }
    let mut value: u64 = 0;
    let mut i: usize = start;
    while i < end
        invariant
            start <= i <= end <= field.len(),
            d == field@.subrange(start as int, end as int),
            d == unsigned_digits(trim_trailing_nul(field@)),
            d.len() > 0,
            value as nat == octal_value(d.subrange(0, i - start)),
            all_octal_digits(d.subrange(0, i - start)),
        decreases end - i,
    {
        let b = field[i];
        assert(b == d[i - start]);
        if b < 48 || b > 55 {
            assert(!is_octal_digit(d[i - start]));
            return None;
        }
        let digit: u64 = (b - 48) as u64;
        proof {
            lemma_octal_value_step(d, i - start);
        }
        if value > (u64::MAX - digit) / 8 {
            proof {
                assert(all_octal_digits(d) ==> octal_value(d) > u64::MAX) by {
                    if all_octal_digits(d) {
                        lemma_octal_value_prefix(d, i - start + 1);
                    }
                }
            }
            return None;
        }
        value = value * 8 + digit;
        i = i + 1;
        assert(all_octal_digits(d.subrange(0, i - start))) by {
            assert forall|k: int| 0 <= k < i - start implies #[trigger] is_octal_digit(
                d.subrange(0, i - start)[k],
            ) by {
                if k < i - start - 1 {
                    assert(is_octal_digit(d.subrange(0, i - start - 1)[k]));
                }
            }
        }
    }
    assert(d.subrange(0, i - start) =~= d);
    Some(value)
}


/// `8` to the power `k`.
pub open spec fn pow8(k: nat) -> nat
    decreases k,
{
    if k == 0 {
        1
    } else {
        8 * pow8((k - 1) as nat)
    }
}

/// `k` ASCII zeros.
pub open spec fn zeros_ascii(k: nat) -> Seq<u8> {
    Seq::new(k, |i: int| 48u8)
}

/// The octal digits of `n` right-aligned in `width` places and padded with
/// ASCII zeros on the left; where `n` needs more than `width` digits, only
/// its first `width` digits are kept.
pub open spec fn padded_octal(n: nat, width: nat) -> Seq<u8> {
    let d = octal_digits(n);
    let l = if d.len() < width {
        d.len()
    } else {
        width
    };
    zeros_ascii((width - l) as nat) + d.take(l as int)
}

/// The digits of `octal_digits(n)` are octal digits, at least one of them,
/// and they denote `n`.
pub proof fn lemma_octal_digits(n: nat)
    ensures
        octal_digits(n).len() >= 1,
        all_octal_digits(octal_digits(n)),
        octal_value(octal_digits(n)) == n,
    decreases n,
{
    if n < 8 {
        assert(octal_digits(n).drop_last() =~= Seq::<u8>::empty());
        assert(digit_byte(n) - 48 == n);
        assert(octal_value(octal_digits(n)) == octal_value(Seq::<u8>::empty()) * 8 + (digit_byte(n) - 48) as nat);
    } else {
        lemma_octal_digits(n / 8);
        let s = octal_digits(n);
        let t = octal_digits(n / 8);
        assert(s.drop_last() =~= t);
        assert(s.last() == digit_byte(n % 8));
        assert((n / 8) * 8 + n % 8 == n);
        assert forall|i: int| 0 <= i < s.len() implies #[trigger] is_octal_digit(s[i]) by {
            if i < t.len() {
                assert(is_octal_digit(t[i]));
            }
        }
    }
}

/// A number below `8^k` (with `k >= 1`) has at most `k` octal digits.
pub proof fn lemma_octal_len_upper(n: nat, k: nat)
    requires
        k >= 1,
        n < pow8(k),
    ensures
        octal_digits(n).len() <= k,
    decreases k,
{
    if n >= 8 {
        assert(k >= 2) by {
            if k == 1 {
                assert(pow8(1) == 8) by {
                    reveal_with_fuel(pow8, 2);
                }
            }
        }
        assert(n / 8 < pow8((k - 1) as nat));
        lemma_octal_len_upper(n / 8, (k - 1) as nat);
    }
}

/// A number at least `8^(k-1)` (with `k >= 1`) has at least `k` octal digits.
pub proof fn lemma_octal_len_lower(n: nat, k: nat)
    requires
        k >= 1,
        pow8((k - 1) as nat) <= n,
    ensures
        octal_digits(n).len() >= k,
    decreases k,
{
    if k > 1 {
        let p = pow8((k - 2) as nat);
        assert(pow8((k - 1) as nat) == 8 * p);
        assert(p >= 1) by {
            lemma_pow8_positive((k - 2) as nat);
        }
        assert(n / 8 >= p);
        lemma_octal_len_lower(n / 8, (k - 1) as nat);
    }
}

pub proof fn lemma_pow8_positive(k: nat)
    ensures
        pow8(k) >= 1,
    decreases k,
{
    if k > 0 {
        lemma_pow8_positive((k - 1) as nat);
    }
}

/// A string of `k` octal digits denotes a number below `8^k`.
pub proof fn lemma_octal_value_bound(s: Seq<u8>)
    requires
        all_octal_digits(s),
    ensures
        octal_value(s) < pow8(s.len()),
    decreases s.len(),
{
    if s.len() > 0 {
        let t = s.drop_last();
        assert(all_octal_digits(t)) by {
            assert forall|i: int| 0 <= i < t.len() implies #[trigger] is_octal_digit(t[i]) by {
                assert(is_octal_digit(s[i]));
            }
        }
        lemma_octal_value_bound(t);
        assert(is_octal_digit(s[s.len() - 1]));
    }
}

proof fn lemma_zeros_value(k: nat)
    ensures
        octal_value(zeros_ascii(k)) == 0,
    decreases k,
{
    if k > 0 {
        assert(zeros_ascii(k).drop_last() =~= zeros_ascii((k - 1) as nat));
        lemma_zeros_value((k - 1) as nat);
    }
}

/// Leading ASCII zeros change neither the value nor the validity of a digit
/// string.
pub proof fn lemma_leading_zeros(k: nat, s: Seq<u8>)
    ensures
        octal_value(zeros_ascii(k) + s) == octal_value(s),
        all_octal_digits(s) ==> all_octal_digits(zeros_ascii(k) + s),
    decreases s.len(),
{
    let z = zeros_ascii(k) + s;
    if s.len() == 0 {
        assert(z =~= zeros_ascii(k));
        lemma_zeros_value(k);
    } else {
        assert(z.drop_last() =~= zeros_ascii(k) + s.drop_last());
        lemma_leading_zeros(k, s.drop_last());
    }
    if all_octal_digits(s) {
        assert forall|i: int| 0 <= i < z.len() implies #[trigger] is_octal_digit(z[i]) by {
            if i >= k {
                assert(is_octal_digit(s[i - k]));
            }
        }
    }
}

/// A padded octal field followed by NULs reads back as a number, which is
/// `n` itself where `n` fits in the field.
pub proof fn lemma_parse_padded_octal(n: nat, width: nat, tail: Seq<u8>)
    requires
        1 <= width <= 21,
        forall|i: int| 0 <= i < tail.len() ==> tail[i] == 0,
    ensures
        parse_octal(padded_octal(n, width) + tail) is Some,
        octal_digits(n).len() <= width ==> parse_octal(padded_octal(n, width) + tail) == Some(
            n as u64,
        ),
{
    let d = octal_digits(n);
    lemma_octal_digits(n);
    let l = if d.len() < width {
        d.len()
    } else {
        width
    };
    let p = padded_octal(n, width);
    let dt = d.take(l as int);
    assert(all_octal_digits(dt)) by {
        assert forall|i: int| 0 <= i < dt.len() implies #[trigger] is_octal_digit(dt[i]) by {
            assert(is_octal_digit(d[i]));
        }
    }
    lemma_leading_zeros((width - l) as nat, dt);
    assert(p.len() == width);
    assert(is_octal_digit(p[p.len() - 1]));
    lemma_trim_digits_then_nuls(p, tail);
    assert(is_octal_digit(p[0]));
    assert(unsigned_digits(p) == p);
    lemma_octal_value_bound(p);
    lemma_pow8_monotone(width, 21);
    assert(pow8(21) == 9223372036854775808) by {
        reveal_with_fuel(pow8, 22);
    }
    if d.len() <= width {
        assert(dt =~= d);
    }
}

pub proof fn lemma_pow8_monotone(a: nat, b: nat)
    requires
        a <= b,
    ensures
        pow8(a) <= pow8(b),
    decreases b,
{
    if a < b {
        lemma_pow8_monotone(a, (b - 1) as nat);
        lemma_pow8_positive((b - 1) as nat);
    }
}

/// Trimming the NULs after a digit string gives the digit string back.
pub proof fn lemma_trim_digits_then_nuls(p: Seq<u8>, tail: Seq<u8>)
    requires
        p.len() > 0,
        p.last() != 0,
        forall|i: int| 0 <= i < tail.len() ==> tail[i] == 0,
    ensures
        trim_trailing_nul(p + tail) == p,
    decreases tail.len(),
{
    if tail.len() == 0 {
        assert(p + tail =~= p);
    } else {
        assert((p + tail).drop_last() =~= p + tail.drop_last());
        lemma_trim_digits_then_nuls(p, tail.drop_last());
    }
}


/// The octal digits of `n` right-aligned in `width` places, as
/// `padded_octal` describes them.
pub fn padded_octal_ascii(n: u64, width: usize) -> (field: Vec<u8>)
    ensures
        field@ == padded_octal(n as nat, width as nat),
{
    let digits = octal_ascii(n);
    let l: usize = if digits.len() < width {
        digits.len()
    } else {
        width
    };
    let mut field: Vec<u8> = Vec::with_capacity(width);
    let mut i: usize = 0;
    while i < width - l
        invariant
            i <= width - l,
            field@ == zeros_ascii(i as nat),
        decreases width - l - i,
    {
        field.push(48u8);
        i = i + 1;
        assert(field@ =~= zeros_ascii(i as nat));
    }
    let mut j: usize = 0;
    while j < l
        invariant
            j <= l <= digits@.len(),
            digits@ == octal_digits(n as nat),
            field@ == zeros_ascii((width - l) as nat) + digits@.take(j as int),
        decreases l - j,
    {
        field.push(digits[j]);
        j = j + 1;
        assert(field@ =~= zeros_ascii((width - l) as nat) + digits@.take(j as int));
    }
    field
}


/// Trimming never makes a field longer.
pub proof fn lemma_trim_len(field: Seq<u8>)
    ensures
        trim_trailing_nul(field).len() <= field.len(),
        unsigned_digits(trim_trailing_nul(field)).len() <= field.len(),
    decreases field.len(),
{
    if field.len() > 0 && field.last() == 0 {
        lemma_trim_len(field.drop_last());
    }
}


/// Reading back the digits that `octal_ascii` writes gives the number.
pub proof fn lemma_octal_read_back(n: u64)
    ensures
        parse_octal(octal_digits(n as nat)) == Some(n),
{
    let p = octal_digits(n as nat);
    lemma_octal_digits(n as nat);
    assert(is_octal_digit(p[p.len() - 1]));
    lemma_trim_digits_then_nuls(p, Seq::empty());
    assert(p + Seq::<u8>::empty() =~= p);
    assert(is_octal_digit(p[0]));
}

} // verus!
