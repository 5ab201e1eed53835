//! Byte-string helpers: comparison, ASCII lowering, and the decimal
//! conversions the wire protocol uses to coerce integers and strings.

use vstd::prelude::*;

verus! {

/// True iff the two byte slices hold the same bytes.
pub fn slice_eq(a: &[u8], b: &[u8]) -> (r: bool)
    ensures
        r <==> a@ == b@,
{
    if a.len() != b.len() {
        assert(a@.len() != b@.len());
        return false;
    }
    let mut i: usize = 0;
    while i < a.len()
        invariant
            0 <= i <= a@.len(),
            a@.len() == b@.len(),
            forall|j: int| 0 <= j < i ==> a@[j] == b@[j],
        decreases a@.len() - i,
    {
        if a[i] != b[i] {
            assert(a@[i as int] != b@[i as int]);
            assert(a@ != b@);
            return false;
        }
        i = i + 1;
    }
    assert(a@ =~= b@);
    true
}

/// The ASCII lower-case image of one byte.
pub open spec fn lower_byte(c: u8) -> u8 {
    if c >= 65 && c <= 90 {
        (c + 32) as u8
    } else {
        c
    }
}

/// The ASCII lower-case image of a byte sequence.
pub open spec fn lower_bytes(s: Seq<u8>) -> Seq<u8> {
    s.map(|i: int, c: u8| lower_byte(c))
}

/// Returns the ASCII lower-case copy of `s`.
pub fn to_ascii_lower(s: &[u8]) -> (r: Vec<u8>)
    ensures
        r@ == lower_bytes(s@),
{
    let mut out: Vec<u8> = Vec::new();
    let mut i: usize = 0;
    while i < s.len()
        invariant
            0 <= i <= s@.len(),
            out@.len() == i,
            forall|j: int| 0 <= j < i ==> out@[j] == lower_byte(s@[j]),
        decreases s@.len() - i,
    {
        let c = s[i];
        if c >= 65 && c <= 90 {
            out.push(c + 32);
        } else {
            out.push(c);
        }
        i = i + 1;
    }
    assert(out@ =~= lower_bytes(s@));
    out
}

/// The larger of two timestamps.
pub open spec fn max64(a: u64, b: u64) -> u64 {
    if a >= b {
        a
    } else {
        b
    }
}

/// Returns the larger of two timestamps.
pub fn max_u64(a: u64, b: u64) -> (r: u64)
    ensures
        r == max64(a, b),
{
    if a >= b {
        a
    } else {
        b
    }
}

/// The value of a sequence of decimal digit bytes, most significant first.
pub open spec fn dec_val(s: Seq<u8>) -> int
    decreases s.len(),
{
    if s.len() == 0 {
        0
    } else {
        dec_val(s.drop_last()) * 10 + (s.last() - 48)
    }
}

/// True iff every byte of `s` is an ASCII decimal digit.
pub open spec fn all_digits(s: Seq<u8>) -> bool {
    forall|i: int| 0 <= i < s.len() ==> 48 <= #[trigger] s[i] <= 57
}

/// Ten to the power `n`.
pub open spec fn pow10(n: nat) -> int
    decreases n,
{
    if n == 0 {
        1
    } else {
        10 * pow10((n - 1) as nat)
    }
}

pub proof fn lemma_pow10_pos(n: nat)
    ensures
        pow10(n) >= 1,
    decreases n,
{
    if n > 0 {
        lemma_pow10_pos((n - 1) as nat);
    }
}

/// A digit string's value is below ten to its length.
pub proof fn lemma_dec_val_bound(s: Seq<u8>)
    requires
        all_digits(s),
    ensures
        0 <= dec_val(s) < pow10(s.len()),
    decreases s.len(),
{
    if s.len() > 0 {
        assert(all_digits(s.drop_last())) by {
            assert(forall|i: int|
                0 <= i < s.len() - 1 ==> 48 <= #[trigger] s.drop_last()[i] <= 57);
        }
        lemma_dec_val_bound(s.drop_last());
        assert(dec_val(s.drop_last()) * 10 <= (pow10((s.len() - 1) as nat) - 1) * 10)
            by (nonlinear_arith)
            requires
                dec_val(s.drop_last()) <= pow10((s.len() - 1) as nat) - 1,
        ;
    }
}

/// The decimal digit string of a non-negative number, most significant first.
pub open spec fn u64_dec(n: int) -> Seq<u8>
    decreases n,
{
    if n < 10 {
        seq![(48 + if n >= 0 { n } else { 0 }) as u8]
    } else {
        u64_dec(n / 10).push((48 + n % 10) as u8)
    }
}

/// The decimal digit string of an integer: a minus sign, then digits.
pub open spec fn i64_dec(n: int) -> Seq<u8> {
    if n < 0 {
        seq![45u8] + u64_dec(-n)
    } else {
        u64_dec(n)
    }
}

/// Renders `n` in decimal, most significant digit first.
pub fn u64_to_dec(n: u64) -> (r: Vec<u8>)
    ensures
        r@ == u64_dec(n as int),
        r@.len() >= 1,
    decreases n,
{
    if n < 10 {
        let mut r: Vec<u8> = Vec::new();
        r.push(48 + (n as u8));
        assert(r@ =~= u64_dec(n as int));
        r
    } else {
        let mut r = u64_to_dec(n / 10);
        r.push(48 + ((n % 10) as u8));
        r
    }
}

/// Renders `n` in decimal, with a leading minus sign when negative.
pub fn i64_to_dec(n: i64) -> (r: Vec<u8>)
    ensures
        r@ == i64_dec(n as int),
        r@.len() >= 1,
{
    if n >= 0 {
        u64_to_dec(n as u64)
    } else {
        let m: u64 = if n == -9223372036854775808i64 {
            9223372036854775808u64
        } else {
            (-n) as u64
        };
        let digits = u64_to_dec(m);
        let mut r: Vec<u8> = Vec::new();
        r.push(45);
        let mut i: usize = 0;
        while i < digits.len()
            invariant
                0 <= i <= digits@.len(),
                r@.len() == 1 + i,
                r@[0] == 45u8,
                forall|j: int| 0 <= j < i ==> r@[j + 1] == digits@[j],
            decreases digits@.len() - i,
        {
            r.push(digits[i]);
            i = i + 1;
        }
        assert(r@ =~= seq![45u8] + digits@);
        r
    }
}

/// What the decimal parser accepts: an optional minus sign, then one to
/// nineteen digits, with the value in the range of `i64`.
pub open spec fn parse_i64_spec(s: Seq<u8>) -> Option<i64> {
    let neg = s.len() > 0 && s[0] == 45;
    let ds = if neg { s.skip(1) } else { s };
    if 1 <= ds.len() <= 19 && all_digits(ds) {
        let v = if neg { -dec_val(ds) } else { dec_val(ds) };
        if -9223372036854775808 <= v <= 9223372036854775807 {
            Some(v as i64)
        } else {
            Option::None
        }
    } else {
        Option::None
    }
}

/// Parses a decimal integer from bytes; `None` when the bytes are not a
/// well-formed decimal number or the value does not fit in an `i64`.
pub fn bytes2i64(s: &[u8]) -> (r: Option<i64>)
    ensures
        r == parse_i64_spec(s@),
{
    let neg = s.len() > 0 && s[0] == 45;
    let start: usize = if neg { 1 } else { 0 };
    let n = s.len();
    let ghost ds = if neg { s@.skip(1) } else { s@ };
    if n - start < 1 || n - start > 19 {
        return Option::None;
    }
    let mut acc: u64 = 0;
    let mut i: usize = start;
    while i < n
        invariant
            start <= i <= n,
            n == s@.len(),
            neg == (s@.len() > 0 && s@[0] == 45),
            start == if neg { 1int } else { 0int },
            ds == if neg { s@.skip(1) } else { s@ },
            1 <= n - start <= 19,
            ds.len() == n - start,
            forall|j: int| start <= j < n ==> ds[j - start] == s@[j],
            all_digits(ds.take(i - start)),
            acc == dec_val(ds.take(i - start)),
            acc < pow10((i - start) as nat),
        decreases n - i,
    {
        let c = s[i];
        if c < 48 || c > 57 {
            proof {
                assert(ds[i - start] == c);
                assert(!all_digits(ds));
            }
            return Option::None;
        }
        proof {
            lemma_pow10_le_19((i - start + 1) as nat);
            assert(acc * 10 <= (pow10((i - start) as nat) - 1) * 10) by (nonlinear_arith)
                requires
                    acc <= pow10((i - start) as nat) - 1,
            ;
        }
        acc = acc * 10 + ((c - 48) as u64);
        proof {
            assert(ds.take(i - start + 1).drop_last() =~= ds.take(i - start));
            assert(ds.take(i - start + 1).last() == c);
        }
        i = i + 1;
    }
    proof {
        assert(ds.take(i - start) =~= ds);
    }
    if neg {
        if acc > 9223372036854775808u64 {
            return Option::None;
        }
        if acc == 9223372036854775808u64 {
            Option::Some(-9223372036854775808i64)
        } else {
            Option::Some(-(acc as i64))
        }
    } else {
        if acc > 9223372036854775807u64 {
            return Option::None;
        }
        Option::Some(acc as i64)
    }
}

/// Ten to any power up to nineteen fits in a `u64`.
pub proof fn lemma_pow10_le_19(n: nat)
    requires
        n <= 19,
    ensures
        pow10(n) <= 10000000000000000000,
{
    lemma_pow10_mono_to_19(n);
    assert(pow10(19) == 10000000000000000000) by {
        reveal_with_fuel(pow10, 21);
    }
}

/// Ten to a power grows with the power.
pub proof fn lemma_pow10_mono(a: nat, b: nat)
    requires
        a <= b,
    ensures
        pow10(a) <= pow10(b),
    decreases b - a,
{
    if a < b {
        lemma_pow10_mono(a, (b - 1) as nat);
        lemma_pow10_pos((b - 1) as nat);
    }
}

proof fn lemma_pow10_mono_to_19(n: nat)
    requires
        n <= 19,
    ensures
        pow10(n) <= pow10(19),
    decreases 19 - n,
{
    if n < 19 {
        lemma_pow10_mono_to_19(n + 1);
        lemma_pow10_pos(n);
    }
}

} // verus!
