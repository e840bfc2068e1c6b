//! Decimal digit strings over bytes: formatting, parsing, and the lemmas
//! that connect the two directions.

use vstd::prelude::*;

verus! {

/// ASCII decimal digit.
pub open spec fn is_digit(b: u8) -> bool {
    0x30 <= b <= 0x39
}

/// Every byte of `s` is a decimal digit.
pub open spec fn all_digits(s: Seq<u8>) -> bool {
    forall|i: int| 0 <= i < s.len() ==> is_digit(#[trigger] s[i])
}

/// The decimal digit string of `n`, most significant digit first.
pub open spec fn dec_digits(n: nat) -> Seq<u8>
    decreases n,
{
    if n < 10 {
        seq![(0x30 + n) as u8]
    } else {
        dec_digits(n / 10).push((0x30 + n % 10) as u8)
    }
}

/// The decimal digit string of a signed value: a minus sign before the
/// digits of the magnitude.
pub open spec fn dec_signed(n: int) -> Seq<u8> {
    if n < 0 {
        seq![0x2du8] + dec_digits((-n) as nat)
    } else {
        dec_digits(n as nat)
    }
}

/// The numeric value of a digit string (0 for the empty string).
pub open spec fn digits_val(s: Seq<u8>) -> int
    decreases s.len(),
{
    if s.len() == 0 {
        0
    } else {
        digits_val(s.drop_last()) * 10 + (s.last() - 0x30)
    }
}

/// Ten to the `k`.
pub open spec fn pow10(k: nat) -> int
    decreases k,
{
    if k == 0 {
        1
    } else {
        10 * pow10((k - 1) as nat)
    }
}

/// `digits_val` of a digit string is a value between 0 and `pow10(len)`.
pub proof fn lemma_digits_val_bounds(s: Seq<u8>)
    requires
        all_digits(s),
    ensures
        0 <= digits_val(s) < pow10(s.len()),
    decreases s.len(),
{
    if s.len() > 0 {
        lemma_digits_val_bounds(s.drop_last());
        assert(is_digit(s[s.len() - 1]));
    }
}

/// Concatenating digit strings concatenates their values positionally.
pub proof fn lemma_digits_val_append(a: Seq<u8>, b: Seq<u8>)
    ensures
        digits_val(a + b) == digits_val(a) * pow10(b.len()) + digits_val(b),
    decreases b.len(),
{
    if b.len() == 0 {
        assert(a + b =~= a);
    } else {
        lemma_digits_val_append(a, b.drop_last());
        assert((a + b).drop_last() =~= a + b.drop_last());
        assert((a + b).last() == b.last());
        assert(pow10(b.len()) == 10 * pow10((b.len() - 1) as nat));
        assert(digits_val(a) * (10 * pow10((b.len() - 1) as nat)) == (digits_val(a) * pow10(
            (b.len() - 1) as nat,
        )) * 10) by (nonlinear_arith);
    }
}

/// A digit-string prefix never exceeds the whole string's value.
pub proof fn lemma_digits_val_prefix(s: Seq<u8>, k: int)
    requires
        all_digits(s),
        0 <= k <= s.len(),
    ensures
        digits_val(s.subrange(0, k)) <= digits_val(s),
{
    let pre = s.subrange(0, k);
    let suf = s.subrange(k, s.len() as int);
    assert(s =~= pre + suf);
    assert(all_digits(pre));
    assert(all_digits(suf));
    lemma_digits_val_append(pre, suf);
    lemma_digits_val_bounds(pre);
    lemma_digits_val_bounds(suf);
    assert(pow10(suf.len()) >= 1) by {
        lemma_pow10_pos(suf.len());
    }
    assert(digits_val(pre) * pow10(suf.len()) >= digits_val(pre) * 1) by (nonlinear_arith)
        requires
            digits_val(pre) >= 0,
            pow10(suf.len()) >= 1,
    ;
}

/// `pow10` is positive.
pub proof fn lemma_pow10_pos(k: nat)
    ensures
        pow10(k) >= 1,
    decreases k,
{
    if k > 0 {
        lemma_pow10_pos((k - 1) as nat);
    }
}

/// Formatting then evaluating a number gives the number back.
pub proof fn lemma_dec_digits_val(n: nat)
    ensures
        all_digits(dec_digits(n)),
        digits_val(dec_digits(n)) == n,
        dec_digits(n).len() >= 1,
    decreases n,
{
    if n < 10 {
        assert(dec_digits(n) =~= seq![(0x30 + n) as u8]);
        assert((0x30 + n) as u8 == 0x30 + n);
        assert(dec_digits(n).drop_last() =~= Seq::<u8>::empty());
        assert(digits_val(Seq::<u8>::empty()) == 0);
        assert(dec_digits(n).last() == 0x30 + n);
        assert(digits_val(dec_digits(n)) == digits_val(dec_digits(n).drop_last()) * 10 + (
        dec_digits(n).last() - 0x30));
    } else {
        lemma_dec_digits_val(n / 10);
        assert((0x30 + n % 10) as u8 == 0x30 + n % 10);
        assert(dec_digits(n).drop_last() =~= dec_digits(n / 10));
        assert(dec_digits(n).last() == (0x30 + n % 10) as u8);
        assert(n == (n / 10) * 10 + n % 10) by (nonlinear_arith);
        assert(digits_val(dec_digits(n)) == digits_val(dec_digits(n / 10)) * 10 + n % 10);
    }
}

/// Appends the decimal digits of `n` to `out`.
pub fn push_u64_digits(n: u64, out: &mut Vec<u8>)
    ensures
        final(out)@ == old(out)@ + dec_digits(n as nat),
    decreases n,
{
    if n < 10 {
        out.push(0x30 + n as u8);
        assert(out@ =~= old(out)@ + dec_digits(n as nat));
    } else {
        let ghost pre = out@;
        push_u64_digits(n / 10, out);
        out.push(0x30 + (n % 10) as u8);
        assert(out@ =~= pre + dec_digits(n as nat));
    }
}

/// Appends the decimal form of a signed value to `out`, minus sign first.
pub fn push_i64_dec(n: i64, out: &mut Vec<u8>)
    ensures
        final(out)@ == old(out)@ + dec_signed(n as int),
{
    if n < 0 {
        let ghost pre = out@;
        out.push(0x2d);
        let m: u64 = if n == i64::MIN {
            9223372036854775808u64
        } else {
            (0 - n) as u64
        };
        assert(m as nat == (-(n as int)) as nat);
        push_u64_digits(m, out);
        assert(out@ =~= pre + dec_signed(n as int));
    } else {
        push_u64_digits(n as u64, out);
    }
}

/// First index at or after `i` that does not hold a digit.
pub open spec fn digit_run_end(s: Seq<u8>, i: nat) -> nat
    decreases s.len() - i,
{
    if i < s.len() && is_digit(s[i as int]) {
        digit_run_end(s, i + 1)
    } else {
        i
    }
}

/// The digit run starting at `i` ends within the string, at or after `i`,
/// and consists of digits.
pub proof fn lemma_digit_run_end(s: Seq<u8>, i: nat)
    requires
        i <= s.len(),
    ensures
        i <= digit_run_end(s, i) <= s.len(),
        forall|k: int| i <= k < digit_run_end(s, i) ==> is_digit(#[trigger] s[k]),
        digit_run_end(s, i) < s.len() ==> !is_digit(s[digit_run_end(s, i) as int]),
    decreases s.len() - i,
{
    if i < s.len() && is_digit(s[i as int]) {
        lemma_digit_run_end(s, i + 1);
    }
}

/// Scans forward from `i` over decimal digits and returns the index of the
/// first non-digit byte (or the length of the slice).
pub fn scan_digits(s: &[u8], i: usize) -> (j: usize)
    requires
        i <= s@.len(),
    ensures
        j == digit_run_end(s@, i as nat),
{
    let n = s.len();
    let mut j = i;
    while j < n && 0x30 <= s[j] && s[j] <= 0x39
        invariant
            i <= j <= n == s@.len(),
            digit_run_end(s@, i as nat) == digit_run_end(s@, j as nat),
        decreases n - j,
    {
        j = j + 1;
    }
    j
}

/// Evaluates the digit string `s[i..j]`, refusing values above `max`.
pub fn digits_value_u64(s: &[u8], i: usize, j: usize, max: u64) -> (r: Option<u64>)
    requires
        i <= j <= s@.len(),
        all_digits(s@.subrange(i as int, j as int)),
    ensures
        digits_val(s@.subrange(i as int, j as int)) <= max ==> r == Some(
            digits_val(s@.subrange(i as int, j as int)) as u64,
        ),
        digits_val(s@.subrange(i as int, j as int)) > max ==> r is None,
{
    let ghost whole = s@.subrange(i as int, j as int);
    let mut acc: u64 = 0;
    let mut k = i;
    while k < j
        invariant
            i <= k <= j <= s@.len(),
            all_digits(whole),
            whole == s@.subrange(i as int, j as int),
            acc == digits_val(s@.subrange(i as int, k as int)),
            acc <= max,
        decreases j - k,
    {
        let ghost sofar = s@.subrange(i as int, k as int);
        assert(is_digit(whole[k - i]));
        assert(s@[k as int] == whole[k - i]);
        let d = s[k] - 0x30;
        assert(s@.subrange(i as int, k + 1 as int) =~= sofar.push(s@[k as int]));
        assert(s@.subrange(i as int, k + 1 as int).drop_last() =~= sofar);
        let over = if acc > max / 10 {
            true
        } else {
            acc * 10 > max || d as u64 > max - acc * 10
        };
        if over {
            proof {
                assert(acc * 10 + d > max);
                lemma_digits_val_prefix(whole, k + 1 - i);
                assert(whole.subrange(0, k + 1 - i) =~= s@.subrange(i as int, k + 1 as int));
            }
            return None;
        }
        acc = acc * 10 + d as u64;
        k = k + 1;
    }
    assert(s@.subrange(i as int, k as int) =~= whole);
    Some(acc)
}


/// `k` zero digits.
pub open spec fn zero_digits(k: nat) -> Seq<u8>
    decreases k,
{
    if k == 0 {
        Seq::empty()
    } else {
        seq![0x30u8] + zero_digits((k - 1) as nat)
    }
}

/// Zero digits carry no value and pad a digit string on the left without
/// changing its value.
pub proof fn lemma_zero_digits(k: nat, ds: Seq<u8>)
    ensures
        zero_digits(k).len() == k,
        all_digits(zero_digits(k)),
        digits_val(zero_digits(k) + ds) == digits_val(ds),
    decreases k,
{
    if k == 0 {
        assert(zero_digits(0) + ds =~= ds);
    } else {
        lemma_zero_digits((k - 1) as nat, ds);
        lemma_digits_val_append(seq![0x30u8], zero_digits((k - 1) as nat) + ds);
        assert(zero_digits(k) + ds =~= seq![0x30u8] + (zero_digits((k - 1) as nat) + ds));
        assert(digits_val(seq![0x30u8]) == 0) by {
            assert(seq![0x30u8].drop_last() =~= Seq::<u8>::empty());
            assert(digits_val(Seq::<u8>::empty()) == 0);
            assert(seq![0x30u8].last() == 0x30u8);
        }
        lemma_digits_val_append(seq![0x30u8], zero_digits((k - 1) as nat));
        lemma_digits_val_append(zero_digits((k - 1) as nat), ds);
    }
}

/// A value below `pow10(k)` has at most `k` digits.
pub proof fn lemma_dec_digits_len(n: nat, k: nat)
    requires
        n < pow10(k),
        k >= 1,
    ensures
        dec_digits(n).len() <= k,
    decreases n,
{
    if n >= 10 {
        assert(k >= 2) by {
            reveal_with_fuel(pow10, 2);
        }
        assert(pow10(k) == 10 * pow10((k - 1) as nat));
        assert(n / 10 < pow10((k - 1) as nat)) by (nonlinear_arith)
            requires
                n < 10 * pow10((k - 1) as nat),
                n >= 10,
        ;
        lemma_dec_digits_len(n / 10, (k - 1) as nat);
    }
}

} // verus!
