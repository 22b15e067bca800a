use vstd::prelude::*;
use crate::cart::text::{string_push, push_chars};

verus! {

/// The character of decimal digit `d`.
pub open spec fn digit_char(d: int) -> char {
    (48 + d) as char
}

/// The decimal digits of `n`, most significant first, without leading zeros.
pub open spec fn decimal(n: nat) -> Seq<char>
    decreases n,
{
    if n < 10 {
        seq![digit_char(n as int)]
    } else {
        decimal(n / 10).push(digit_char((n % 10) as int))
    }
}

/// `s` preceded by zeros up to `w` characters.
pub open spec fn zero_pad(s: Seq<char>, w: nat) -> Seq<char> {
    if s.len() >= w {
        s
    } else {
        Seq::new((w - s.len()) as nat, |i: int| '0') + s
    }
}

/// `v` as `format!("{:0w$}", v)` writes it: a minus sign for negative
/// numbers, then the digits, zero-padded so that sign and digits fill `w`
/// characters.
pub open spec fn padded(v: int, w: nat) -> Seq<char> {
    if v < 0 {
        seq!['-'] + zero_pad(decimal((-v) as nat), if w >= 1 { (w - 1) as nat } else { 0 })
    } else {
        zero_pad(decimal(v as nat), w)
    }
}

/// `10` raised to `k`.
pub open spec fn pow10(k: nat) -> nat
    decreases k,
{
    if k == 0 {
        1
    } else {
        10 * pow10((k - 1) as nat)
    }
}

proof fn lemma_decimal_len_k(n: nat, k: nat)
    requires
        1 <= k,
        n < pow10(k),
    ensures
        decimal(n).len() <= k,
    decreases n,
{
    if n >= 10 {
        if k == 1 {
            assert(pow10(1) == 10);
        } else {
            let k1 = (k - 1) as nat;
            assert(pow10(k) == 10 * pow10(k1));
            assert(n / 10 < pow10(k1)) by (nonlinear_arith)
                requires
                    n < 10 * pow10(k1),
            ;
            lemma_decimal_len_k(n / 10, k1);
        }
    }
}

/// A number below `2^64` has at most 20 decimal digits.
pub proof fn lemma_decimal_len(n: nat)
    requires
        n < 0x1_0000_0000_0000_0000,
    ensures
        1 <= decimal(n).len() <= 20,
{
    reveal_with_fuel(pow10, 21);
    assert(pow10(20) == 100000000000000000000);
    lemma_decimal_len_k(n, 20);
}

/// The number a string of decimal digit characters denotes, most
/// significant first.
pub open spec fn digits_value(s: Seq<char>) -> int
    decreases s.len(),
{
    if s.len() == 0 {
        0
    } else {
        digits_value(s.drop_last()) * 10 + (s.last() as int - 48)
    }
}

/// `decimal(n)` spells `n`: its characters are the digits `0`..`9`, the
/// first is not `0` unless `n` is 0, and read back they give `n`.
pub proof fn lemma_decimal_spells(n: nat)
    ensures
        digits_value(decimal(n)) == n,
        forall|k: int| 0 <= k < decimal(n).len() ==> 48 <= #[trigger] (decimal(n)[k] as int) <= 57,
        n > 0 ==> decimal(n)[0] != '0',
    decreases n,
{
    let d = (n % 10) as int;
    assert(digit_char(d) as int == 48 + d);
    if n < 10 {
        assert(decimal(n) =~= seq![digit_char(n as int)]);
        assert(decimal(n).drop_last() =~= Seq::<char>::empty());
        assert(digits_value(Seq::<char>::empty()) == 0);
        assert(digits_value(decimal(n)) == digits_value(decimal(n).drop_last()) * 10 + (decimal(n).last() as int - 48));
        assert(decimal(n).last() == digit_char(n as int));
    } else {
        lemma_decimal_spells(n / 10);
        assert(decimal(n).drop_last() =~= decimal(n / 10));
        assert(decimal(n).last() == digit_char(d));
        assert(n == (n / 10) * 10 + d);
        assert(digits_value(decimal(n)) == digits_value(decimal(n).drop_last()) * 10 + (decimal(n).last() as int - 48));
        assert forall|k: int| 0 <= k < decimal(n).len() implies 48 <= #[trigger] (decimal(n)[k] as int) <= 57 by {
            if k < decimal(n).len() - 1 {
                assert(decimal(n)[k] == decimal(n / 10)[k]);
            }
        }
        lemma_decimal_len_k_pos(n / 10);
        assert(decimal(n)[0] == decimal(n / 10)[0]);
    }
}

proof fn lemma_decimal_len_k_pos(n: nat)
    ensures
        decimal(n).len() >= 1,
    decreases n,
{
    if n >= 10 {
        lemma_decimal_len_k_pos(n / 10);
    }
}

/// The decimal digits of `n`.
pub fn decimal_chars(n: u64) -> (v: Vec<char>)
    ensures
        v@ == decimal(n as nat),
    decreases n,
{
    if n < 10 {
        let mut v = Vec::new();
        v.push(((48 + n) as u8) as char);
        v
    } else {
        let mut v = decimal_chars(n / 10);
        v.push(((48 + n % 10) as u8) as char);
        v
    }
}

/// Appends `v` formatted as `format!("{:0w$}", v)` does.
pub fn push_padded(s: &mut String, v: i64, w: usize)
    ensures
        final(s)@ == old(s)@ + padded(v as int, w as nat),
{
    let ghost before = s@;
    let mag: u64 = if v < 0 { (-(v as i128)) as u64 } else { v as u64 };
    let digits = decimal_chars(mag);
    let mut width = w;
    if v < 0 {
        string_push(s, '-');
        width = if w >= 1 { w - 1 } else { 0 };
    }
    let ghost after_sign = s@;
    let mut k: usize = digits.len();
    while k < width
        invariant
            digits.len() <= k <= width || (k == digits.len() && width <= digits.len()),
            s@ == after_sign + Seq::new((k - digits.len()) as nat, |i: int| '0'),
        decreases width - k,
    {
        string_push(s, '0');
        proof {
            assert(after_sign + Seq::new((k + 1 - digits.len()) as nat, |i: int| '0') =~= (after_sign + Seq::new(
                (k - digits.len()) as nat,
                |i: int| '0',
            )).push('0'));
        }
        k = k + 1;
    }
    push_chars(s, &digits);
    proof {
        let z = zero_pad(decimal(mag as nat), width as nat);
        if digits.len() >= width {
            assert(Seq::new((k - digits.len()) as nat, |i: int| '0') =~= Seq::<char>::empty());
            assert(s@ =~= after_sign + z);
        } else {
            assert(s@ =~= after_sign + z);
        }
        if v < 0 {
            assert(s@ =~= before + padded(v as int, w as nat));
        } else {
            assert(s@ =~= before + padded(v as int, w as nat));
        }
    }
}

} // verus!
