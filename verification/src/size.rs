//! Human-readable byte counts, as `format_bytes` prints them: the count as a
//! double-precision number, divided by 1024 while it is at least 1024 (up to
//! terabytes), shown with two decimals.

use vstd::prelude::*;

verus! {

/// Two to the power `e`.
pub open spec fn pow2(e: nat) -> nat
    decreases e,
{
    if e == 0 {
        1
    } else {
        2 * pow2((e - 1) as nat)
    }
}

/// The number of binary digits of `n` (0 for 0).
pub open spec fn bit_length(n: nat) -> nat
    decreases n,
{
    if n == 0 {
        0
    } else {
        1 + bit_length(n / 2)
    }
}

/// Division of `num` by `den`, rounded to the nearest integer, ties to even.
pub open spec fn div_round_half_even(num: nat, den: nat) -> nat
    recommends
        den > 0,
{
    let q = num / den;
    let r = num % den;
    if 2 * r > den || (2 * r == den && q % 2 == 1) {
        q + 1
    } else {
        q
    }
}

/// The value of `n` once converted to a double: the nearest number with a
/// 53-bit significand, ties to even.
pub open spec fn nearest_double(n: nat) -> nat {
    if bit_length(n) <= 53 {
        n
    } else {
        let unit = pow2((bit_length(n) - 53) as nat);
        div_round_half_even(n, unit) * unit
    }
}

/// 1024 to the power `k`.
pub open spec fn pow1024(k: nat) -> nat
    decreases k,
{
    if k == 0 {
        1
    } else {
        1024 * pow1024((k - 1) as nat)
    }
}

/// How many times a value is divided by 1024 before it is shown: while it is
/// at least 1024, and at most four times.
pub open spec fn unit_index(v: nat) -> nat {
    if v < pow1024(1) {
        0
    } else if v < pow1024(2) {
        1
    } else if v < pow1024(3) {
        2
    } else if v < pow1024(4) {
        3
    } else {
        4
    }
}

/// The name of the unit after `k` divisions by 1024.
pub open spec fn unit_name(k: nat) -> Seq<char> {
    if k == 0 {
        seq!['B']
    } else if k == 1 {
        seq!['K', 'B']
    } else if k == 2 {
        seq!['M', 'B']
    } else if k == 3 {
        seq!['G', 'B']
    } else {
        seq!['T', 'B']
    }
}

/// The ASCII digit for `d`, which is below ten.
pub open spec fn digit_char(d: nat) -> char {
    (d + 48) as char
}

/// The decimal digits of `n`, without leading zeros ("0" for zero).
pub open spec fn decimal(n: nat) -> Seq<char>
    decreases n,
{
    if n < 10 {
        seq![digit_char(n)]
    } else {
        decimal(n / 10).push(digit_char(n % 10))
    }
}

/// The text `format_bytes` gives for `bytes`.
pub open spec fn formatted_size(bytes: nat) -> Seq<char> {
    let v = nearest_double(bytes);
    let k = unit_index(v);
    let hundredths = div_round_half_even(v * 100, pow1024(k));
    decimal(hundredths / 100) + seq![
        '.',
        digit_char((hundredths % 100) / 10),
        digit_char(hundredths % 10),
        ' ',
    ] + unit_name(k)
}

/// Appends the decimal digits of `n` to `out`.
pub fn push_decimal(out: &mut Vec<char>, n: u128)
    ensures
        final(out)@ == old(out)@ + decimal(n as nat),
    decreases n,
{
    if n >= 10 {
        push_decimal(out, n / 10);
    }
    let d = (n % 10) as u8;
    out.push((d + 48) as char);
    proof {
        assert(old(out)@ + decimal(n as nat) =~= final(out)@) by {
            if n >= 10 {
                assert(decimal(n as nat) == decimal((n / 10) as nat).push(digit_char((n % 10) as nat)));
            }
        }
    }
}

proof fn lemma_pow2_mono(i: nat, j: nat)
    requires
        i <= j,
    ensures
        pow2(i) <= pow2(j),
    decreases j,
{
    if j > i {
        lemma_pow2_mono(i, (j - 1) as nat);
    }
}

proof fn lemma_pow2_positive(i: nat)
    ensures
        pow2(i) >= 1,
    decreases i,
{
    if i > 0 {
        lemma_pow2_positive((i - 1) as nat);
    }
}

proof fn lemma_bit_length_bound(n: nat, k: nat)
    requires
        n < pow2(k),
    ensures
        bit_length(n) <= k,
    decreases k,
{
    if n > 0 {
        assert(k > 0);
        lemma_bit_length_bound(n / 2, (k - 1) as nat);
    }
}

proof fn lemma_pow2_64()
    ensures
        pow2(64) == 0x1_0000_0000_0000_0000,
        pow2(11) == 2048,
{
    reveal_with_fuel(pow2, 65);
}

fn bit_length_of(n: u64) -> (len: u32)
    ensures
        len == bit_length(n as nat),
        len <= 64,
{
    proof {
        lemma_pow2_64();
        lemma_bit_length_bound(n as nat, 64);
    }
    let mut m = n;
    let mut len: u32 = 0;
    while m > 0
        invariant
            bit_length(n as nat) == len + bit_length(m as nat),
            bit_length(n as nat) <= 64,
        decreases m,
    {
        m = m / 2;
        len = len + 1;
    }
    len
}

fn pow2_of(e: u32) -> (p: u128)
    requires
        e <= 11,
    ensures
        p == pow2(e as nat),
        1 <= p <= 2048,
{
    let mut p: u128 = 1;
    let mut i: u32 = 0;
    while i < e
        invariant
            i <= e,
            e <= 11,
            p == pow2(i as nat),
        decreases e - i,
    {
        proof {
            lemma_pow2_mono(i as nat, 10);
            reveal_with_fuel(pow2, 12);
        }
        p = p * 2;
        i = i + 1;
    }
    proof {
        lemma_pow2_mono(e as nat, 11);
        lemma_pow2_64();
        lemma_pow2_positive(e as nat);
    }
    p
}

fn round_half_even(num: u128, den: u128) -> (r: u128)
    requires
        den > 0,
        num < u128::MAX,
    ensures
        r == div_round_half_even(num as nat, den as nat),
{
    let q = num / den;
    let rem = num % den;
    proof {
        assert(q <= num) by (nonlinear_arith)
            requires
                q == num / den,
                den > 0,
        ;
    }
    if rem > den - rem || (rem == den - rem && q % 2 == 1) {
        q + 1
    } else {
        q
    }
}

/// Shows a byte count with two decimals in the largest unit (up to TB) in
/// which it is at least one, as `{:.2} {unit}` shows the count as a double.
pub fn format_bytes(bytes: u64) -> (text: String)
    ensures
        text@ == formatted_size(bytes as nat),
{
    let n = bytes as u128;
    let len = bit_length_of(bytes);
    let v: u128 = if len <= 53 {
        n
    } else {
        let unit = pow2_of(len - 53);
        let q = round_half_even(n, unit);
        proof {
            let qq = (n / unit) as int;
            assert(qq * unit <= n) by (nonlinear_arith)
                requires
                    qq == n / unit,
                    unit > 0,
            ;
            assert(q * unit <= qq * unit + unit) by (nonlinear_arith)
                requires
                    q <= qq + 1,
                    unit > 0,
            ;
        }
        q * unit
    };
    assert(v <= 0x1_0000_0000_0000_0000 + 2048);
    let k: u32 = if v < 1024 {
        0
    } else if v < 1048576 {
        1
    } else if v < 1073741824 {
        2
    } else if v < 1099511627776 {
        3
    } else {
        4
    };
    let den: u128 = if k == 0 {
        1
    } else if k == 1 {
        1024
    } else if k == 2 {
        1048576
    } else if k == 3 {
        1073741824
    } else {
        1099511627776
    };
    proof {
        reveal_with_fuel(pow1024, 5);
        assert(k == unit_index(v as nat));
        assert(den == pow1024(k as nat));
    }
    let hundredths = round_half_even(v * 100, den);
    let mut out: Vec<char> = Vec::new();
    push_decimal(&mut out, hundredths / 100);
    out.push('.');
    out.push((((hundredths % 100) / 10) as u8 + 48) as char);
    out.push(((hundredths % 10) as u8 + 48) as char);
    out.push(' ');
    if k == 1 {
        out.push('K');
    } else if k == 2 {
        out.push('M');
    } else if k == 3 {
        out.push('G');
    } else if k == 4 {
        out.push('T');
    }
    out.push('B');
    proof {
        assert(v == nearest_double(bytes as nat));
        assert(out@ =~= formatted_size(bytes as nat));
    }
    crate::text::string_of(out.as_slice())
}

} // verus!
