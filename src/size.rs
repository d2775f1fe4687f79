//! Byte counts rendered on the binary unit ladder `B, KB, ..., EB`.

use vstd::arithmetic::div_mod::{lemma_div_denominator, lemma_fundamental_div_mod};
use vstd::prelude::*;

verus! {

/// `1024^k`.
pub open spec fn pow1024(k: nat) -> nat
    decreases k,
{
    if k == 0 {
        1
    } else {
        1024 * pow1024((k - 1) as nat)
    }
}

/// The largest `k <= 6` with `1024^k <= x` (and `0` below one kilobyte).
pub open spec fn unit_index(x: nat) -> nat {
    if x < pow1024(1) {
        0
    } else if x < pow1024(2) {
        1
    } else if x < pow1024(3) {
        2
    } else if x < pow1024(4) {
        3
    } else if x < pow1024(5) {
        4
    } else if x < pow1024(6) {
        5
    } else {
        6
    }
}

/// The suffix of unit `k` on the ladder.
pub open spec fn unit_name(k: nat) -> Seq<char> {
    if k == 0 {
        seq!['B']
    } else if k == 1 {
        seq!['K', 'B']
    } else if k == 2 {
        seq!['M', 'B']
    } else if k == 3 {
        seq!['G', 'B']
    } else if k == 4 {
        seq!['T', 'B']
    } else if k == 5 {
        seq!['P', 'B']
    } else {
        seq!['E', 'B']
    }
}

/// `n / d` rounded to the nearest integer, ties going to the even neighbour.
pub open spec fn round_half_even(n: nat, d: nat) -> nat
    recommends
        d > 0,
{
    let q = n / d;
    let r = n % d;
    if 2 * r > d || (2 * r == d && q % 2 == 1) {
        q + 1
    } else {
        q
    }
}

/// `x` expressed in its unit, in hundredths, rounded to two decimals.
pub open spec fn scaled_hundredths(x: nat) -> nat {
    round_half_even(x * 100, pow1024(unit_index(x)))
}

/// The decimal digit for `d < 10`.
pub open spec fn digit_char(d: nat) -> char {
    if d == 0 {
        '0'
    } else if d == 1 {
        '1'
    } else if d == 2 {
        '2'
    } else if d == 3 {
        '3'
    } else if d == 4 {
        '4'
    } else if d == 5 {
        '5'
    } else if d == 6 {
        '6'
    } else if d == 7 {
        '7'
    } else if d == 8 {
        '8'
    } else {
        '9'
    }
}

/// Decimal notation of `n`, without leading zeros.
pub open spec fn decimal_text(n: nat) -> Seq<char>
    decreases n,
{
    if n < 10 {
        seq![digit_char(n)]
    } else {
        decimal_text(n / 10).push(digit_char(n % 10))
    }
}

/// An amount given in hundredths, written with two decimals from which
/// trailing zeros are dropped (and the point with them).
pub open spec fn amount_text(h: nat) -> Seq<char> {
    let whole = decimal_text(h / 100);
    let frac = h % 100;
    if frac == 0 {
        whole
    } else if frac % 10 == 0 {
        whole + seq!['.', digit_char(frac / 10)]
    } else {
        whole + seq!['.', digit_char(frac / 10), digit_char(frac % 10)]
    }
}

/// The human-readable form of a byte count, e.g. `1.5 KB`.
pub open spec fn size_text(x: nat) -> Seq<char> {
    amount_text(scaled_hundredths(x)) + seq![' '] + unit_name(unit_index(x))
}

fn digit_str(d: u128) -> (r: &'static str)
    requires
        d < 10,
    ensures
        r@ == seq![digit_char(d as nat)],
{
    if d == 0 {
        proof { reveal_strlit("0"); }
        "0"
    } else if d == 1 {
        proof { reveal_strlit("1"); }
        "1"
    } else if d == 2 {
        proof { reveal_strlit("2"); }
        "2"
    } else if d == 3 {
        proof { reveal_strlit("3"); }
        "3"
    } else if d == 4 {
        proof { reveal_strlit("4"); }
        "4"
    } else if d == 5 {
        proof { reveal_strlit("5"); }
        "5"
    } else if d == 6 {
        proof { reveal_strlit("6"); }
        "6"
    } else if d == 7 {
        proof { reveal_strlit("7"); }
        "7"
    } else if d == 8 {
        proof { reveal_strlit("8"); }
        "8"
    } else {
        proof { reveal_strlit("9"); }
        "9"
    }
}

fn decimal_string(n: u128) -> (r: String)
    ensures
        r@ == decimal_text(n as nat),
    decreases n,
{
    if n < 10 {
        String::from_str(digit_str(n))
    } else {
        let mut s = decimal_string(n / 10);
        s.append(digit_str(n % 10));
        s
    }
}

fn unit_str(k: usize) -> (r: &'static str)
    requires
        k <= 6,
    ensures
        r@ == unit_name(k as nat),
{
    if k == 0 {
        proof { reveal_strlit("B"); }
        "B"
    } else if k == 1 {
        proof { reveal_strlit("KB"); }
        "KB"
    } else if k == 2 {
        proof { reveal_strlit("MB"); }
        "MB"
    } else if k == 3 {
        proof { reveal_strlit("GB"); }
        "GB"
    } else if k == 4 {
        proof { reveal_strlit("TB"); }
        "TB"
    } else if k == 5 {
        proof { reveal_strlit("PB"); }
        "PB"
    } else {
        proof { reveal_strlit("EB"); }
        "EB"
    }
}

proof fn lemma_pow1024_values()
    ensures
        pow1024(0) == 1,
        pow1024(1) == 0x400,
        pow1024(2) == 0x10_0000,
        pow1024(3) == 0x4000_0000,
        pow1024(4) == 0x100_0000_0000,
        pow1024(5) == 0x4_0000_0000_0000,
        pow1024(6) == 0x1000_0000_0000_0000,
{
    reveal_with_fuel(pow1024, 7);
}

/// Formats a byte count on the 1024-based ladder `B, KB, MB, GB, TB, PB, EB`
/// with at most two decimals (rounded half to even) and trailing zeros
/// dropped: `0 B`, `1.5 KB`, `2 GB`.
pub fn human_readable_size(size_bytes: u64) -> (r: String)
    ensures
        r@ == size_text(size_bytes as nat),
{
    let x = size_bytes;
    let mut v: u64 = x;
    let mut d: u64 = 1;
    let mut k: usize = 0;
    proof {
        lemma_pow1024_values();
    }
    while v >= 1024 && k < 6
        invariant
            k <= 6,
            d as nat == pow1024(k as nat),
            v as nat == x as nat / (d as nat),
            k > 0 ==> x as nat >= d as nat,
            pow1024(0) == 1,
            pow1024(1) == 0x400,
            pow1024(2) == 0x10_0000,
            pow1024(3) == 0x4000_0000,
            pow1024(4) == 0x100_0000_0000,
            pow1024(5) == 0x4_0000_0000_0000,
            pow1024(6) == 0x1000_0000_0000_0000,
        decreases 6 - k,
    {
        proof {
            lemma_div_denominator(x as int, d as int, 1024);
            lemma_fundamental_div_mod(x as int, d as int);
            assert(x as int >= d as int * 1024) by (nonlinear_arith)
                requires
                    x as int == d as int * (x as int / d as int) + (x as int % d as int),
                    x as int % d as int >= 0,
                    x as int / d as int >= 1024,
                    d as int > 0,
            ;
        }
        v = v / 1024;
        d = d * 1024;
        k = k + 1;
    }
    proof {
        if v < 1024 {
            lemma_fundamental_div_mod(x as int, d as int);
            assert((x as int) < d as int * 1024) by (nonlinear_arith)
                requires
                    x as int == d as int * (x as int / d as int) + (x as int % d as int),
                    (x as int % d as int) < d as int,
                    x as int / d as int <= 1023,
                    d as int > 0,
            ;
        }
        assert(unit_index(x as nat) == k as nat);
    }
    let n: u128 = (x as u128) * 100;
    let dd: u128 = d as u128;
    let q: u128 = n / dd;
    let rem: u128 = n % dd;
    let h: u128 = if 2 * rem > dd || (2 * rem == dd && q % 2 == 1) {
        q + 1
    } else {
        q
    };
    assert(h as nat == scaled_hundredths(x as nat));
    let frac: u128 = h % 100;
    let mut s = decimal_string(h / 100);
    if frac == 0 {
    } else if frac % 10 == 0 {
        proof { reveal_strlit("."); }
        s.append(".");
        s.append(digit_str(frac / 10));
    } else {
        proof { reveal_strlit("."); }
        s.append(".");
        s.append(digit_str(frac / 10));
        s.append(digit_str(frac % 10));
    }
    assert(s@ =~= amount_text(h as nat));
    proof { reveal_strlit(" "); }
    s.append(" ");
    s.append(unit_str(k));
    assert(s@ =~= size_text(x as nat));
    s
}

/// Every count in `[1024^k, 1024^(k+1))` is written in unit `k`, and every
/// count from `1024^6` on stays in the last unit, `EB`.
pub proof fn lemma_unit_of_range(x: nat, k: nat)
    requires
        k <= 6,
        pow1024(k) <= x,
        k < 6 ==> x < pow1024(k + 1),
    ensures
        unit_index(x) == k,
        size_text(x) == amount_text(scaled_hundredths(x)) + seq![' '] + unit_name(k),
{
    lemma_pow1024_values();
    assert(k == 0 || k == 1 || k == 2 || k == 3 || k == 4 || k == 5 || k == 6);
}

} // verus!
