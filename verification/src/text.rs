use vstd::prelude::*;

verus! {

/// The decimal digit `d` (`d < 10`) as a character.
pub open spec fn digit_char(d: nat) -> char {
    seq!['0', '1', '2', '3', '4', '5', '6', '7', '8', '9'][d as int]
}

/// The decimal notation of `n`, without leading zeros.
pub open spec fn decimal(n: nat) -> Seq<char>
    decreases n,
{
    if n < 10 {
        seq![digit_char(n)]
    } else {
        decimal(n / 10) + seq![digit_char(n % 10)]
    }
}

/// `c` is one of the characters `0` to `9`.
pub open spec fn is_digit(c: char) -> bool {
    ('0' as int) <= (c as int) <= ('9' as int)
}

/// The value of the decimal digit character `c`.
pub open spec fn digit_value(c: char) -> int {
    (c as int) - ('0' as int)
}

/// `s` is a non-empty run of decimal digits without a leading zero
/// (except for `0` itself).
pub open spec fn is_numeral(s: Seq<char>) -> bool {
    &&& s.len() >= 1
    &&& forall|i: int| 0 <= i < s.len() ==> is_digit(#[trigger] s[i])
    &&& (s.len() == 1 || s[0] != '0')
}

/// The number that the decimal digits `s` stand for, most significant first.
pub open spec fn read_decimal(s: Seq<char>) -> int
    decreases s.len(),
{
    if s.len() == 0 {
        0
    } else {
        read_decimal(s.drop_last()) * 10 + digit_value(s.last())
    }
}

/// Each digit character stands for its digit.
pub proof fn lemma_digit_char(d: nat)
    requires
        d < 10,
    ensures
        is_digit(digit_char(d)),
        digit_value(digit_char(d)) == d,
        digit_char(d) == '0' <==> d == 0,
{
    let s = seq!['0', '1', '2', '3', '4', '5', '6', '7', '8', '9'];
    assert(('0' as int) == 48);
    assert(('9' as int) == 57);
    if d == 0 {
        assert(s[0] == '0');
    } else if d == 1 {
        assert(s[1] == '1');
        assert(('1' as int) == 49);
    } else if d == 2 {
        assert(s[2] == '2');
        assert(('2' as int) == 50);
    } else if d == 3 {
        assert(s[3] == '3');
        assert(('3' as int) == 51);
    } else if d == 4 {
        assert(s[4] == '4');
        assert(('4' as int) == 52);
    } else if d == 5 {
        assert(s[5] == '5');
        assert(('5' as int) == 53);
    } else if d == 6 {
        assert(s[6] == '6');
        assert(('6' as int) == 54);
    } else if d == 7 {
        assert(s[7] == '7');
        assert(('7' as int) == 55);
    } else if d == 8 {
        assert(s[8] == '8');
        assert(('8' as int) == 56);
    } else {
        assert(s[9] == '9');
    }
}

/// `decimal` writes a number that reads back as that number.
pub proof fn lemma_decimal_reads_back(n: nat)
    ensures
        is_numeral(decimal(n)),
        read_decimal(decimal(n)) == n,
    decreases n,
{
    if n < 10 {
        lemma_digit_char(n);
        assert(decimal(n).drop_last() =~= Seq::<char>::empty());
        assert(decimal(n).last() == digit_char(n));
        assert(read_decimal(Seq::<char>::empty()) == 0);
    } else {
        lemma_digit_char(n % 10);
        lemma_digit_char(n / 10 % 10);
        lemma_decimal_reads_back(n / 10);
        let d = decimal(n / 10);
        let s = decimal(n);
        assert(s.drop_last() =~= d);
        assert(s[0] == d[0]);
        if n / 10 < 10 {
            assert(d[0] == digit_char(n / 10));
        } else {
            lemma_decimal_reads_back(n / 100);
            assert(d =~= decimal(n / 10 / 10) + seq![digit_char(n / 10 % 10)]);
            assert(d.len() >= 2);
        }
        assert(s.last() == digit_char(n % 10));
        assert(read_decimal(s) == read_decimal(d) * 10 + digit_value(s.last()));
        assert forall|i: int| 0 <= i < s.len() implies is_digit(#[trigger] s[i]) by {
            if i < d.len() {
                assert(s[i] == d[i]);
            }
        }
    }
}

/// `num / den` rounded to the nearest integer, halfway cases to the even one.
pub open spec fn round_half_even(num: nat, den: nat) -> nat {
    let q = num / den;
    let r = num % den;
    if 2 * r > den || (2 * r == den && q % 2 == 1) {
        q + 1
    } else {
        q
    }
}

/// The spacing of 64-bit floating-point numbers around `x`: whole numbers
/// below 2^53 are all exact, and each further binary order doubles it.
pub open spec fn double_spacing(x: nat) -> nat
    decreases x,
{
    if x < 0x20_0000_0000_0000 {
        1
    } else {
        2 * double_spacing(x / 2)
    }
}

/// The 64-bit floating-point number nearest to `x` (ties to an even
/// significand), as the integer it equals.
pub open spec fn nearest_double(x: nat) -> nat {
    round_half_even(x, double_spacing(x)) * double_spacing(x)
}

/// Rounding to the nearest integer is off by at most half: `den` times
/// the result is within `den / 2` of `num`.
pub proof fn lemma_round_half_even_close(num: nat, den: nat)
    requires
        den > 0,
    ensures
        -(den as int) <= 2 * (den * round_half_even(num, den) - num) <= den,
        2 * (den * round_half_even(num, den) - num) == den || 2 * (den * round_half_even(num, den)
            - num) == -den ==> round_half_even(num, den) % 2 == 0,
{
    let q = num / den;
    let r = num % den;
    vstd::arithmetic::div_mod::lemma_fundamental_div_mod(num as int, den as int);
    vstd::arithmetic::div_mod::lemma_mod_pos_bound(num as int, den as int);
    let t = round_half_even(num, den);
    if t == q + 1 {
        assert(den * t == den * q + den) by (nonlinear_arith)
            requires
                t == q + 1,
        ;
    }
    if 2 * (den * t - num) == den || 2 * (den * t - num) == -den {
        assert(2 * r == den);
    }
}

/// Below 2^53 * 2^k, the spacing of floating-point numbers is at most 2^k.
proof fn lemma_spacing_bound(x: nat, k: nat)
    requires
        x < 0x20_0000_0000_0000 * vstd::arithmetic::power2::pow2(k),
    ensures
        1 <= double_spacing(x) <= vstd::arithmetic::power2::pow2(k),
    decreases x,
{
    vstd::arithmetic::power2::lemma_pow2_pos(k);
    if x >= 0x20_0000_0000_0000 {
        if k == 0 {
            vstd::arithmetic::power2::lemma2_to64();
        } else {
            vstd::arithmetic::power2::lemma_pow2_unfold(k);
            lemma_spacing_bound(x / 2, (k - 1) as nat);
        }
    }
}

/// The floating-point number nearest to a `u64` is within 1024 of it.
pub proof fn lemma_nearest_double_close(x: u64)
    ensures
        -2048 <= 2 * (nearest_double(x as nat) - x) <= 2048,
        x < 0x20_0000_0000_0000 ==> nearest_double(x as nat) == x,
{
    vstd::arithmetic::power2::lemma2_to64();
    vstd::arithmetic::power2::lemma_pow2_unfold(11);
    vstd::arithmetic::power2::lemma_pow2_unfold(10);
    vstd::arithmetic::power2::lemma_pow2_unfold(9);
    assert(vstd::arithmetic::power2::pow2(11) == 2048);
    lemma_spacing_bound(x as nat, 11);
    let p = double_spacing(x as nat);
    lemma_round_half_even_close(x as nat, p);
    let t = round_half_even(x as nat, p);
    assert(t * p == p * t) by (nonlinear_arith);
}

/// `t` tenths written with one decimal place, such as `12.3`.
pub open spec fn tenths_text(t: nat) -> Seq<char> {
    decimal(t / 10) + seq!['.', digit_char(t % 10)]
}

/// The text of the single decimal digit `d`.
pub(crate) fn digit_text(d: u128) -> (res: &'static str)
    requires
        d < 10,
    ensures
        res@ == seq![digit_char(d as nat)],
{
    if d == 0 {
        proof { reveal_strlit("0"); }
        "0"
    } else if d == 1 {
        proof { reveal_strlit("1"); }
        "1"
    } else if d == 2 {
        proof { reveal_strlit("2"); }
        "2"
    } else if d == 3 {
        proof { reveal_strlit("3"); }
        "3"
    } else if d == 4 {
        proof { reveal_strlit("4"); }
        "4"
    } else if d == 5 {
        proof { reveal_strlit("5"); }
        "5"
    } else if d == 6 {
        proof { reveal_strlit("6"); }
        "6"
    } else if d == 7 {
        proof { reveal_strlit("7"); }
        "7"
    } else if d == 8 {
        proof { reveal_strlit("8"); }
        "8"
    } else {
        proof { reveal_strlit("9"); }
        "9"
    }
}

/// Appends the decimal notation of `n` to `s`.
pub(crate) fn append_decimal(s: &mut String, n: u128)
    ensures
        final(s)@ == old(s)@ + decimal(n as nat),
    decreases n,
{
    if n >= 10 {
        append_decimal(s, n / 10);
    }
    s.append(digit_text(n % 10));
    assert(old(s)@ + decimal(n as nat) =~= final(s)@);
}

/// `num / den` rounded to the nearest integer, halfway cases to the even one.
pub(crate) fn round_half_even_exec(num: u128, den: u128) -> (q: u128)
    requires
        0 < den <= u64::MAX,
        num <= u64::MAX * 64,
    ensures
        q == round_half_even(num as nat, den as nat),
{
    let q = num / den;
    let r = num % den;
    if 2 * r > den || (2 * r == den && q % 2 == 1) {
        q + 1
    } else {
        q
    }
}

/// The 64-bit floating-point number nearest to `x`, as an integer.
pub(crate) fn nearest_double_exec(x: u64) -> (v: u128)
    ensures
        v == nearest_double(x as nat),
        v <= 2 * (u64::MAX as int) + 2,
{
    let mut p: u128 = 1;
    let mut m: u64 = x;
    assert(x as nat / 1 == x);
    while m >= 0x20_0000_0000_0000
        invariant
            0 < p <= 0x1000,
            m == x as nat / p as nat,
            double_spacing(x as nat) == p * double_spacing(m as nat),
        decreases m,
    {
        proof {
            let xp = x as int;
            let pp = p as int;
            vstd::arithmetic::div_mod::lemma_fundamental_div_mod(xp, pp);
            assert(pp * (xp / pp) <= xp) by {
                vstd::arithmetic::div_mod::lemma_mod_pos_bound(xp, pp);
            }
            assert(pp * 0x20_0000_0000_0000 <= xp) by (nonlinear_arith)
                requires
                    pp * (xp / pp) <= xp,
                    xp / pp >= 0x20_0000_0000_0000,
                    pp > 0,
            ;
            vstd::arithmetic::div_mod::lemma_div_denominator(xp, pp, 2);
            let d = double_spacing((m / 2) as nat);
            assert(pp * (2 * d) == (pp * 2) * d) by (nonlinear_arith);
        }
        m = m / 2;
        p = p * 2;
    }
    let q = m as u128;
    proof {
        let xp = x as int;
        let pp = p as int;
        vstd::arithmetic::div_mod::lemma_fundamental_div_mod(xp, pp);
        vstd::arithmetic::div_mod::lemma_mod_pos_bound(xp, pp);
        assert(pp * q <= xp);
    }
    let r = (x as u128) - p * q;
    proof {
        let xp = x as int;
        let pp = p as int;
        assert(r == xp % pp);
        assert(double_spacing(m as nat) == 1);
        assert(double_spacing(x as nat) == p) by (nonlinear_arith)
            requires
                double_spacing(x as nat) == p * double_spacing(m as nat),
                double_spacing(m as nat) == 1,
        ;
    }
    let rounded = if 2 * r > p || (2 * r == p && q % 2 == 1) {
        q + 1
    } else {
        q
    };
    proof {
        assert(rounded * p <= (x as int) + (p as int)) by (nonlinear_arith)
            requires
                rounded <= q + 1,
                p * q <= x,
        ;
    }
    rounded * p
}

} // verus!
