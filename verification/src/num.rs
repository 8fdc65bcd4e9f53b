//! Fixed-width decimal numerals, the scalar layer of the cache file format.
//!
//! Every number in the persisted cache is written as exactly twenty decimal
//! digits, most significant first, so the reader needs no delimiter. The
//! writer and reader are proved inverse for every value a `u64` can hold.

use vstd::prelude::*;
use vstd::arithmetic::div_mod::lemma_fundamental_div_mod;

verus! {

/// How many digits every numeral has.
pub const DEC_WIDTH: usize = 20;

/// The digit character for a value below ten.
pub open spec fn spec_digit_char(d: nat) -> char {
    if d == 0 {
        '0'
    } else if d == 1 {
        '1'
    } else if d == 2 {
        '2'
    } else if d == 3 {
        '3'
    } else if d == 4 {
        '4'
    } else if d == 5 {
        '5'
    } else if d == 6 {
        '6'
    } else if d == 7 {
        '7'
    } else if d == 8 {
        '8'
    } else {
        '9'
    }
}

/// The value of a digit character; ten marks a character that is no digit.
pub open spec fn spec_digit_val(c: char) -> nat {
    if c == '0' {
        0
    } else if c == '1' {
        1
    } else if c == '2' {
        2
    } else if c == '3' {
        3
    } else if c == '4' {
        4
    } else if c == '5' {
        5
    } else if c == '6' {
        6
    } else if c == '7' {
        7
    } else if c == '8' {
        8
    } else if c == '9' {
        9
    } else {
        10
    }
}

pub open spec fn spec_is_digit(c: char) -> bool {
    spec_digit_val(c) < 10
}

pub open spec fn pow10(w: nat) -> nat
    decreases w,
{
    if w == 0 {
        1
    } else {
        10 * pow10((w - 1) as nat)
    }
}

/// `n` written as exactly `w` digits, most significant first; values of
/// `10^w` and above lose their upper digits.
pub open spec fn spec_dec(n: nat, w: nat) -> Seq<char>
    decreases w,
{
    if w == 0 {
        Seq::empty()
    } else {
        spec_dec(n / 10, (w - 1) as nat).push(spec_digit_char(n % 10))
    }
}

/// The value a digit string denotes.
pub open spec fn spec_dec_val(s: Seq<char>) -> nat
    decreases s.len(),
{
    if s.len() == 0 {
        0
    } else {
        spec_dec_val(s.drop_last()) * 10 + spec_digit_val(s.last())
    }
}

/// A written numeral has its width and holds digits only.
pub proof fn lemma_spec_dec_shape(n: nat, w: nat)
    ensures
        spec_dec(n, w).len() == w,
        forall|k: int| 0 <= k < w ==> spec_is_digit(#[trigger] spec_dec(n, w)[k]),
    decreases w,
{
    if w > 0 {
        lemma_spec_dec_shape(n / 10, (w - 1) as nat);
        let s = spec_dec(n, w);
        assert forall|k: int| 0 <= k < w implies spec_is_digit(s[k]) by {
            if k < w - 1 {
                assert(s[k] == spec_dec(n / 10, (w - 1) as nat)[k]);
            }
        }
    }
}

/// Reading back a written numeral gives the value written, whenever that
/// value fits the width.
pub proof fn lemma_spec_dec_val(n: nat, w: nat)
    requires
        n < pow10(w),
    ensures
        spec_dec_val(spec_dec(n, w)) == n,
    decreases w,
{
    if w == 0 {
    } else {
        assert(pow10(w) == 10 * pow10((w - 1) as nat));
        assert(n / 10 < pow10((w - 1) as nat)) by (nonlinear_arith)
            requires
                n < pow10(w),
                pow10(w) == 10 * pow10((w - 1) as nat),
        ;
        lemma_spec_dec_val(n / 10, (w - 1) as nat);
        let s = spec_dec(n, w);
        assert(s.drop_last() =~= spec_dec(n / 10, (w - 1) as nat));
        assert(spec_digit_val(spec_digit_char(n % 10)) == n % 10);
        lemma_fundamental_div_mod(n as int, 10);
    }
}

/// Ten to the numeral width, spelled out.
pub proof fn lemma_pow10_width()
    ensures
        pow10(DEC_WIDTH as nat) == 100_000_000_000_000_000_000,
{
    reveal_with_fuel(pow10, 21);
}

/// A `u64` as a twenty-digit numeral.
pub open spec fn spec_ser_u64(n: nat) -> Seq<char> {
    spec_dec(n, DEC_WIDTH as nat)
}

/// Every numeral has the width, ambiently.
pub broadcast proof fn lemma_ser_u64_len(n: nat)
    ensures
        (#[trigger] spec_ser_u64(n)).len() == DEC_WIDTH,
{
    lemma_spec_dec_shape(n, DEC_WIDTH as nat);
}

/// Reads a twenty-digit numeral from the front of `s`: its value and the
/// twenty characters consumed, or nothing when `s` is shorter, holds a
/// non-digit among its first twenty characters, or denotes a value above
/// what a `u64` can hold.
pub open spec fn spec_sp_u64(s: Seq<char>) -> Option<(nat, int)> {
    if s.len() >= DEC_WIDTH && (forall|k: int|
        0 <= k < DEC_WIDTH ==> spec_is_digit(#[trigger] s[k])) && spec_dec_val(
        s.take(DEC_WIDTH as int),
    ) <= u64::MAX {
        Some((spec_dec_val(s.take(DEC_WIDTH as int)), DEC_WIDTH as int))
    } else {
        None
    }
}

/// The numeral layer is a round trip: what the writer puts down, the reader
/// takes back up, whatever follows it.
pub proof fn lemma_u64_round_trip(v: nat, rest: Seq<char>)
    requires
        v <= u64::MAX,
    ensures
        spec_sp_u64(spec_ser_u64(v) + rest) == Some((v, DEC_WIDTH as int)),
{
    let s = spec_ser_u64(v) + rest;
    lemma_spec_dec_shape(v, DEC_WIDTH as nat);
    assert(s.take(DEC_WIDTH as int) =~= spec_dec(v, DEC_WIDTH as nat));
    lemma_pow10_width();
    lemma_spec_dec_val(v, DEC_WIDTH as nat);
    assert forall|k: int| 0 <= k < DEC_WIDTH implies spec_is_digit(s[k]) by {
        assert(s[k] == spec_dec(v, DEC_WIDTH as nat)[k]);
    }
}

/// Appends one digit character.
pub fn push_digit(out: &mut String, d: u64)
    requires
        d < 10,
    ensures
        final(out)@ == old(out)@ + seq![spec_digit_char(d as nat)],
{
    let s: &str = match d {
        0 => "0",
        1 => "1",
        2 => "2",
        3 => "3",
        4 => "4",
        5 => "5",
        6 => "6",
        7 => "7",
        8 => "8",
        _ => "9",
    };
    proof {
        reveal_strlit("0");
        reveal_strlit("1");
        reveal_strlit("2");
        reveal_strlit("3");
        reveal_strlit("4");
        reveal_strlit("5");
        reveal_strlit("6");
        reveal_strlit("7");
        reveal_strlit("8");
        reveal_strlit("9");
        assert(s@ =~= seq![spec_digit_char(d as nat)]);
    }
    out.append(s);
}

/// Appends the lower `w` digits of `v`, most significant first.
pub fn render_dec(out: &mut String, v: u64, w: usize)
    ensures
        final(out)@ == old(out)@ + spec_dec(v as nat, w as nat),
    decreases w,
{
    if w == 0 {
        proof {
            assert(out@ + spec_dec(v as nat, 0) =~= out@);
        }
        return ;
    }
    render_dec(out, v / 10, w - 1);
    push_digit(out, v % 10);
    proof {
        assert(out@ =~= old(out)@ + spec_dec(v as nat, w as nat));
    }
}

/// Writes `v` as a twenty-digit numeral.
pub fn render_u64(out: &mut String, v: u64)
    ensures
        final(out)@ == old(out)@ + spec_ser_u64(v as nat),
{
    render_dec(out, v, DEC_WIDTH);
}

/// The value of one digit character, with ten for anything else.
pub fn digit_val(c: char) -> (r: u8)
    ensures
        r as nat == spec_digit_val(c),
{
    match c {
        '0' => 0,
        '1' => 1,
        '2' => 2,
        '3' => 3,
        '4' => 4,
        '5' => 5,
        '6' => 6,
        '7' => 7,
        '8' => 8,
        '9' => 9,
        _ => 10,
    }
}

/// Reads the twenty-digit numeral at position `i` of `s`, as
/// [`spec_sp_u64`] reads the suffix starting there.
pub fn parse_u64(s: &str, n: usize, i: usize) -> (r: Option<(u64, usize)>)
    requires
        n == s@.len(),
        i <= n,
    ensures
        match spec_sp_u64(s@.skip(i as int)) {
            None => r is None,
            Some((v, c)) => r matches Some(p) && p.0 as nat == v && p.1 == i + c && p.1 <= n,
        },
{
    let ghost t = s@.skip(i as int);
    if n - i < DEC_WIDTH {
        return None;
    }
    let mut acc: u128 = 0;
    let mut j: usize = 0;
    proof {
        lemma_pow10_width();
        assert(s@.subrange(i as int, i as int) =~= Seq::<char>::empty());
    }
    while j < DEC_WIDTH
        invariant
            n == s@.len(),
            i + DEC_WIDTH <= n,
            j <= DEC_WIDTH,
            acc as nat == spec_dec_val(s@.subrange(i as int, i as int + j as int)),
            (acc as nat) < pow10(j as nat),
            pow10(DEC_WIDTH as nat) == 100_000_000_000_000_000_000,
            forall|k: int| i <= k < i + j ==> spec_is_digit(#[trigger] s@[k]),
        decreases DEC_WIDTH - j,
    {
        let c = s.get_char(i + j);
        let d = digit_val(c);
        if d >= 10 {
            proof {
                let u = s@.skip(i as int);
                assert(u.len() == n - i);
                assert(u[j as int] == s@[i + j]);
                assert(!spec_is_digit(u[j as int]));
                assert(spec_sp_u64(u) is None);
            }
            return None;
        }
        proof {
            assert(pow10(j as nat + 1) == 10 * pow10(j as nat));
            assert(pow10(j as nat + 1) <= pow10(DEC_WIDTH as nat)) by {
                lemma_pow10_monotone(j as nat + 1, DEC_WIDTH as nat);
            }
            assert((acc as nat) * 10 + (d as nat) < 10 * pow10(j as nat)) by (nonlinear_arith)
                requires
                    (acc as nat) < pow10(j as nat),
                    (d as nat) < 10,
            ;
            let q = s@.subrange(i as int, i as int + j as int + 1);
            assert(q.drop_last() =~= s@.subrange(i as int, i as int + j as int));
            assert(q.last() == s@[i + j]);
        }
        acc = acc * 10 + d as u128;
        j = j + 1;
    }
    if acc > u64::MAX as u128 {
        proof {
            assert(t.take(DEC_WIDTH as int) =~= s@.subrange(i as int, i as int + DEC_WIDTH as int));
            assert(spec_sp_u64(t) is None);
        }
        return None;
    }
    proof {
        assert(t.take(DEC_WIDTH as int) =~= s@.subrange(i as int, i as int + DEC_WIDTH as int));
        assert forall|k: int| 0 <= k < DEC_WIDTH implies spec_is_digit(t[k]) by {
            assert(t[k] == s@[i + k]);
        }
        assert(spec_sp_u64(t) == Some((acc as nat, DEC_WIDTH as int)));
    }
    Some((acc as u64, i + DEC_WIDTH))
}

/// Powers of ten grow with the exponent.
pub proof fn lemma_pow10_monotone(a: nat, b: nat)
    requires
        a <= b,
    ensures
        pow10(a) <= pow10(b),
    decreases b,
{
    if a < b {
        lemma_pow10_monotone(a, (b - 1) as nat);
        assert(pow10(b) == 10 * pow10((b - 1) as nat));
        assert(pow10((b - 1) as nat) <= 10 * pow10((b - 1) as nat)) by (nonlinear_arith)
            requires
                pow10((b - 1) as nat) >= 0,
        ;
    }
}

} // verus!
