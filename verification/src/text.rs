//! Text for a fixed-width screen: numbers in decimal and padded columns.

use vstd::arithmetic::div_mod::{lemma_fundamental_div_mod, lemma_mod_bound};
use vstd::arithmetic::power2::{
    lemma2_to64, lemma2_to64_rest, lemma_pow2_adds, lemma_pow2_pos, lemma_pow2_strictly_increases,
    pow2,
};
use vstd::prelude::*;
use vstd::string::*;

use crate::binary32::{scale_of, significand_of, Binary32, FRACTION_PLACES, SIGN_BIT};
use crate::rounding::{
    divide_half_even, half_even, law_half_even_is_near, lemma_half_even_cancel, lemma_half_even_exact,
    lemma_half_even_small, power_of_two, steps, INFINITE,
};

verus! {

/// `String::push` appends one character.
pub assume_specification[ String::push ](s: &mut String, c: char)
    ensures
        final(s)@ == old(s)@.push(c),
;

/// Appends a text.
pub fn w(out: &mut String, s: &str)
    ensures
        final(out)@ == old(out)@ + s@,
{
    out.append(s);
}

/// A character, repeated.
pub open spec fn repeated(c: char, n: nat) -> Seq<char> {
    Seq::new(n, |i: int| c)
}

/// Appends a character `n` times.
pub fn push_repeated(out: &mut String, c: char, n: usize)
    ensures
        final(out)@ == old(out)@ + repeated(c, n as nat),
{
    let ghost before: Seq<char> = out@;
    let mut i: usize = 0;
    assert(out@ =~= before + repeated(c, 0));
    while i < n
        invariant
            i <= n,
            out@ == before + repeated(c, i as nat),
        decreases n - i,
    {
        out.push(c);
        i = i + 1;
        assert(out@ =~= before + repeated(c, i as nat));
    }
}

/// The spaces that bring a text of `len` characters to `width`.
pub open spec fn padding(len: nat, width: nat) -> Seq<char> {
    repeated(
        ' ',
        if len < width {
            (width - len) as nat
        } else {
            0
        },
    )
}

/// A text at the left of a column.
pub open spec fn left_aligned(s: Seq<char>, width: nat) -> Seq<char> {
    s + padding(s.len(), width)
}

/// A text at the right of a column.
pub open spec fn right_aligned(s: Seq<char>, width: nat) -> Seq<char> {
    padding(s.len(), width) + s
}

/// Appends a text at the left of a column.
pub fn push_left_aligned(out: &mut String, s: &str, width: usize)
    ensures
        final(out)@ == old(out)@ + left_aligned(s@, width as nat),
{
    let ghost before: Seq<char> = out@;
    let len: usize = s.unicode_len();
    out.append(s);
    push_repeated(
        out,
        ' ',
        if len < width {
            width - len
        } else {
            0
        },
    );
    assert(out@ =~= before + left_aligned(s@, width as nat));
}

/// Appends a text at the right of a column.
pub fn push_right_aligned(out: &mut String, s: &str, width: usize)
    ensures
        final(out)@ == old(out)@ + right_aligned(s@, width as nat),
{
    let ghost before: Seq<char> = out@;
    let len: usize = s.unicode_len();
    push_repeated(
        out,
        ' ',
        if len < width {
            width - len
        } else {
            0
        },
    );
    out.append(s);
    assert(out@ =~= before + right_aligned(s@, width as nat));
}

/// A decimal digit.
pub open spec fn digit(d: nat) -> char {
    (48 + d) as char
}

/// A number in decimal, without leading zeros.
pub open spec fn decimal(n: nat) -> Seq<char>
    decreases n,
{
    if n < 10 {
        seq![digit(n)]
    } else {
        decimal(n / 10).push(digit(n % 10))
    }
}

/// Appends a digit.
fn push_digit(out: &mut String, d: u8)
    requires
        d < 10,
    ensures
        final(out)@ == old(out)@.push(digit(d as nat)),
{
    out.push((48 + d) as char);
}

/// Appends a number in decimal.
pub fn push_decimal(out: &mut String, n: u128)
    ensures
        final(out)@ == old(out)@ + decimal(n as nat),
    decreases n,
{
    let ghost before: Seq<char> = out@;
    if n >= 10 {
        push_decimal(out, n / 10);
    }
    push_digit(out, (n % 10) as u8);
    assert(out@ =~= before + decimal(n as nat));
}

/// The absolute value of a finite number times `factor`, to the nearest integer,
/// ties to even.
pub open spec fn in_parts(a: Binary32, factor: nat) -> nat {
    half_even(a.steps() * factor, pow2(FRACTION_PLACES as nat))
}

/// A number without a fraction.
pub open spec fn whole(a: Binary32) -> Seq<char> {
    if a.is_nan() {
        "NaN"@
    } else {
        (if a.negative() {
            seq!['-']
        } else {
            Seq::<char>::empty()
        }) + (if a.is_infinite() {
            "inf"@
        } else {
            decimal(in_parts(a, 1))
        })
    }
}

/// A number with two digits behind the point.
pub open spec fn two_places(a: Binary32) -> Seq<char> {
    if a.is_nan() {
        "NaN"@
    } else {
        (if a.negative() {
            seq!['-']
        } else {
            Seq::<char>::empty()
        }) + (if a.is_infinite() {
            "inf"@
        } else {
            let n: nat = in_parts(a, 100);
            decimal(n / 100) + seq!['.', digit(n / 10 % 10), digit(n % 10)]
        })
    }
}

/// The parts of a number, of which `factor` make a whole, as wholes and the rest.
fn split_parts(m: u32, factor: u128) -> (r: (u128, u128))
    requires
        m < INFINITE,
        0 < factor <= 100,
    ensures
        r.0 * factor + r.1 == half_even(
            steps(m as nat) * factor as nat,
            pow2(FRACTION_PLACES as nat),
        ),
        r.1 < factor,
{
    let s: u128 = significand_of(m) as u128;
    let k: i32 = scale_of(m);
    let ghost w: nat = pow2(FRACTION_PLACES as nat);
    let ghost c: nat = pow2(k as nat);
    proof {
        lemma2_to64();
        lemma2_to64_rest();
        lemma_pow2_pos(FRACTION_PLACES as nat);
        lemma_pow2_pos(k as nat);
    }
    if k >= FRACTION_PLACES as i32 {
        let p: u128 = power_of_two((k - FRACTION_PLACES as i32) as u32);
        proof {
            let t: nat = (k - FRACTION_PLACES) as nat;
            lemma_pow2_adds(t, FRACTION_PLACES as nat);
            lemma_pow2_adds(64, 40);
            if t < 104 {
                lemma_pow2_strictly_increases(t, 104);
            }
            assert(s * p <= 0xff_ffff * 0x100_0000_0000_0000_0000_0000_0000) by (nonlinear_arith)
                requires
                    s <= 0xff_ffff,
                    p <= 0x100_0000_0000_0000_0000_0000_0000,
            ;
            let f: nat = factor as nat;
            assert((s * (p * w)) * f == ((s * p) * f) * w) by (nonlinear_arith);
            lemma_half_even_exact(((s * p) * f) as nat, w);
        }
        (s * p, 0)
    } else {
        let t: i32 = FRACTION_PLACES as i32 - k;
        proof {
            assert(s * factor <= 0xff_ffff * 100) by (nonlinear_arith)
                requires
                    s <= 0xff_ffff,
                    factor <= 100,
            ;
            lemma_pow2_adds(t as nat, k as nat);
            lemma_pow2_pos(t as nat);
            assert((s * c) * factor == (s * factor) * c) by (nonlinear_arith);
            lemma_half_even_cancel((s * factor) as nat, pow2(t as nat), c);
        }
        let q: u128 = if t > 100 {
            proof {
                lemma_pow2_strictly_increases(100, t as nat);
                lemma_pow2_adds(64, 36);
                lemma_half_even_small((s * factor) as nat, pow2(t as nat));
            }
            0
        } else {
            let p: u128 = power_of_two(t as u32);
            proof {
                lemma_pow2_adds(64, 36);
                if t < 100 {
                    lemma_pow2_strictly_increases(t as nat, 100);
                }
            }
            divide_half_even(s * factor, p)
        };
        proof {
            lemma_fundamental_div_mod(q as int, factor as int);
            lemma_mod_bound(q as int, factor as int);
            assert(factor * (q / factor) == (q / factor) * factor) by (nonlinear_arith);
        }
        (q / factor, q % factor)
    }
}

/// Appends a number without a fraction.
pub fn push_whole(out: &mut String, a: Binary32)
    ensures
        final(out)@ == old(out)@ + whole(a),
{
    let ghost before: Seq<char> = out@;
    let m: u32 = a.bits % SIGN_BIT;
    if m > INFINITE {
        out.append("NaN");
        return;
    }
    if a.bits >= SIGN_BIT {
        out.push('-');
    }
    if m == INFINITE {
        out.append("inf");
    } else {
        let parts: (u128, u128) = split_parts(m, 1);
        push_decimal(out, parts.0);
    }
    assert(out@ =~= before + whole(a));
}

/// Appends a number with two digits behind the point.
pub fn push_two_places(out: &mut String, a: Binary32)
    ensures
        final(out)@ == old(out)@ + two_places(a),
{
    let ghost before: Seq<char> = out@;
    let m: u32 = a.bits % SIGN_BIT;
    if m > INFINITE {
        out.append("NaN");
        return;
    }
    if a.bits >= SIGN_BIT {
        out.push('-');
    }
    if m == INFINITE {
        out.append("inf");
    } else {
        let parts: (u128, u128) = split_parts(m, 100);
        proof {
            lemma_hundredths(in_parts(a, 100), parts.0 as nat, parts.1 as nat);
        }
        push_hundredths(out, parts.0, parts.1 as u8);
    }
    assert(out@ =~= before + two_places(a));
}

/// Appends wholes and hundredths.
fn push_hundredths(out: &mut String, n: u128, rest: u8)
    requires
        rest < 100,
    ensures
        final(out)@ == old(out)@ + (decimal(n as nat) + seq![
            '.',
            digit((rest / 10) as nat),
            digit((rest % 10) as nat),
        ]),
{
    let ghost before: Seq<char> = out@;
    push_decimal(out, n);
    out.push('.');
    push_digit(out, rest / 10);
    push_digit(out, rest % 10);
    assert(out@ =~= before + (decimal(n as nat) + seq![
        '.',
        digit((rest / 10) as nat),
        digit((rest % 10) as nat),
    ]));
}

proof fn lemma_hundredths(n: nat, q: nat, r: nat)
    requires
        n == q * 100 + r,
        r < 100,
    ensures
        n / 100 == q,
        n / 10 % 10 == r / 10,
        n % 10 == r % 10,
{
}

/// The number that decimal digits stand for.
pub open spec fn read_decimal(digits: Seq<char>) -> int
    decreases digits.len(),
{
    if digits.len() == 0 {
        0
    } else {
        10 * read_decimal(digits.drop_last()) + (digits.last() as int - '0' as int)
    }
}

/// A number in decimal reads as the number, holds digits only, and begins with zero only if
/// it is zero.
pub proof fn law_decimal_reads_back(n: nat)
    ensures
        read_decimal(decimal(n)) == n,
        decimal(n).len() > 0,
        forall|i: int| 0 <= i < decimal(n).len() ==> '0' <= #[trigger] decimal(n)[i] <= '9',
        decimal(n)[0] == '0' ==> n == 0 && decimal(n).len() == 1,
    decreases n,
{
    reveal_with_fuel(read_decimal, 2);
    if n >= 10 {
        law_decimal_reads_back(n / 10);
        assert(decimal(n).drop_last() =~= decimal(n / 10));
        assert(decimal(n)[0] == decimal(n / 10)[0]);
    } else {
        assert(decimal(n).drop_last() =~= Seq::empty());
    }
}

/// A padded text has the width of its column, or its own if that is greater; it holds the
/// text at its end of the column, and spaces otherwise.
pub proof fn law_columns_are_padded(s: Seq<char>, width: nat)
    ensures
        left_aligned(s, width).len() == vstd::math::max(s.len() as int, width as int),
        left_aligned(s, width).subrange(0, s.len() as int) == s,
        forall|i: int|
            s.len() <= i < left_aligned(s, width).len() ==> #[trigger] left_aligned(s, width)[i]
                == ' ',
        right_aligned(s, width).len() == left_aligned(s, width).len(),
        right_aligned(s, width).subrange(
            right_aligned(s, width).len() - s.len(),
            right_aligned(s, width).len() as int,
        ) == s,
        forall|i: int|
            0 <= i < right_aligned(s, width).len() - s.len() ==> #[trigger] right_aligned(
                s,
                width,
            )[i] == ' ',
{
    assert(left_aligned(s, width).subrange(0, s.len() as int) =~= s);
    assert(right_aligned(s, width).subrange(
        right_aligned(s, width).len() - s.len(),
        right_aligned(s, width).len() as int,
    ) =~= s);
}

/// A repeated character.
pub proof fn law_repeated(c: char, n: nat)
    ensures
        repeated(c, n).len() == n,
        forall|i: int| 0 <= i < n ==> #[trigger] repeated(c, n)[i] == c,
{
}

/// What a number with two digits behind the point reads as, in hundredths, without its
/// sign.
pub open spec fn read_hundredths(text: Seq<char>) -> int {
    let n: int = text.len() as int;
    100 * read_decimal(text.subrange(0, n - 3)) + read_decimal(text.subrange(n - 2, n))
}

/// A finite number that is not negative is shown to the nearest hundredth, the even one of
/// two that are equally near, with a point before the last two digits.
pub proof fn law_two_places_are_nearest(a: Binary32)
    requires
        a.is_finite(),
        !a.negative(),
    ensures
        ({
            let text: Seq<char> = two_places(a);
            let unit: int = pow2(FRACTION_PLACES as nat) as int;
            &&& text.len() >= 4
            &&& text[text.len() - 3] == '.'
            &&& 2 * vstd::math::abs(100 * a.steps() - unit * read_hundredths(text)) <= unit
            &&& 2 * vstd::math::abs(100 * a.steps() - unit * read_hundredths(text)) == unit
                ==> read_hundredths(text) % 2 == 0
        }),
{
    let n: nat = in_parts(a, 100);
    let text: Seq<char> = two_places(a);
    let head: Seq<char> = decimal(n / 100);
    let tail: Seq<char> = seq![digit(n / 10 % 10), digit(n % 10)];
    law_decimal_reads_back(n / 100);
    lemma_pow2_pos(FRACTION_PLACES as nat);
    law_half_even_is_near(a.steps() * 100, pow2(FRACTION_PLACES as nat));
    assert(text =~= head + seq!['.'] + tail);
    assert(text.subrange(0, text.len() - 3) =~= head);
    assert(text.subrange(text.len() - 2, text.len() as int) =~= tail);
    reveal_with_fuel(read_decimal, 3);
    assert(tail.drop_last() =~= seq![digit(n / 10 % 10)]);
    assert(tail.drop_last().drop_last() =~= Seq::empty());
    assert(read_decimal(tail) == 10 * (n / 10 % 10) + n % 10);
    assert(100 * (n / 100) + 10 * (n / 10 % 10) + n % 10 == n);
}

/// A finite number that is not negative is shown without its fraction as the nearest
/// integer, the even one of two that are equally near.
pub proof fn law_whole_is_nearest(a: Binary32)
    requires
        a.is_finite(),
        !a.negative(),
    ensures
        ({
            let unit: int = pow2(FRACTION_PLACES as nat) as int;
            &&& 2 * vstd::math::abs(a.steps() - unit * read_decimal(whole(a))) <= unit
            &&& 2 * vstd::math::abs(a.steps() - unit * read_decimal(whole(a))) == unit
                ==> read_decimal(whole(a)) % 2 == 0
        }),
{
    let n: nat = in_parts(a, 1);
    law_decimal_reads_back(n);
    lemma_pow2_pos(FRACTION_PLACES as nat);
    law_half_even_is_near(a.steps() * 1, pow2(FRACTION_PLACES as nat));
    assert(whole(a) =~= decimal(n));
}

/// A negative number is shown as the positive one with a sign before it; what has no value
/// is named.
pub proof fn law_signs_are_shown(a: Binary32)
    ensures
        !a.is_nan() && a.negative() ==> two_places(a) == seq!['-'] + two_places(a.negated())
            && whole(a) == seq!['-'] + whole(a.negated()),
        a.is_infinite() && !a.negative() ==> two_places(a) == "inf"@ && whole(a) == "inf"@,
        a.is_nan() ==> two_places(a) == "NaN"@ && whole(a) == "NaN"@,
{
    if !a.is_nan() {
        let none: Seq<char> = Seq::empty();
        let b: Binary32 = a.negated();
        assert(b.magnitude() == a.magnitude() && b.negative() != a.negative());
        assert(none + "inf"@ =~= "inf"@);
        assert(none + decimal(in_parts(b, 1)) =~= decimal(in_parts(b, 1)));
        let n: nat = in_parts(b, 100);
        let text: Seq<char> = decimal(n / 100) + seq!['.', digit(n / 10 % 10), digit(n % 10)];
        assert(none + text =~= text);
    }
}

} // verus!
