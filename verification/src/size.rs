//! File sizes as short texts.
//!
//! A size is taken to the nearest double-precision number, scaled down by
//! powers of 1024 and written with one decimal. Scaling by a power of two is
//! exact, so all of it is done here on whole numbers.

use vstd::arithmetic::power2::{lemma_pow2_unfold, pow2};
use vstd::prelude::*;

verus! {

/// `n / d` to the nearest whole number, a tie going to the even one.
pub open spec fn round_half_even(n: nat, d: nat) -> nat {
    let q = n / d;
    let r = n % d;
    if 2 * r > d || (2 * r == d && q % 2 == 1) {
        q + 1
    } else {
        q
    }
}

/// The distance between neighbouring double-precision numbers around `n`: one
/// as long as `n` has at most 53 binary digits, then twice as much for each
/// further digit.
pub open spec fn double_spacing(n: nat) -> nat
    decreases n,
{
    if n < 0x20_0000_0000_0000 {
        1
    } else {
        2 * double_spacing(n / 2)
    }
}

/// The double-precision number nearest to `n`.
pub open spec fn nearest_double(n: nat) -> nat {
    round_half_even(n, double_spacing(n)) * double_spacing(n)
}

/// The decimal digit for `d`.
pub open spec fn digit(d: nat) -> char {
    (48 + d) as char
}

/// `n` in decimal.
pub open spec fn decimal(n: nat) -> Seq<char>
    decreases n,
{
    if n < 10 {
        seq![digit(n)]
    } else {
        decimal(n / 10).push(digit(n % 10))
    }
}

/// `tenths / 10` with one decimal.
pub open spec fn one_decimal(tenths: nat) -> Seq<char> {
    decimal(tenths / 10) + "."@ + seq![digit(tenths % 10)]
}

/// `tenths / 10` with one decimal, which is left out where it is zero.
pub open spec fn short_decimal(tenths: nat) -> Seq<char> {
    if tenths % 10 == 0 {
        decimal(tenths / 10)
    } else {
        one_decimal(tenths)
    }
}

/// How many bytes the unit holds in which a size of `v` bytes is given: the
/// largest power of 1024 that is at most `v`, and at most the fifth.
pub open spec fn unit_bytes(v: nat) -> nat {
    if v < 1024 {
        1
    } else if v < 0x10_0000 {
        1024
    } else if v < 0x4000_0000 {
        0x10_0000
    } else if v < 0x100_0000_0000 {
        0x4000_0000
    } else if v < 0x4_0000_0000_0000 {
        0x100_0000_0000
    } else {
        0x4_0000_0000_0000
    }
}

/// The size of `bytes` bytes in tenths of its unit.
pub open spec fn size_tenths(bytes: nat) -> nat {
    round_half_even(10 * nearest_double(bytes), unit_bytes(nearest_double(bytes)))
}

/// The text for a size of `bytes` bytes. Sizes from 1024 T on are given in
/// multiples of 1024 T, still with the letter T and always with the decimal.
pub open spec fn size_text(bytes: nat) -> Seq<char> {
    let v = nearest_double(bytes);
    let tenths = size_tenths(bytes);
    if bytes == 0 {
        "0"@
    } else if v < 1024 {
        decimal(v) + "B"@
    } else if v < 0x10_0000 {
        short_decimal(tenths) + "K"@
    } else if v < 0x4000_0000 {
        short_decimal(tenths) + "M"@
    } else if v < 0x100_0000_0000 {
        short_decimal(tenths) + "G"@
    } else if v < 0x4_0000_0000_0000 {
        short_decimal(tenths) + "T"@
    } else {
        one_decimal(tenths) + "T"@
    }
}

/// Rounding is off by at most one half, whatever the divisor.
proof fn lemma_round_bound(n: nat, d: nat)
    requires
        d > 0,
    ensures
        2 * n <= 2 * (d * round_half_even(n, d)) + d,
        2 * (d * round_half_even(n, d)) <= 2 * n + d,
{
    let q = n / d;
    let r = n % d;
    assert(n == d * q + r && r < d) by (nonlinear_arith)
        requires
            d > 0,
            q == n / d,
            r == n % d,
    ;
    assert(d * (q + 1) == d * q + d) by (nonlinear_arith);
}

/// The spacing is at least one, and no larger than the number unless it is
/// one.
proof fn lemma_spacing(n: nat)
    ensures
        double_spacing(n) >= 1,
        double_spacing(n) == 1 || double_spacing(n) <= n,
    decreases n,
{
    if n >= 0x20_0000_0000_0000 {
        lemma_spacing(n / 2);
    }
}

/// The text gives the size to within one twentieth of its unit, for every
/// size that a double-precision number holds exactly.
pub proof fn size_is_accurate(bytes: nat)
    requires
        nearest_double(bytes) == bytes,
    ensures
        20 * bytes <= unit_bytes(bytes) * (2 * size_tenths(bytes) + 1),
        unit_bytes(bytes) * (2 * size_tenths(bytes) - 1) <= 20 * bytes,
{
    let u = unit_bytes(bytes);
    let t = size_tenths(bytes);
    lemma_round_bound(10 * bytes, u);
    assert(u * (2 * t + 1) == 2 * (u * t) + u) by (nonlinear_arith);
    assert(u * (2 * t - 1) == 2 * (u * t) - u) by (nonlinear_arith);
}

/// A size below 2^53 is held exactly.
pub proof fn small_sizes_are_exact(bytes: nat)
    requires
        bytes < 0x20_0000_0000_0000,
    ensures
        nearest_double(bytes) == bytes,
{
    assert(double_spacing(bytes) == 1);
    assert(bytes / 1 == bytes && bytes % 1 == 0);
}

/// Rounding keeps the order.
proof fn lemma_round_monotone(a: nat, b: nat, d: nat)
    requires
        a <= b,
        d > 0,
    ensures
        round_half_even(a, d) <= round_half_even(b, d),
{
    let (qa, ra, qb, rb) = (a / d, a % d, b / d, b % d);
    assert(a == d * qa + ra && ra < d && b == d * qb + rb && rb < d) by (nonlinear_arith)
        requires
            d > 0,
            qa == a / d,
            ra == a % d,
            qb == b / d,
            rb == b % d,
    ;
    if qa > qb {
        assert(d * qa >= d * qb + d) by (nonlinear_arith)
            requires
                qa >= qb + 1,
                d > 0,
        ;
    }
}

/// A multiple of the divisor is divided without rounding.
proof fn lemma_round_multiple(k: nat, d: nat)
    requires
        d > 0,
    ensures
        round_half_even(k * d, d) == k,
{
    assert((k * d) / d == k && (k * d) % d == 0) by (nonlinear_arith)
        requires
            d > 0,
    ;
}

/// The numbers with the same spacing lie between two powers of two.
proof fn lemma_spacing_range(n: nat)
    ensures
        n < 0x20_0000_0000_0000 * double_spacing(n),
        double_spacing(n) > 1 ==> 0x10_0000_0000_0000 * double_spacing(n) <= n,
    decreases n,
{
    if n >= 0x20_0000_0000_0000 {
        lemma_spacing_range(n / 2);
    }
}

/// Where the spacing grows, it at least doubles.
proof fn lemma_spacing_doubles(a: nat, b: nat)
    requires
        a <= b,
    ensures
        double_spacing(a) == double_spacing(b) || 2 * double_spacing(a) <= double_spacing(b),
    decreases b,
{
    lemma_spacing(b / 2);
    if a >= 0x20_0000_0000_0000 {
        lemma_spacing_doubles(a / 2, b / 2);
    }
}

/// Going to the nearest double-precision number keeps the order.
proof fn lemma_nearest_monotone(a: nat, b: nat)
    requires
        a <= b,
    ensures
        nearest_double(a) <= nearest_double(b),
{
    let sa = double_spacing(a);
    let sb = double_spacing(b);
    let ra = round_half_even(a, sa);
    let rb = round_half_even(b, sb);
    lemma_spacing(a);
    lemma_spacing(b);
    lemma_spacing_doubles(a, b);
    if sa == sb {
        lemma_round_monotone(a, b, sa);
        assert(ra * sa <= rb * sa) by (nonlinear_arith)
            requires
                ra <= rb,
        ;
    } else {
        // A power of two lies between them, and neither is rounded past it.
        lemma_spacing_range(a);
        lemma_spacing_range(b);
        lemma_round_monotone(a, 0x20_0000_0000_0000 * sa, sa);
        lemma_round_multiple(0x20_0000_0000_0000, sa);
        lemma_round_monotone(0x10_0000_0000_0000 * sb, b, sb);
        lemma_round_multiple(0x10_0000_0000_0000, sb);
        assert(ra * sa <= 0x20_0000_0000_0000 * sa) by (nonlinear_arith)
            requires
                ra <= 0x20_0000_0000_0000,
        ;
        assert(0x10_0000_0000_0000 * sb <= rb * sb) by (nonlinear_arith)
            requires
                0x10_0000_0000_0000 <= rb,
        ;
    }
}

/// Of two sizes in the same unit, the larger is never given the smaller
/// number.
pub proof fn size_keeps_order(a: nat, b: nat)
    requires
        a <= b,
        unit_bytes(nearest_double(a)) == unit_bytes(nearest_double(b)),
    ensures
        size_tenths(a) <= size_tenths(b),
{
    lemma_nearest_monotone(a, b);
    lemma_round_monotone(
        10 * nearest_double(a),
        10 * nearest_double(b),
        unit_bytes(nearest_double(a)),
    );
}

/// The larger of two sizes is never given the smaller unit.
pub proof fn unit_keeps_order(a: nat, b: nat)
    requires
        a <= b,
    ensures
        unit_bytes(nearest_double(a)) <= unit_bytes(nearest_double(b)),
{
    lemma_nearest_monotone(a, b);
}

/// `n / d` to the nearest whole number, a tie going to the even one.
fn divide_half_even(n: u128, d: u128) -> (r: u128)
    requires
        0 < d < 0x1_0000_0000_0000_0000,
        n < 0x10_0000_0000_0000_0000,
    ensures
        r == round_half_even(n as nat, d as nat),
        r <= n + 1,
{
    let q: u128 = n / d;
    let r: u128 = n % d;
    proof {
        assert(q <= n) by (nonlinear_arith)
            requires
                q == n / d,
                d > 0,
        ;
        assert(r < d) by (nonlinear_arith)
            requires
                r == n % d,
                d > 0,
        ;
    }
    if 2 * r > d || (2 * r == d && q % 2 == 1) {
        q + 1
    } else {
        q
    }
}

/// The double-precision number nearest to `n`.
fn to_double(n: u64) -> (r: u128)
    ensures
        r == nearest_double(n as nat),
        r < 0x1_8000_0000_0000_0000,
{
    let mut spacing: u128 = 1;
    let mut m: u64 = n;
    while m >= 0x20_0000_0000_0000
        invariant
            double_spacing(n as nat) == spacing * double_spacing(m as nat),
            1 <= spacing,
            spacing * m <= n,
        decreases m,
    {
        proof {
            assert(spacing * 2 * ((m / 2) as int) <= spacing * m) by (nonlinear_arith)
                requires
                    1 <= spacing,
            ;
            assert(spacing * (2 * double_spacing((m / 2) as nat)) == spacing * 2 * double_spacing(
                (m / 2) as nat,
            )) by (nonlinear_arith);
            assert(spacing * 2 <= n) by (nonlinear_arith)
                requires
                    1 <= spacing,
                    m >= 2,
                    spacing * m <= n,
            ;
        }
        spacing = spacing * 2;
        m = m / 2;
    }
    proof {
        assert(double_spacing(m as nat) == 1);
        assert(spacing * 1 == spacing);
        lemma_spacing(n as nat);
        lemma_round_bound(n as nat, spacing as nat);
        assert(spacing * round_half_even(n as nat, spacing as nat) == round_half_even(
            n as nat,
            spacing as nat,
        ) * spacing) by (nonlinear_arith);
    }
    let q: u128 = divide_half_even(n as u128, spacing);
    q * spacing
}

/// Appends `n` in decimal.
pub fn push_decimal(out: &mut String, n: u128)
    ensures
        final(out)@ == old(out)@ + decimal(n as nat),
    decreases n,
{
    let ghost start = out@;
    if n >= 10 {
        push_decimal(out, n / 10);
    }
    out.push((48u8 + (n % 10) as u8) as char);
    proof {
        assert(out@ =~= start + decimal(n as nat));
    }
}

/// Convert byte count to a human-readable string (B / K / M / G / T).
pub fn human_readable_size(bytes: u64) -> (r: String)
    ensures
        r@ == size_text(bytes as nat),
{
    let mut out = String::new();
    if bytes == 0 {
        out.append("0");
        return out;
    }
    let v: u128 = to_double(bytes);
    if v < 1024 {
        push_decimal(&mut out, v);
        out.append("B");
        return out;
    }
    let (unit, letter): (u128, &'static str) = if v < 0x10_0000 {
        (1024, "K")
    } else if v < 0x4000_0000 {
        (0x10_0000, "M")
    } else if v < 0x100_0000_0000 {
        (0x4000_0000, "G")
    } else if v < 0x4_0000_0000_0000 {
        (0x100_0000_0000, "T")
    } else {
        (0x4_0000_0000_0000, "T")
    };
    let tenths: u128 = divide_half_even(10 * v, unit);
    push_decimal(&mut out, tenths / 10);
    if tenths % 10 != 0 || v >= 0x4_0000_0000_0000 {
        out.append(".");
        out.push((48u8 + (tenths % 10) as u8) as char);
    }
    out.append(letter);
    proof {
        assert(out@ =~= size_text(bytes as nat));
    }
    out
}

/// The number that decimal digits read as.
pub open spec fn number(digits: Seq<char>) -> int
    decreases digits.len(),
{
    if digits.len() == 0 {
        0
    } else {
        10 * number(digits.drop_last()) + (digits.last() as int - '0' as int)
    }
}

/// `digits` are the decimal digits of `n`, without a zero in front.
pub open spec fn reads_as(digits: Seq<char>, n: nat) -> bool {
    &&& digits.len() > 0
    &&& digits.len() > 1 ==> digits[0] != '0'
    &&& forall|i: int| 0 <= i < digits.len() ==> '0' <= #[trigger] digits[i] && digits[i] <= '9'
    &&& number(digits) == n
}

/// A number in decimal reads as that number.
pub proof fn decimal_reads_as_the_number(n: nat)
    ensures
        reads_as(decimal(n), n),
    decreases n,
{
    reveal_with_fuel(number, 2);
    if n < 10 {
        assert(decimal(n).drop_last() =~= Seq::<char>::empty());
    } else {
        let front = decimal(n / 10);
        decimal_reads_as_the_number(n / 10);
        assert(decimal(n).drop_last() =~= front);
        if front.len() == 1 {
            assert(front.drop_last() =~= Seq::<char>::empty());
            assert(front[0] == front.last());
        }
    }
}

/// `q` is the whole number nearest to `n / d`, the even one of two that are
/// equally near.
pub open spec fn is_nearest(n: nat, d: nat, q: nat) -> bool {
    &&& -(d as int) <= 2 * (q * d - n) <= d
    &&& 2 * (q * d - n) == d || 2 * (n - q * d) == d ==> q % 2 == 0
}

/// `v` is the double-precision number nearest to `n`: a multiple of the power of
/// two for which 53 binary digits reach to `n`.
pub open spec fn is_nearest_double(n: nat, v: nat) -> bool {
    exists|e: nat, q: nat|
        {
            &&& n < 0x20_0000_0000_0000 * pow2(e)
            &&& e == 0 || 0x10_0000_0000_0000 * pow2(e) <= n
            &&& v == q * pow2(e)
            &&& #[trigger] is_nearest(n, pow2(e), q)
        }
}

/// Rounding gives the nearest number.
proof fn lemma_is_nearest(n: nat, d: nat)
    requires
        d > 0,
    ensures
        is_nearest(n, d, round_half_even(n, d)),
{
    let q = n / d;
    let r = n % d;
    assert(n == q * d + r && r < d) by (nonlinear_arith)
        requires
            d > 0,
            q == n / d,
            r == n % d,
    ;
    assert((q + 1) * d == q * d + d) by (nonlinear_arith);
}

/// The spacing of double-precision numbers is a power of two.
proof fn lemma_spacing_power(n: nat) -> (e: nat)
    ensures
        double_spacing(n) == pow2(e),
        double_spacing(n) == 1 ==> e == 0,
    decreases n,
{
    if n < 0x20_0000_0000_0000 {
        vstd::arithmetic::power2::lemma2_to64();
        0
    } else {
        let e = lemma_spacing_power(n / 2);
        lemma_spacing(n / 2);
        lemma_pow2_unfold(e + 1);
        e + 1
    }
}

/// The nearest double-precision number is one, and the nearest.
pub proof fn nearest_double_is_nearest(n: nat)
    ensures
        is_nearest_double(n, nearest_double(n)),
{
    let e = lemma_spacing_power(n);
    lemma_spacing(n);
    lemma_spacing_range(n);
    lemma_is_nearest(n, pow2(e));
    let q = round_half_even(n, pow2(e));
    assert(is_nearest(n, pow2(e), q));
}

/// `text` gives a size of `bytes` bytes, which are `v` as a double-precision
/// number and `tenths` tenths of their unit: `0`, or digits and a letter, the
/// tenth left out where it is zero and the size below 1024 T.
pub open spec fn is_size(
    text: Seq<char>,
    bytes: nat,
    v: nat,
    tenths: nat,
    whole: Seq<char>,
) -> bool {
    let (unit, letter): (nat, char) = if v < 0x10_0000 {
        (0x400, 'K')
    } else if v < 0x4000_0000 {
        (0x10_0000, 'M')
    } else if v < 0x100_0000_0000 {
        (0x4000_0000, 'G')
    } else if v < 0x4_0000_0000_0000 {
        (0x100_0000_0000, 'T')
    } else {
        (0x4_0000_0000_0000, 'T')
    };
    &&& is_nearest_double(bytes, v)
    &&& if bytes == 0 {
        text == seq!['0']
    } else if v < 0x400 {
        reads_as(whole, v) && text == whole.push('B')
    } else {
        &&& is_nearest(10 * v, unit, tenths)
        &&& reads_as(whole, tenths / 10)
        &&& if tenths % 10 == 0 && v < 0x4_0000_0000_0000 {
            text == whole.push(letter)
        } else {
            exists|tenth: char| #[trigger]
                reads_as(seq![tenth], tenths % 10) && text == whole.push('.').push(tenth).push(
                    letter,
                )
        }
    }
}

/// The letters of the units are what they are.
proof fn lemma_letters()
    ensures
        "0"@ == seq!['0'],
        "."@ == seq!['.'],
        "B"@ == seq!['B'],
        "K"@ == seq!['K'],
        "M"@ == seq!['M'],
        "G"@ == seq!['G'],
        "T"@ == seq!['T'],
{
    reveal_strlit("0");
    reveal_strlit(".");
    reveal_strlit("B");
    reveal_strlit("K");
    reveal_strlit("M");
    reveal_strlit("G");
    reveal_strlit("T");
}

/// The text for a size gives the size.
proof fn lemma_size_text(bytes: nat)
    ensures
        exists|v: nat, tenths: nat, whole: Seq<char>| #[trigger]
            is_size(size_text(bytes), bytes, v, tenths, whole),
{
    let v = nearest_double(bytes);
    let tenths = size_tenths(bytes);
    let text = size_text(bytes);
    nearest_double_is_nearest(bytes);
    lemma_letters();
    if bytes == 0 {
        small_sizes_are_exact(bytes);
    }
    if v < 1024 {
        decimal_reads_as_the_number(v);
        assert(bytes > 0 ==> text =~= decimal(v).push('B'));
        assert(is_size(text, bytes, v, tenths, decimal(v)));
    } else {
        let whole = decimal(tenths / 10);
        let tenth = digit(tenths % 10);
        lemma_is_nearest(10 * v, unit_bytes(v));
        decimal_reads_as_the_number(tenths / 10);
        decimal_reads_as_the_number(tenths % 10);
        assert(decimal(tenths % 10) =~= seq![tenth]);
        assert(reads_as(seq![tenth], tenths % 10));
        assert(one_decimal(tenths) =~= whole.push('.').push(tenth));
        let letter = text.last();
        if tenths % 10 == 0 && v < 0x4_0000_0000_0000 {
            assert(text =~= whole.push(letter));
        } else {
            assert(text =~= whole.push('.').push(tenth).push(letter));
        }
        assert(is_size(text, bytes, v, tenths, whole));
    }
}

/// A size is given by the digits of the nearest tenth of its unit and the letter
/// of that unit.
pub proof fn size_is_given_in_its_unit(bytes: u64, r: String)
    requires
        call_ensures(human_readable_size, (bytes,), r),
    ensures
        r@ == size_text(bytes as nat),
        exists|v: nat, tenths: nat, whole: Seq<char>| #[trigger]
            is_size(r@, bytes as nat, v, tenths, whole),
{
    lemma_size_text(bytes as nat);
}

} // verus!
