//! Exact decimal numbers.
//!
//! A [`Dec`] represents the rational number `mantissa / 10^scale`.  The
//! parser produces decimals straight from digit text, and differentiation
//! only ever multiplies, adds, and subtracts one, so every value the crate
//! handles is an exact decimal; no rounding occurs anywhere.

use vstd::prelude::*;

verus! {

/// Mathematical model of a decimal: the value `m / 10^s`.
#[verifier::ext_equal]
pub struct DecV {
    pub m: int,
    pub s: nat,
}

/// `10^n`, the denominator belonging to scale `n`.
pub open spec fn pow10(n: nat) -> int
    decreases n,
{
    if n == 0 {
        1
    } else {
        10 * pow10((n - 1) as nat)
    }
}

pub proof fn lemma_pow10_pos(n: nat)
    ensures
        pow10(n) >= 1,
    decreases n,
{
    if n > 0 {
        lemma_pow10_pos((n - 1) as nat);
    }
}

pub proof fn lemma_pow10_add(a: nat, b: nat)
    ensures
        pow10(a + b) == pow10(a) * pow10(b),
    decreases a,
{
    if a == 0 {
        assert(pow10(0 + b) == 1 * pow10(b));
    } else {
        lemma_pow10_add((a - 1) as nat, b);
        assert(pow10(a + b) == 10 * pow10((a + b - 1) as nat));
        assert(10 * (pow10((a - 1) as nat) * pow10(b)) == (10 * pow10((a - 1) as nat)) * pow10(b))
            by (nonlinear_arith);
    }
}

pub proof fn lemma_pow10_mono(a: nat, b: nat)
    requires
        a <= b,
    ensures
        pow10(a) <= pow10(b),
    decreases b,
{
    if a < b {
        lemma_pow10_mono(a, (b - 1) as nat);
        lemma_pow10_pos((b - 1) as nat);
    }
}

/// Concrete powers of ten that the executable bounds lean on.
pub proof fn lemma_pow10_values()
    ensures
        pow10(8) == 100000000,
        pow10(16) == 10000000000000000,
        pow10(18) == 1000000000000000000,
        pow10(21) == 1000000000000000000000,
        pow10(36) == 1000000000000000000000000000000000000,
{
    reveal_with_fuel(pow10, 40);
}

/// `|x| <= a` and `|y| <= b` bound the product: `|x * y| <= a * b`.
pub proof fn lemma_abs_mul_bound(x: int, y: int, a: int, b: int)
    by (nonlinear_arith)
    requires
        -a <= x <= a,
        -b <= y <= b,
    ensures
        -(a * b) <= x * y <= a * b,
{
}

/// Value equality: `a.m / 10^a.s == b.m / 10^b.s`, cross-multiplied.
pub open spec fn v_eq(a: DecV, b: DecV) -> bool {
    a.m * pow10(b.s) == b.m * pow10(a.s)
}

/// Value order: `a.m / 10^a.s < b.m / 10^b.s`, cross-multiplied.
pub open spec fn v_lt(a: DecV, b: DecV) -> bool {
    a.m * pow10(b.s) < b.m * pow10(a.s)
}

/// Exact product of two decimals.
pub open spec fn v_mul(a: DecV, b: DecV) -> DecV {
    DecV { m: a.m * b.m, s: a.s + b.s }
}

/// Exact sum of two decimals, at the larger of the two scales.
pub open spec fn v_add(a: DecV, b: DecV) -> DecV {
    if a.s >= b.s {
        DecV { m: a.m + b.m * pow10((a.s - b.s) as nat), s: a.s }
    } else {
        DecV { m: a.m * pow10((b.s - a.s) as nat) + b.m, s: b.s }
    }
}

/// Exact result of subtracting one, staying at the same scale.
pub open spec fn v_sub_one(a: DecV) -> DecV {
    DecV { m: a.m - pow10(a.s), s: a.s }
}

/// The decimal denotes zero exactly when its mantissa is zero.
pub open spec fn v_is_zero(a: DecV) -> bool {
    a.m == 0
}

/// A decimal as the parser produces it: at most eight digits of text, so
/// the mantissa is below `10^8` and the scale at most eight.
pub open spec fn small_dec(d: DecV) -> bool {
    &&& -100000000 < d.m < 100000000
    &&& d.s <= 8
}

/// `|value| <= v`: the mantissa is bounded by `v` scaled up to `d`'s scale.
pub open spec fn val_bound(d: DecV, v: int) -> bool {
    &&& d.s <= 16
    &&& -(v * pow10(d.s)) <= d.m <= v * pow10(d.s)
}

/// An exact decimal number with value `mantissa / 10^scale`.
#[derive(Clone, Copy, PartialEq, Eq, Structural, Debug)]
pub struct Dec {
    pub mantissa: i128,
    pub scale: u32,
}

impl View for Dec {
    type V = DecV;

    open spec fn view(&self) -> DecV {
        DecV { m: self.mantissa as int, s: self.scale as nat }
    }
}

/// Transitivity of the value order.
pub proof fn lemma_v_lt_trans(a: DecV, b: DecV, c: DecV)
    requires
        v_lt(a, b),
        v_lt(b, c),
    ensures
        v_lt(a, c),
{
    lemma_pow10_pos(a.s);
    lemma_pow10_pos(b.s);
    lemma_pow10_pos(c.s);
    assert(a.m * pow10(c.s) < c.m * pow10(a.s)) by (nonlinear_arith)
        requires
            a.m * pow10(b.s) < b.m * pow10(a.s),
            b.m * pow10(c.s) < c.m * pow10(b.s),
            pow10(a.s) >= 1,
            pow10(b.s) >= 1,
            pow10(c.s) >= 1,
    ;
}

/// Computes `10^n` exactly.
fn pow10_exec(n: u32) -> (r: i128)
    requires
        n <= 36,
    ensures
        r == pow10(n as nat),
{
    let mut r: i128 = 1;
    let mut i: u32 = 0;
    while i < n
        invariant
            i <= n <= 36,
            r == pow10(i as nat),
        decreases n - i,
    {
        proof {
            lemma_pow10_values();
            lemma_pow10_mono((i + 1) as nat, 36);
            assert(pow10((i + 1) as nat) == 10 * pow10(i as nat));
            lemma_pow10_pos(i as nat);
        }
        r = r * 10;
        i = i + 1;
    }
    r
}

/// Exact product of two parser-sized decimals.
pub fn dec_mul(a: Dec, b: Dec) -> (r: Dec)
    requires
        small_dec(a@),
        small_dec(b@),
    ensures
        r@ == v_mul(a@, b@),
        -10000000000000000 < r@.m < 10000000000000000,
        r@.s <= 16,
{
    proof {
        lemma_abs_mul_bound(a@.m, b@.m, 99999999, 99999999);
    }
    Dec { mantissa: a.mantissa * b.mantissa, scale: a.scale + b.scale }
}

/// Exact value of `a - 1` for a parser-sized decimal.
pub fn dec_sub_one(a: Dec) -> (r: Dec)
    requires
        small_dec(a@),
    ensures
        r@ == v_sub_one(a@),
        -200000000 < r@.m < 200000000,
        r@.s == a@.s,
{
    proof {
        lemma_pow10_values();
        lemma_pow10_mono(a@.s, 8);
        lemma_pow10_pos(a@.s);
    }
    Dec { mantissa: a.mantissa - pow10_exec(a.scale), scale: a.scale }
}

/// Whether the two decimals denote the same value.
pub fn dec_eq_val(a: Dec, b: Dec) -> (r: bool)
    requires
        -1000000000000000000 <= a@.m <= 1000000000000000000,
        -1000000000000000000 <= b@.m <= 1000000000000000000,
        a@.s <= 18,
        b@.s <= 18,
    ensures
        r == v_eq(a@, b@),
{
    proof {
        lemma_pow10_values();
        lemma_pow10_mono(a@.s, 18);
        lemma_pow10_mono(b@.s, 18);
        lemma_pow10_pos(a@.s);
        lemma_pow10_pos(b@.s);
        lemma_abs_mul_bound(a@.m, pow10(b@.s), 1000000000000000000, 1000000000000000000);
        lemma_abs_mul_bound(b@.m, pow10(a@.s), 1000000000000000000, 1000000000000000000);
    }
    let pa = pow10_exec(a.scale);
    let pb = pow10_exec(b.scale);
    a.mantissa * pb == b.mantissa * pa
}

/// Whether `a` denotes a strictly smaller value than `b`.
pub fn dec_lt(a: Dec, b: Dec) -> (r: bool)
    requires
        -1000000000000000000 <= a@.m <= 1000000000000000000,
        -1000000000000000000 <= b@.m <= 1000000000000000000,
        a@.s <= 18,
        b@.s <= 18,
    ensures
        r == v_lt(a@, b@),
{
    proof {
        lemma_pow10_values();
        lemma_pow10_mono(a@.s, 18);
        lemma_pow10_mono(b@.s, 18);
        lemma_pow10_pos(a@.s);
        lemma_pow10_pos(b@.s);
        lemma_abs_mul_bound(a@.m, pow10(b@.s), 1000000000000000000, 1000000000000000000);
        lemma_abs_mul_bound(b@.m, pow10(a@.s), 1000000000000000000, 1000000000000000000);
    }
    let pa = pow10_exec(a.scale);
    let pb = pow10_exec(b.scale);
    a.mantissa * pb < b.mantissa * pa
}

/// Exact sum of two decimals whose values are bounded by `va` and `vb`.
pub fn dec_add(a: Dec, b: Dec, Ghost(va): Ghost<int>, Ghost(vb): Ghost<int>) -> (r: Dec)
    requires
        val_bound(a@, va),
        val_bound(b@, vb),
        0 <= va,
        0 <= vb,
        va + vb <= 1000000000000000000000,
    ensures
        r@ == v_add(a@, b@),
        val_bound(r@, va + vb),
{
    proof {
        lemma_pow10_values();
        lemma_pow10_pos(a@.s);
        lemma_pow10_pos(b@.s);
    }
    if a.scale >= b.scale {
        let f = pow10_exec(a.scale - b.scale);
        proof {
            lemma_pow10_add(b@.s, (a@.s - b@.s) as nat);
            lemma_pow10_mono(a@.s, 16);
            lemma_pow10_pos((a@.s - b@.s) as nat);
            // |b.m * f| <= vb * 10^b.s * 10^(a.s - b.s) = vb * 10^a.s
            lemma_abs_mul_bound(b@.m, pow10((a@.s - b@.s) as nat), vb * pow10(b@.s), pow10(
                (a@.s - b@.s) as nat,
            ));
            assert((vb * pow10(b@.s)) * pow10((a@.s - b@.s) as nat) == vb * pow10(a@.s))
                by (nonlinear_arith)
                requires
                    pow10(b@.s) * pow10((a@.s - b@.s) as nat) == pow10(a@.s),
            ;
            assert(va * pow10(a@.s) + vb * pow10(a@.s) == (va + vb) * pow10(a@.s))
                by (nonlinear_arith);
            assert((va + vb) * pow10(a@.s) <= (va + vb) * pow10(16)) by (nonlinear_arith)
                requires
                    0 <= va + vb,
                    pow10(a@.s) <= pow10(16),
            ;
            assert((va + vb) * pow10(16) <= 1000000000000000000000 * pow10(16))
                by (nonlinear_arith)
                requires
                    va + vb <= 1000000000000000000000,
                    pow10(16) >= 0,
            ;
            lemma_pow10_pos(16);
        }
        Dec { mantissa: a.mantissa + b.mantissa * f, scale: a.scale }
    } else {
        let f = pow10_exec(b.scale - a.scale);
        proof {
            lemma_pow10_add(a@.s, (b@.s - a@.s) as nat);
            lemma_pow10_mono(b@.s, 16);
            lemma_pow10_pos((b@.s - a@.s) as nat);
            lemma_abs_mul_bound(a@.m, pow10((b@.s - a@.s) as nat), va * pow10(a@.s), pow10(
                (b@.s - a@.s) as nat,
            ));
            assert((va * pow10(a@.s)) * pow10((b@.s - a@.s) as nat) == va * pow10(b@.s))
                by (nonlinear_arith)
                requires
                    pow10(a@.s) * pow10((b@.s - a@.s) as nat) == pow10(b@.s),
            ;
            assert(va * pow10(b@.s) + vb * pow10(b@.s) == (va + vb) * pow10(b@.s))
                by (nonlinear_arith);
            assert((va + vb) * pow10(b@.s) <= (va + vb) * pow10(16)) by (nonlinear_arith)
                requires
                    0 <= va + vb,
                    pow10(b@.s) <= pow10(16),
            ;
            assert((va + vb) * pow10(16) <= 1000000000000000000000 * pow10(16))
                by (nonlinear_arith)
                requires
                    va + vb <= 1000000000000000000000,
                    pow10(16) >= 0,
            ;
            lemma_pow10_pos(16);
        }
        Dec { mantissa: a.mantissa * f + b.mantissa, scale: b.scale }
    }
}

/// A decimal digit character.
pub open spec fn is_digit(c: char) -> bool {
    '0' <= c && c <= '9'
}

/// The numeric value of a digit character.
pub open spec fn digit_val(c: char) -> int {
    c as u32 - 48
}

/// How many `'.'` characters the text holds.
pub open spec fn dot_count(s: Seq<char>) -> int
    decreases s.len(),
{
    if s.len() == 0 {
        0
    } else {
        dot_count(s.drop_last()) + if s.last() == '.' { 1int } else { 0int }
    }
}

/// How many digit characters the text holds.
pub open spec fn digit_count(s: Seq<char>) -> int
    decreases s.len(),
{
    if s.len() == 0 {
        0
    } else {
        digit_count(s.drop_last()) + if is_digit(s.last()) { 1int } else { 0int }
    }
}

/// The digits of the text read as one integer, ignoring the dot.
pub open spec fn mantissa_of(s: Seq<char>) -> int
    decreases s.len(),
{
    if s.len() == 0 {
        0
    } else if is_digit(s.last()) {
        mantissa_of(s.drop_last()) * 10 + digit_val(s.last())
    } else {
        mantissa_of(s.drop_last())
    }
}

/// How many digits stand after the dot: the scale of the written number.
pub open spec fn frac_digits(s: Seq<char>) -> int
    decreases s.len(),
{
    if s.len() == 0 {
        0
    } else {
        frac_digits(s.drop_last()) + if is_digit(s.last()) && dot_count(s.drop_last()) >= 1 {
            1int
        } else {
            0int
        }
    }
}

/// Valid unsigned decimal text: only digits and at most one dot, with at
/// least one digit and at most eight (the crate's arithmetic capacity).
pub open spec fn body_ok(s: Seq<char>) -> bool {
    &&& s.len() >= 1
    &&& forall|i: int| 0 <= i < s.len() ==> is_digit(s[i]) || s[i] == '.'
    &&& dot_count(s) <= 1
    &&& 1 <= digit_count(s) <= 8
}

/// The decimal number a piece of text denotes: an optional sign, then
/// digits with at most one dot, as in `-3.83` or `+7` or `.5`.
pub open spec fn dec_of(s: Seq<char>) -> Option<DecV> {
    let signed = s.len() >= 1 && (s[0] == '+' || s[0] == '-');
    let body = if signed {
        s.drop_first()
    } else {
        s
    };
    if body_ok(body) {
        Some(
            DecV {
                m: if s.len() >= 1 && s[0] == '-' {
                    -mantissa_of(body)
                } else {
                    mantissa_of(body)
                },
                s: frac_digits(body) as nat,
            },
        )
    } else {
        None
    }
}

pub proof fn lemma_counts_nonneg(s: Seq<char>)
    ensures
        dot_count(s) >= 0,
        digit_count(s) >= 0,
        0 <= frac_digits(s) <= digit_count(s),
        0 <= mantissa_of(s) < pow10(digit_count(s) as nat),
    decreases s.len(),
{
    if s.len() == 0 {
    } else {
        lemma_counts_nonneg(s.drop_last());
        if is_digit(s.last()) {
            assert(pow10((digit_count(s.drop_last()) + 1) as nat) == 10 * pow10(
                digit_count(s.drop_last()) as nat,
            ));
            assert(0 <= digit_val(s.last()) <= 9);
        }
    }
}

/// Counts over a prefix never exceed the counts over the whole text.
pub proof fn lemma_prefix_counts(s: Seq<char>, k: int)
    requires
        0 <= k <= s.len(),
    ensures
        digit_count(s.take(k)) <= digit_count(s),
        dot_count(s.take(k)) <= dot_count(s),
    decreases s.len(),
{
    if k == s.len() {
        assert(s.take(k) =~= s);
    } else {
        assert(s.take(k) =~= s.drop_last().take(k));
        lemma_prefix_counts(s.drop_last(), k);
    }
}

/// Reads decimal text, as the parser accumulated it, into an exact [`Dec`].
pub fn dec_from_chars(text: &Vec<char>) -> (r: Option<Dec>)
    ensures
        r matches Some(d) ==> dec_of(text@) == Some(d@) && small_dec(d@),
        r is None ==> dec_of(text@) is None,
{
    let n = text.len();
    let signed = n >= 1 && (text[0] == '+' || text[0] == '-');
    let neg = n >= 1 && text[0] == '-';
    let start: usize = if signed {
        1
    } else {
        0
    };
    let ghost body = text@.skip(start as int);
    let mut m: i128 = 0;
    let mut dc: u32 = 0;
    let mut nd: u32 = 0;
    let mut fd: u32 = 0;
    let mut j: usize = start;
    while j < n
        invariant
            start <= j <= n == text@.len(),
            start == 1 <==> signed,
            start == 0 || start == 1,
            signed == (n >= 1 && (text@[0] == '+' || text@[0] == '-')),
            neg == (n >= 1 && text@[0] == '-'),
            body == text@.skip(start as int),
            m == mantissa_of(body.take(j - start)),
            dc == digit_count(body.take(j - start)),
            nd == dot_count(body.take(j - start)),
            fd == frac_digits(body.take(j - start)),
            forall|i: int| 0 <= i < j - start ==> is_digit(body[i]) || body[i] == '.',
            dc <= 8,
            nd <= 1,
            fd <= dc,
            0 <= m < pow10(dc as nat),
        decreases n - j,
    {
        let c = text[j];
        proof {
            if signed {
                assert(body =~= text@.drop_first());
            } else {
                assert(body =~= text@);
            }
            assert(body[j - start] == c);
            assert(body.take(j + 1 - start).drop_last() =~= body.take(j - start));
            assert(body.take(j + 1 - start).last() == c);
            lemma_pow10_values();
            lemma_pow10_mono(dc as nat, 8);
        }
        if '0' <= c && c <= '9' {
            if dc == 8 {
                proof {
                    lemma_prefix_counts(body, j + 1 - start);
                }
                return None;
            }
            proof {
                assert(pow10((dc + 1) as nat) == 10 * pow10(dc as nat));
            }
            m = m * 10 + ((c as u32 - 48) as i128);
            dc = dc + 1;
            if nd >= 1 {
                fd = fd + 1;
            }
        } else if c == '.' {
            if nd == 1 {
                proof {
                    lemma_prefix_counts(body, j + 1 - start);
                }
                return None;
            }
            nd = 1;
        } else {
            return None;
        }
        j = j + 1;
    }
    proof {
        if signed {
            assert(body =~= text@.drop_first());
        } else {
            assert(body =~= text@);
        }
        assert(body.take(j - start) =~= body);
        lemma_pow10_values();
        lemma_pow10_mono(dc as nat, 8);
    }
    if dc == 0 {
        return None;
    }
    let mantissa: i128 = if neg {
        -m
    } else {
        m
    };
    Some(Dec { mantissa, scale: fd })
}

/// The digit character for a value between zero and nine.
pub open spec fn digit_char(n: int) -> char {
    if n == 0 {
        '0'
    } else if n == 1 {
        '1'
    } else if n == 2 {
        '2'
    } else if n == 3 {
        '3'
    } else if n == 4 {
        '4'
    } else if n == 5 {
        '5'
    } else if n == 6 {
        '6'
    } else if n == 7 {
        '7'
    } else if n == 8 {
        '8'
    } else {
        '9'
    }
}

/// The decimal digits of a nonnegative integer, most significant first.
pub open spec fn digits_of(n: int) -> Seq<char>
    decreases n,
    when n >= 0
    via digits_of_decreases
{
    if n <= 9 {
        seq![digit_char(n)]
    } else {
        digits_of(n / 10).push(digit_char(n % 10))
    }
}

#[via_fn]
proof fn digits_of_decreases(n: int) {
    if n > 9 {
        vstd::arithmetic::div_mod::lemma_fundamental_div_mod(n, 10);
        vstd::arithmetic::div_mod::lemma_mod_bound(n, 10);
    }
}

/// Exactly `k` digits of `n` counted from the rightmost, with leading
/// zeros: the fraction part of a decimal written at scale `k`.
pub open spec fn fixed_digits_of(n: int, k: nat) -> Seq<char>
    decreases k,
{
    if k == 0 {
        Seq::empty()
    } else {
        fixed_digits_of(n / 10, (k - 1) as nat).push(digit_char(n % 10))
    }
}

/// The text of a nonnegative decimal: plain digits at scale zero, else
/// the integer digits (none when the value is below one), a dot, and the
/// scale's worth of fraction digits.
pub open spec fn dec_body(d: DecV) -> Seq<char> {
    if d.s == 0 {
        digits_of(d.m)
    } else {
        (if d.m / pow10(d.s) > 0 {
            digits_of(d.m / pow10(d.s))
        } else {
            Seq::empty()
        }) + seq!['.'] + fixed_digits_of(d.m % pow10(d.s), d.s)
    }
}

/// The text of a decimal: a minus sign before the unsigned body.
pub open spec fn render_dec(d: DecV) -> Seq<char> {
    if d.m < 0 {
        seq!['-'] + dec_body(DecV { m: -d.m, s: d.s })
    } else {
        dec_body(d)
    }
}

proof fn lemma_counts_empty()
    ensures
        dot_count(Seq::<char>::empty()) == 0,
        digit_count(Seq::<char>::empty()) == 0,
        frac_digits(Seq::<char>::empty()) == 0,
        mantissa_of(Seq::<char>::empty()) == 0,
{
}

proof fn lemma_single_dot()
    ensures
        dot_count(seq!['.']) == 1,
        digit_count(seq!['.']) == 0,
        mantissa_of(seq!['.']) == 0,
        frac_digits(seq!['.']) == 0,
{
    lemma_counts_empty();
    assert(seq!['.'].drop_last() =~= Seq::<char>::empty());
    assert(seq!['.'].last() == '.');
}

/// Text without a dot has no fraction digits.
proof fn lemma_no_dot_no_frac(x: Seq<char>)
    requires
        dot_count(x) == 0,
    ensures
        frac_digits(x) == 0,
    decreases x.len(),
{
    if x.len() > 0 {
        lemma_counts_nonneg(x.drop_last());
        lemma_no_dot_no_frac(x.drop_last());
    }
}

proof fn lemma_digit_char_val(n: int)
    requires
        0 <= n <= 9,
    ensures
        is_digit(digit_char(n)),
        digit_val(digit_char(n)) == n,
        digit_char(n) != '.',
{
}

proof fn lemma_digits_of_props(n: int)
    requires
        0 <= n,
    ensures
        digits_of(n).len() >= 1,
        forall|i: int| 0 <= i < digits_of(n).len() ==> is_digit(#[trigger] digits_of(n)[i]),
        dot_count(digits_of(n)) == 0,
        digit_count(digits_of(n)) == digits_of(n).len(),
        frac_digits(digits_of(n)) == 0,
        mantissa_of(digits_of(n)) == n,
        n < pow10(digits_of(n).len() as nat),
        digits_of(n).len() > 1 ==> pow10((digits_of(n).len() - 1) as nat) <= n,
    decreases n,
{
    if n <= 9 {
        lemma_digit_char_val(n);
        lemma_counts_empty();
        let s = seq![digit_char(n)];
        assert(s.drop_last() =~= Seq::<char>::empty());
        assert(s.last() == digit_char(n));
        assert(mantissa_of(s) == 0 * 10 + n);
        assert(pow10(0) == 1);
        assert(pow10(1) == 10);
    } else {
        vstd::arithmetic::div_mod::lemma_fundamental_div_mod(n, 10);
        vstd::arithmetic::div_mod::lemma_mod_bound(n, 10);
        let q = n / 10;
        let r = n % 10;
        lemma_digits_of_props(q);
        lemma_digit_char_val(r);
        let front = digits_of(q);
        let s = front.push(digit_char(r));
        assert(s.drop_last() =~= front);
        assert(s.last() == digit_char(r));
        assert(forall|i: int|
            0 <= i < s.len() ==> is_digit(#[trigger] s[i]) || s[i] == '.') by {
            assert(forall|i: int| 0 <= i < front.len() ==> #[trigger] s[i] == front[i]);
        }
        assert(forall|i: int| 0 <= i < s.len() ==> is_digit(#[trigger] s[i])) by {
            assert(forall|i: int| 0 <= i < front.len() ==> #[trigger] s[i] == front[i]);
        }
        assert(mantissa_of(s) == q * 10 + r);
        assert(pow10(s.len() as nat) == 10 * pow10(front.len() as nat));
        assert(n < pow10(s.len() as nat)) by {
            assert(q + 1 <= pow10(front.len() as nat));
            assert(10 * (q + 1) <= 10 * pow10(front.len() as nat));
        }
        assert(pow10((s.len() - 1) as nat) <= n) by {
            lemma_pow10_pos((front.len() - 1) as nat);
            if front.len() > 1 {
                assert(pow10((front.len() - 1) as nat) <= q);
            } else {
                assert(q >= 1);
            }
            assert(pow10((s.len() - 1) as nat) == 10 * pow10((front.len() - 1) as nat));
            assert(10 * pow10((front.len() - 1) as nat) <= 10 * q);
        }
    }
}

proof fn lemma_fixed_digits_props(n: int, k: nat)
    requires
        0 <= n < pow10(k),
    ensures
        fixed_digits_of(n, k).len() == k,
        forall|i: int| 0 <= i < k ==> is_digit(#[trigger] fixed_digits_of(n, k)[i]),
        dot_count(fixed_digits_of(n, k)) == 0,
        digit_count(fixed_digits_of(n, k)) == k,
        mantissa_of(fixed_digits_of(n, k)) == n,
    decreases k,
{
    if k > 0 {
        vstd::arithmetic::div_mod::lemma_fundamental_div_mod(n, 10);
        vstd::arithmetic::div_mod::lemma_mod_bound(n, 10);
        let q = n / 10;
        let r = n % 10;
        assert(q < pow10((k - 1) as nat)) by {
            assert(pow10(k) == 10 * pow10((k - 1) as nat));
            if q >= pow10((k - 1) as nat) {
                assert(10 * q >= 10 * pow10((k - 1) as nat));
            }
        }
        assert(q >= 0) by {
            if q < 0 {
                assert(10 * q <= -10);
            }
        }
        lemma_fixed_digits_props(q, (k - 1) as nat);
        lemma_digit_char_val(r);
        let front = fixed_digits_of(q, (k - 1) as nat);
        let s = front.push(digit_char(r));
        assert(s.drop_last() =~= front);
        assert(s.last() == digit_char(r));
        assert(forall|i: int| 0 <= i < s.len() ==> is_digit(#[trigger] s[i])) by {
            assert(forall|i: int| 0 <= i < front.len() ==> #[trigger] s[i] == front[i]);
        }
        assert(mantissa_of(s) == q * 10 + r);
    }
}

/// Reading a concatenation: the dot is ignored by the mantissa, digits
/// accumulate positionally.
proof fn lemma_counts_concat(x: Seq<char>, y: Seq<char>)
    ensures
        dot_count(x + y) == dot_count(x) + dot_count(y),
        digit_count(x + y) == digit_count(x) + digit_count(y),
        mantissa_of(x + y) == mantissa_of(x) * pow10(digit_count(y) as nat) + mantissa_of(y),
        dot_count(x) == 0 ==> frac_digits(x + y) == frac_digits(y),
    decreases y.len(),
{
    lemma_counts_nonneg(x);
    lemma_counts_nonneg(y);
    if y.len() == 0 {
        assert(x + y =~= x);
        lemma_counts_empty();
        assert(mantissa_of(x) * pow10(0) == mantissa_of(x) * 1);
        if dot_count(x) == 0 {
            lemma_no_dot_no_frac(x);
        }
    } else {
        let yf = y.drop_last();
        let c = y.last();
        lemma_counts_concat(x, yf);
        lemma_counts_nonneg(yf);
        assert((x + y).drop_last() =~= x + yf);
        assert((x + y).last() == c);
        if is_digit(c) {
            assert(pow10(digit_count(y) as nat) == 10 * pow10(digit_count(yf) as nat));
            assert(mantissa_of(x + y) == mantissa_of(x + yf) * 10 + digit_val(c));
            assert((mantissa_of(x) * pow10(digit_count(yf) as nat) + mantissa_of(yf)) * 10
                == mantissa_of(x) * (10 * pow10(digit_count(yf) as nat)) + mantissa_of(yf) * 10)
                by (nonlinear_arith);
        }
        if dot_count(x) == 0 {
            assert(dot_count(x + yf) == dot_count(yf));
        }
    }
}

pub proof fn lemma_dec_body_props(d: DecV)
    requires
        small_dec(d),
        d.m >= 0,
    ensures
        body_ok(dec_body(d)),
        mantissa_of(dec_body(d)) == d.m,
        frac_digits(dec_body(d)) == d.s,
        dec_body(d).len() >= 1,
        dec_body(d)[0] != '+' && dec_body(d)[0] != '-',
{
    lemma_pow10_values();
    if d.s == 0 {
        lemma_digits_of_props(d.m);
        if digits_of(d.m).len() > 8 {
            lemma_pow10_mono(8, (digits_of(d.m).len() - 1) as nat);
            assert(false);
        }
        assert(digit_count(dec_body(d)) <= 8);
        assert(is_digit(dec_body(d)[0]));
    } else {
        lemma_pow10_pos(d.s);
        vstd::arithmetic::div_mod::lemma_fundamental_div_mod(d.m, pow10(d.s));
        vstd::arithmetic::div_mod::lemma_mod_bound(d.m, pow10(d.s));
        let ip = d.m / pow10(d.s);
        let fp = d.m % pow10(d.s);
        let ipart = if ip > 0 {
            digits_of(ip)
        } else {
            Seq::<char>::empty()
        };
        let fpart = fixed_digits_of(fp, d.s);
        lemma_fixed_digits_props(fp, d.s);
        assert(ip >= 0) by {
            if ip < 0 {
                assert(pow10(d.s) * ip <= pow10(d.s) * -1) by (nonlinear_arith)
                    requires
                        ip <= -1,
                        pow10(d.s) >= 1,
                ;
            }
        }
        // The integer part fits in the remaining digit budget.
        assert(ip < pow10((8 - d.s) as nat)) by {
            lemma_pow10_add((8 - d.s) as nat, d.s);
            if ip >= pow10((8 - d.s) as nat) {
                assert(pow10(d.s) * ip >= pow10(d.s) * pow10((8 - d.s) as nat))
                    by (nonlinear_arith)
                    requires
                        ip >= pow10((8 - d.s) as nat),
                        pow10(d.s) >= 1,
                ;
            }
        }
        if ip > 0 {
            lemma_digits_of_props(ip);
            if digits_of(ip).len() > (8 - d.s) {
                lemma_pow10_mono((8 - d.s) as nat, (digits_of(ip).len() - 1) as nat);
            }
            assert(digits_of(ip).len() <= 8 - d.s);
        }
        let head = ipart + seq!['.'];
        lemma_counts_concat(ipart, seq!['.']);
        lemma_single_dot();
        if ip > 0 {
            assert(mantissa_of(head) == mantissa_of(ipart) * pow10(0) + 0);
            assert(mantissa_of(ipart) * 1 == mantissa_of(ipart));
        } else {
            assert(head =~= seq!['.']);
        }
        lemma_counts_concat(head, fpart);
        assert(dec_body(d) == head + fpart);
        assert(mantissa_of(head) == ip);
        assert(mantissa_of(dec_body(d)) == ip * pow10(d.s) + fp);
        assert(ip * pow10(d.s) == pow10(d.s) * ip) by (nonlinear_arith);
        // Character classes for the whole body.
        assert(forall|i: int|
            0 <= i < dec_body(d).len() ==> is_digit(#[trigger] dec_body(d)[i]) || dec_body(d)[i]
                == '.') by {
            assert(forall|i: int|
                0 <= i < ipart.len() ==> #[trigger] dec_body(d)[i] == ipart[i]);
            assert(dec_body(d)[ipart.len() as int] == '.');
            assert(forall|i: int|
                0 <= i < fpart.len() ==> #[trigger] dec_body(d)[ipart.len() + 1 + i] == fpart[i]);
            assert(forall|i: int|
                ipart.len() + 1 <= i < dec_body(d).len() ==> #[trigger] dec_body(d)[i] == fpart[i
                    - ipart.len() - 1]);
        }
        // The fraction digits stand after the single dot.
        assert(dot_count(head) == 1);
        assert(frac_digits(head) == 0);
        assert(frac_digits(dec_body(d)) == d.s) by {
            lemma_frac_after_dot(head, fpart);
        }
        assert(dec_body(d)[0] == head[0]);
        if ip > 0 {
            assert(head[0] == ipart[0]);
            assert(is_digit(dec_body(d)[0]));
        } else {
            assert(dec_body(d)[0] == '.');
        }
    }
}

/// Every digit after text that ends in the only dot counts as a fraction
/// digit.
proof fn lemma_frac_after_dot(head: Seq<char>, fpart: Seq<char>)
    requires
        dot_count(head) >= 1,
        forall|i: int| 0 <= i < fpart.len() ==> is_digit(#[trigger] fpart[i]),
        frac_digits(head) == 0,
    ensures
        frac_digits(head + fpart) == fpart.len(),
    decreases fpart.len(),
{
    if fpart.len() == 0 {
        assert(head + fpart =~= head);
    } else {
        let yf = fpart.drop_last();
        let c = fpart.last();
        assert(forall|i: int| 0 <= i < yf.len() ==> #[trigger] yf[i] == fpart[i]);
        lemma_frac_after_dot(head, yf);
        lemma_counts_concat(head, yf);
        lemma_counts_nonneg(head);
        lemma_counts_nonneg(yf);
        assert((head + fpart).drop_last() =~= head + yf);
        assert((head + fpart).last() == c);
        assert(dot_count(head + yf) >= 1);
    }
}

/// A plus sign before an unsigned decimal body reads as the same value.
pub proof fn lemma_plus_body_round_trip(d: DecV)
    requires
        small_dec(d),
        d.m >= 0,
    ensures
        dec_of(seq!['+'] + dec_body(d)) == Some(d),
{
    lemma_dec_body_props(d);
    let s = seq!['+'] + dec_body(d);
    assert(s[0] == '+');
    assert(s.drop_first() =~= dec_body(d));
}

/// Round trip at the number level: the rendering of a parser-sized
/// decimal reads back as exactly that decimal.
pub proof fn lemma_render_dec_round_trip(d: DecV)
    requires
        small_dec(d),
    ensures
        dec_of(render_dec(d)) == Some(d),
{
    if d.m < 0 {
        let pos = DecV { m: -d.m, s: d.s };
        lemma_dec_body_props(pos);
        let body = dec_body(pos);
        let s = seq!['-'] + body;
        assert(s[0] == '-');
        assert(s.drop_first() =~= body);
        assert(dec_of(s) == Some(DecV { m: -mantissa_of(body), s: frac_digits(body) as nat }));
    } else {
        lemma_dec_body_props(d);
        let body = dec_body(d);
        assert(render_dec(d) == body);
        assert(body[0] != '+' && body[0] != '-');
        assert(dec_of(body) == Some(DecV { m: mantissa_of(body), s: frac_digits(body) as nat }));
    }
}

} // verus!
