//! Decimal text encoding of fixed-point values.
//!
//! A value renders as `"<integer>.<fraction>"` with trailing fractional
//! zeros trimmed, the fraction omitted when zero, and a leading minus sign
//! below zero.  Parsing accepts an optional minus sign, a digit run, and an
//! optional dot-separated digit run, truncating fractional digits beyond
//! the precision; every value the encoder produces parses back exactly.

use vstd::prelude::*;

use crate::arith::{in_i128, lemma_pow10_pos, pow10};
use crate::fixed_decimal::{FixedDecimal, FixedPrecision};

verus! {

pub open spec fn is_digit(c: char) -> bool {
    48 <= c as int <= 57
}

pub open spec fn digit_val(c: char) -> int {
    c as int - 48
}

pub open spec fn digit_char(d: int) -> char {
    (d + 48) as char
}

/// The decimal digit string of a natural number, most significant first.
pub open spec fn dec_digits(n: nat) -> Seq<char>
    decreases n,
{
    if n < 10 {
        seq![digit_char(n as int)]
    } else {
        dec_digits(n / 10).push(digit_char((n % 10) as int))
    }
}

/// The numeric value of a digit string.
pub open spec fn digits_val(s: Seq<char>) -> int
    decreases s.len(),
{
    if s.len() == 0 {
        0
    } else {
        digits_val(s.drop_last()) * 10 + digit_val(s.last())
    }
}

pub open spec fn all_digits(s: Seq<char>) -> bool {
    forall|i: int| 0 <= i < s.len() ==> is_digit(#[trigger] s[i])
}

pub open spec fn zeros(n: nat) -> Seq<char> {
    Seq::new(n, |i: int| '0')
}

/// The digit string with its trailing zeros removed.
pub open spec fn trim_zeros(s: Seq<char>) -> Seq<char>
    decreases s.len(),
{
    if s.len() > 0 && s.last() == '0' {
        trim_zeros(s.drop_last())
    } else {
        s
    }
}

/// Digit characters decode to their digit.
pub proof fn lemma_digit_char_val(d: int)
    requires
        0 <= d < 10,
    ensures
        is_digit(digit_char(d)),
        digit_val(digit_char(d)) == d,
{
}

/// The digit string of a natural number is nonempty, all digits, and
/// decodes back to the number.
pub proof fn lemma_dec_digits_val(n: nat)
    ensures
        dec_digits(n).len() >= 1,
        all_digits(dec_digits(n)),
        digits_val(dec_digits(n)) == n,
    decreases n,
{
    if n < 10 {
        lemma_digit_char_val(n as int);
        let s = dec_digits(n);
        assert(s =~= seq![digit_char(n as int)]);
        assert(s.drop_last() =~= Seq::<char>::empty());
        assert(digits_val(s) == digits_val(s.drop_last()) * 10 + digit_val(s.last()));
        assert(digits_val(s.drop_last()) == 0);
        assert(s.last() == digit_char(n as int));
    } else {
        lemma_dec_digits_val(n / 10);
        lemma_digit_char_val((n % 10) as int);
        vstd::arithmetic::div_mod::lemma_fundamental_div_mod(n as int, 10);
        let s = dec_digits(n);
        assert(s == dec_digits(n / 10).push(digit_char((n % 10) as int)));
        assert(s.drop_last() =~= dec_digits(n / 10));
        assert(s.last() == digit_char((n % 10) as int));
        assert(digits_val(s) == digits_val(s.drop_last()) * 10 + digit_val(s.last()));
    }
}

/// A number below `10^k` has at most `k` digits.
pub proof fn lemma_dec_digits_len(n: nat, k: nat)
    requires
        k >= 1,
        n < pow10(k),
    ensures
        dec_digits(n).len() <= k,
    decreases n,
{
    if n < 10 {
    } else {
        assert(k >= 2) by {
            if k < 2 {
                reveal_with_fuel(pow10, 3);
            }
        };
        assert(n / 10 < pow10((k - 1) as nat)) by {
            vstd::arithmetic::div_mod::lemma_div_is_ordered(n as int, pow10(k) - 1, 10);
            vstd::arithmetic::div_mod::lemma_fundamental_div_mod_converse(
                pow10(k) - 1,
                10,
                pow10((k - 1) as nat) - 1,
                9,
            );
        };
        lemma_dec_digits_len(n / 10, (k - 1) as nat);
    }
}

/// Leading zeros do not change a digit string's value.
pub proof fn lemma_digits_val_leading_zeros(z: nat, t: Seq<char>)
    ensures
        digits_val(zeros(z) + t) == digits_val(t),
    decreases t.len(),
{
    if t.len() == 0 {
        assert(zeros(z) + t =~= zeros(z));
        lemma_digits_val_zeros(z);
    } else {
        assert((zeros(z) + t).drop_last() =~= zeros(z) + t.drop_last());
        assert((zeros(z) + t).last() == t.last());
        lemma_digits_val_leading_zeros(z, t.drop_last());
    }
}

/// A run of zeros has value zero.
pub proof fn lemma_digits_val_zeros(z: nat)
    ensures
        digits_val(zeros(z)) == 0,
    decreases z,
{
    if z > 0 {
        assert(zeros(z).drop_last() =~= zeros((z - 1) as nat));
        assert(zeros(z).last() == '0');
        lemma_digits_val_zeros((z - 1) as nat);
    }
}

/// A run of zeros trims to nothing.
pub proof fn lemma_trim_zeros_all(z: nat)
    ensures
        trim_zeros(zeros(z)) =~= Seq::<char>::empty(),
    decreases z,
{
    if z > 0 {
        assert(zeros(z).last() == '0');
        assert(zeros(z).drop_last() =~= zeros((z - 1) as nat));
        lemma_trim_zeros_all((z - 1) as nat);
    }
}

/// Trimming distributes over a prefix as long as the suffix does not trim
/// away completely.
pub proof fn lemma_trim_zeros_prefix(p: Seq<char>, u: Seq<char>)
    requires
        trim_zeros(u).len() > 0,
    ensures
        trim_zeros(p + u) =~= p + trim_zeros(u),
    decreases u.len(),
{
    if u.len() > 0 && u.last() == '0' {
        assert((p + u).last() == u.last());
        assert((p + u).drop_last() =~= p + u.drop_last());
        lemma_trim_zeros_prefix(p, u.drop_last());
    } else {
        assert(u.len() > 0);
    }
}

/// Appending a zero digit is what multiplying by ten does to the digit
/// string.
pub proof fn lemma_dec_digits_times_ten(m: nat)
    requires
        m >= 1,
    ensures
        dec_digits(m * 10) =~= dec_digits(m).push('0'),
{
    assert(m * 10 >= 10) by (nonlinear_arith)
        requires
            m >= 1,
    ;
    assert((m * 10) / 10 == m) by {
        vstd::arithmetic::div_mod::lemma_div_multiples_vanish(m as int, 10);
        assert(m * 10 == 10 * m) by (nonlinear_arith);
    };
    assert((m * 10) % 10 == 0) by {
        vstd::arithmetic::div_mod::lemma_mod_multiples_basic(m as int, 10);
        assert(m * 10 == 10 * m) by (nonlinear_arith);
    };
    assert(digit_char(0) == '0');
}

/// The digit string of a number not divisible by ten ends in a nonzero
/// digit, so trimming changes nothing.
pub proof fn lemma_trim_zeros_nondivisible(m: nat)
    requires
        m % 10 != 0 || m == 0,
        m >= 1,
    ensures
        trim_zeros(dec_digits(m)) =~= dec_digits(m),
{
    if m < 10 {
        assert(dec_digits(m).last() == digit_char(m as int));
        vstd::arithmetic::div_mod::lemma_small_mod(m, 10);
        assert(digit_char(m as int) != '0');
    } else {
        assert(dec_digits(m).last() == digit_char((m % 10) as int));
        assert(digit_char((m % 10) as int) != '0');
    }
}

/// Appends one digit character to a string.
fn push_digit(out: &mut String, d: u8)
    requires
        d < 10,
    ensures
        final(out)@ == old(out)@ + seq![digit_char(d as int)],
{
    let ghost pre = out@;
    match d {
        0 => out.append("0"),
        1 => out.append("1"),
        2 => out.append("2"),
        3 => out.append("3"),
        4 => out.append("4"),
        5 => out.append("5"),
        6 => out.append("6"),
        7 => out.append("7"),
        8 => out.append("8"),
        9 => out.append("9"),
        _ => out.append("0"),
    }
    proof {
        reveal_strlit("0");
        reveal_strlit("1");
        reveal_strlit("2");
        reveal_strlit("3");
        reveal_strlit("4");
        reveal_strlit("5");
        reveal_strlit("6");
        reveal_strlit("7");
        reveal_strlit("8");
        reveal_strlit("9");
        assert(out@ =~= pre + seq![digit_char(d as int)]);
    }
}

/// Appends the decimal digit string of `n`.
fn push_dec_digits(out: &mut String, n: u128)
    ensures
        final(out)@ == old(out)@ + dec_digits(n as nat),
    decreases n,
{
    if n >= 10 {
        push_dec_digits(out, n / 10);
    }
    push_digit(out, (n % 10) as u8);
    proof {
        if n >= 10 {
            assert(out@ =~= old(out)@ + dec_digits(n as nat));
        } else {
            assert(out@ =~= old(out)@ + dec_digits(n as nat));
        }
    }
}

/// The number of digits in the decimal string of `n`.
fn dec_len(n: u128) -> (l: u32)
    ensures
        l == dec_digits(n as nat).len(),
        1 <= l <= 39,
    decreases n,
{
    proof {
        assert(pow10(39) > u128::MAX) by {
            reveal_with_fuel(pow10, 41);
        };
        lemma_dec_digits_len(n as nat, 39);
    }
    if n < 10 {
        1
    } else {
        1 + dec_len(n / 10)
    }
}

/// The fractional digit string of a value: the fractional raw part padded
/// on the left to the precision's width, trailing zeros trimmed.
pub open spec fn spec_frac_seq<T: FixedPrecision>(fp: nat) -> Seq<char> {
    let p = T::PRECISION as nat;
    if dec_digits(fp).len() <= p {
        trim_zeros(zeros((p - dec_digits(fp).len()) as nat) + dec_digits(fp))
    } else {
        trim_zeros(dec_digits(fp))
    }
}

/// The canonical decimal rendering of a raw value: an optional minus sign,
/// the integer part's digits, and the trimmed fractional digits behind a
/// dot when any remain.
pub open spec fn spec_to_string<T: FixedPrecision>(raw: int) -> Seq<char> {
    let s = FixedDecimal::<T>::spec_scale();
    let mag = if raw >= 0 { raw } else { -raw };
    let sign: Seq<char> = if raw < 0 { seq!['-'] } else { Seq::<char>::empty() };
    let fr = spec_frac_seq::<T>((mag % s) as nat);
    if fr.len() == 0 {
        sign + dec_digits((mag / s) as nat)
    } else {
        sign + dec_digits((mag / s) as nat) + seq!['.'] + fr
    }
}

impl<T: FixedPrecision> FixedDecimal<T> {
    /// Renders the value as decimal text: integer part, then the
    /// fractional digits with trailing zeros trimmed, the dot omitted when
    /// nothing remains, and a leading minus sign below zero.
    pub fn to_string(&self) -> (r: String)
        requires
            Self::precision_ok(),
            self@ != i128::MIN,
        ensures
            r@ == spec_to_string::<T>(self@),
    {
        proof {
            lemma_pow10_pos(T::PRECISION as nat);
        }
        let s = Self::scale();
        let raw = self.to_raw();
        let mag: i128 = if raw < 0 {
            -raw
        } else {
            raw
        };
        let ip: i128 = mag / s;
        let fp: i128 = mag % s;
        proof {
            vstd::arithmetic::div_mod::lemma_mod_bound(mag as int, s as int);
            vstd::arithmetic::div_mod::lemma_div_pos_is_pos(mag as int, s as int);
        }
        let mut out = String::new();
        if raw < 0 {
            out.append("-");
        }
        let ghost head = out@;
        proof {
            reveal_strlit("-");
            if raw < 0 {
                assert(head =~= seq!['-']);
            } else {
                assert(head =~= Seq::<char>::empty());
            }
        }
        push_dec_digits(&mut out, ip as u128);
        if fp == 0 {
            proof {
                lemma_dec_digits_val(0);
                assert(dec_digits(0) =~= seq!['0']);
                assert(zeros(1) =~= seq!['0']);
                if T::PRECISION >= 1 {
                    let z = (T::PRECISION - 1) as nat;
                    assert(zeros(z) + dec_digits(0) =~= zeros(T::PRECISION as nat));
                    lemma_trim_zeros_all(T::PRECISION as nat);
                } else {
                    reveal_with_fuel(trim_zeros, 3);
                    assert(seq!['0'].last() == '0');
                    assert(seq!['0'].drop_last() =~= Seq::<char>::empty());
                    assert(trim_zeros(dec_digits(0)) =~= Seq::<char>::empty());
                }
                assert(spec_frac_seq::<T>(0) =~= Seq::<char>::empty());
                assert(out@ =~= spec_to_string::<T>(self@));
            }
            return out;
        }
        proof {
            assert(T::PRECISION >= 1) by {
                if T::PRECISION == 0 {
                    reveal_with_fuel(pow10, 2);
                }
            };
            lemma_dec_digits_len(fp as nat, T::PRECISION as nat);
        }
        out.append(".");
        let ghost mid = out@;
        proof {
            reveal_strlit(".");
            assert(mid =~= head + dec_digits(ip as nat) + seq!['.']);
        }
        let dl = dec_len(fp as u128);
        let z = T::PRECISION - dl;
        let mut j: u32 = 0;
        while j < z
            invariant
                0 <= j <= z,
                out@ == mid + zeros(j as nat),
            decreases z - j,
        {
            out.append("0");
            proof {
                reveal_strlit("0");
                assert(zeros((j + 1) as nat) =~= zeros(j as nat) + seq!['0']);
                assert(out@ =~= mid + zeros((j + 1) as nat));
            }
            j = j + 1;
        }
        let mut f = fp;
        proof {
            assert(trim_zeros(dec_digits(fp as nat)) =~= trim_zeros(dec_digits(f as nat)));
        }
        while f % 10 == 0
            invariant
                1 <= f,
                f <= fp,
                trim_zeros(dec_digits(fp as nat)) =~= trim_zeros(dec_digits(f as nat)),
            decreases f,
        {
            proof {
                vstd::arithmetic::div_mod::lemma_fundamental_div_mod(f as int, 10);
                vstd::arithmetic::div_mod::lemma_div_pos_is_pos(f as int, 10);
                let q = (f as int) / 10;
                assert(f == q * 10) by (nonlinear_arith)
                    requires
                        f == 10 * q + f % 10,
                        f % 10 == 0,
                ;
                assert(q >= 1);
                lemma_dec_digits_times_ten(q as nat);
                assert(dec_digits((f as nat)) =~= dec_digits(q as nat).push('0'));
                assert(dec_digits(q as nat).push('0').drop_last() =~= dec_digits(q as nat));
                assert(trim_zeros(dec_digits(f as nat)) =~= trim_zeros(dec_digits(q as nat)));
            }
            f = f / 10;
        }
        push_dec_digits(&mut out, f as u128);
        proof {
            lemma_trim_zeros_nondivisible(f as nat);
            lemma_dec_digits_val(f as nat);
            assert(trim_zeros(dec_digits(fp as nat)) =~= dec_digits(f as nat));
            lemma_trim_zeros_prefix(
                zeros((T::PRECISION as nat - dec_digits(fp as nat).len()) as nat),
                dec_digits(fp as nat),
            );
            assert(spec_frac_seq::<T>(fp as nat) =~= zeros(
                (T::PRECISION as nat - dec_digits(fp as nat).len()) as nat,
            ) + dec_digits(f as nat));
            assert(dec_digits(fp as nat).len() == dl);
            assert(out@ =~= mid + zeros(z as nat) + dec_digits(f as nat));
            assert(out@ =~= spec_to_string::<T>(self@));
        }
        out
    }
}

/// Whether the text begins with a minus sign.
pub open spec fn p_is_neg(s: Seq<char>) -> bool {
    s.len() > 0 && s[0] == '-'
}

/// The text with any leading minus sign removed.
pub open spec fn p_body(s: Seq<char>) -> Seq<char> {
    if p_is_neg(s) {
        s.skip(1)
    } else {
        s
    }
}

/// The index of the first dot, or the length when there is none.
pub open spec fn dot_pos(s: Seq<char>) -> int
    decreases s.len(),
{
    if s.len() == 0 {
        0
    } else if s[0] == '.' {
        0
    } else {
        1 + dot_pos(s.skip(1))
    }
}

/// The integer-part digit run.
pub open spec fn p_int(s: Seq<char>) -> Seq<char> {
    p_body(s).take(dot_pos(p_body(s)))
}

/// Whether a dot-separated fractional part is present.
pub open spec fn p_has_frac(s: Seq<char>) -> bool {
    dot_pos(p_body(s)) < p_body(s).len()
}

/// The fractional-part digit run behind the dot.
pub open spec fn p_frac(s: Seq<char>) -> Seq<char> {
    p_body(s).skip(dot_pos(p_body(s)) + 1)
}

/// A nonempty all-digit integer part.
pub open spec fn p_int_valid(s: Seq<char>) -> bool {
    p_int(s).len() >= 1 && all_digits(p_int(s))
}

/// A fractional part, when present, that is nonempty and all digits.
pub open spec fn p_frac_valid(s: Seq<char>) -> bool {
    !p_has_frac(s) || (p_frac(s).len() >= 1 && all_digits(p_frac(s)))
}

/// The fractional digits that survive truncation to the precision.
pub open spec fn p_frac_trunc<T: FixedPrecision>(s: Seq<char>) -> Seq<char> {
    let f = p_frac(s);
    if f.len() <= T::PRECISION {
        f
    } else {
        f.take(T::PRECISION as int)
    }
}

/// The parsed magnitude: the integer part scaled up, plus the truncated
/// fractional digits scaled out to the full precision.
pub open spec fn p_mag<T: FixedPrecision>(s: Seq<char>) -> int {
    let ft = p_frac_trunc::<T>(s);
    let fpv = if p_has_frac(s) {
        digits_val(ft) * pow10((T::PRECISION as nat - ft.len()) as nat)
    } else {
        0
    };
    digits_val(p_int(s)) * FixedDecimal::<T>::spec_scale() + fpv
}

/// The parsed value, sign applied.
pub open spec fn p_value<T: FixedPrecision>(s: Seq<char>) -> int {
    if p_is_neg(s) {
        -p_mag::<T>(s)
    } else {
        p_mag::<T>(s)
    }
}

/// `dot_pos` is the first index holding a dot.
pub proof fn lemma_dot_pos_char(s: Seq<char>, k: int)
    requires
        0 <= k <= s.len(),
        forall|j: int| 0 <= j < k ==> s[j] != '.',
        k < s.len() ==> s[k] == '.',
    ensures
        dot_pos(s) == k,
    decreases s.len(),
{
    if s.len() == 0 {
    } else if s[0] == '.' {
        assert(k == 0);
    } else {
        assert(k >= 1);
        assert(forall|j: int| 0 <= j < k - 1 ==> s.skip(1)[j] == #[trigger] s[j + 1]);
        lemma_dot_pos_char(s.skip(1), k - 1);
    }
}

/// One accumulation step of left-to-right digit parsing.
pub proof fn lemma_digits_val_take_step(s: Seq<char>, j: int)
    requires
        0 <= j < s.len(),
    ensures
        digits_val(s.take(j + 1)) == digits_val(s.take(j)) * 10 + digit_val(s[j]),
{
    assert(s.take(j + 1).drop_last() =~= s.take(j));
    assert(s.take(j + 1).last() == s[j]);
}

/// The digit of a character, when it is one.
fn digit_of(c: char) -> (r: Option<u8>)
    ensures
        is_digit(c) ==> r == Some(digit_val(c) as u8),
        !is_digit(c) ==> r == None::<u8>,
        r matches Some(d) ==> d < 10,
{
    if c == '0' {
        Some(0)
    } else if c == '1' {
        Some(1)
    } else if c == '2' {
        Some(2)
    } else if c == '3' {
        Some(3)
    } else if c == '4' {
        Some(4)
    } else if c == '5' {
        Some(5)
    } else if c == '6' {
        Some(6)
    } else if c == '7' {
        Some(7)
    } else if c == '8' {
        Some(8)
    } else if c == '9' {
        Some(9)
    } else {
        None
    }
}

impl<T: FixedPrecision> FixedDecimal<T> {
    /// Parses decimal text: an optional minus sign, an integer digit run,
    /// and an optional dot-separated fractional digit run.  Fractional
    /// digits beyond the precision are truncated, not rounded; a magnitude
    /// beyond the representable range is an error, never a wraparound.
    #[verifier::rlimit(60)]
    pub fn from_str(x: &str) -> (r: Result<Self, &'static str>)
        requires
            Self::precision_ok(),
        ensures
            !p_int_valid(x@) ==> (r matches Err(m) && m@ == "Invalid integer part"@),
            p_int_valid(x@) && !p_frac_valid(x@) ==> (r matches Err(m) && m@
                == "Invalid decimal part"@),
            p_int_valid(x@) && p_frac_valid(x@) && p_mag::<T>(x@) > i128::MAX ==> (r matches Err(m)
                && m@ == "value out of range"@),
            p_int_valid(x@) && p_frac_valid(x@) && p_mag::<T>(x@) <= i128::MAX ==> (r matches Ok(v)
                && v@ == p_value::<T>(x@)),
    {
        proof {
            lemma_pow10_pos(T::PRECISION as nat);
            crate::arith::lemma_pow10_mono(T::PRECISION as nat, 38);
            crate::arith::lemma_pow10_38();
        }
        let scale = Self::scale();
        let n = x.unicode_len();
        let is_negative = n > 0 && x.get_char(0) == '-';
        let start: usize = if is_negative {
            1
        } else {
            0
        };
        let ghost b = p_body(x@);
        proof {
            assert(b =~= x@.skip(start as int));
        }
        let mut i: usize = start;
        let mut found = false;
        while i < n && !found
            invariant
                start <= i <= n,
                n == x@.len(),
                forall|j: int| start <= j < i ==> x@[j] != '.',
                found ==> i < n && x@[i as int] == '.',
            decreases n - i, (if found { 0int } else { 1int }),
        {
            if x.get_char(i) == '.' {
                found = true;
            } else {
                i = i + 1;
            }
        }
        let dot = i;
        proof {
            assert(forall|j: int| 0 <= j < dot - start ==> b[j] == #[trigger] x@[j + start]);
            lemma_dot_pos_char(b, dot as int - start as int);
        }
        let ghost ip = p_int(x@);
        proof {
            assert(ip =~= b.take(dot as int - start as int));
        }
        if dot == start {
            proof {
                assert(ip.len() == 0);
            }
            return Err("Invalid integer part");
        }
        let mut acc: i128 = 0;
        let mut over = false;
        let mut j: usize = start;
        while j < dot
            invariant
                start <= j <= dot <= n,
                n == x@.len(),
                b =~= p_body(x@),
                ip =~= p_int(x@),
                ip.len() == dot - start,
                forall|j2: int| 0 <= j2 < ip.len() ==> #[trigger] ip[j2] == x@[j2 + start],
                all_digits(ip.take(j as int - start as int)),
                acc >= 0,
                !over ==> acc as int == digits_val(ip.take(j as int - start as int)),
                over ==> digits_val(ip.take(j as int - start as int)) > i128::MAX,
            decreases dot - j,
        {
            let c = x.get_char(j);
            proof {
                assert(ip[j as int - start as int] == c);
            }
            match digit_of(c) {
                None => {
                    proof {
                        assert(!is_digit(ip[j as int - start as int]));
                    }
                    return Err("Invalid integer part");
                },
                Some(d) => {
                    let ghost pre = digits_val(ip.take(j as int - start as int));
                    proof {
                        lemma_digits_val_take_step(ip, j as int - start as int);
                        assert(all_digits(ip.take(j as int + 1 - start as int))) by {
                            assert(forall|j2: int|
                                0 <= j2 < j as int + 1 - start as int ==> ip.take(
                                    j as int + 1 - start as int,
                                )[j2] == #[trigger] ip[j2]);
                        };
                    }
                    if !over {
                        match acc.checked_mul(10) {
                            Some(t) => {
                                match t.checked_add(d as i128) {
                                    Some(v) => {
                                        acc = v;
                                    },
                                    None => {
                                        over = true;
                                    },
                                }
                            },
                            None => {
                                over = true;
                            },
                        }
                        proof {
                            if over {
                                assert(pre * 10 + digit_val(ip[j as int - start as int])
                                    > i128::MAX);
                            }
                        }
                    } else {
                        proof {
                            assert(pre * 10 + digit_val(ip[j as int - start as int]) > i128::MAX)
                                by (nonlinear_arith)
                                requires
                                    pre > i128::MAX,
                                    digit_val(ip[j as int - start as int]) >= 0,
                            ;
                        }
                    }
                    j = j + 1;
                },
            }
        }
        proof {
            assert(ip.take(ip.len() as int) =~= ip);
            assert(p_int_valid(x@));
        }
        let mut fv: i128 = 0;
        let ghost ft = p_frac_trunc::<T>(x@);
        if dot < n {
            proof {
                assert(p_has_frac(x@));
            }
            let ghost fr = p_frac(x@);
            proof {
                assert(fr =~= x@.skip(dot as int + 1));
                assert(forall|j2: int|
                    0 <= j2 < fr.len() ==> #[trigger] fr[j2] == x@[j2 + dot + 1]);
            }
            if dot + 1 == n {
                proof {
                    assert(fr.len() == 0);
                }
                return Err("Invalid decimal part");
            }
            let mut k: usize = dot + 1;
            while k < n
                invariant
                    dot + 1 <= k <= n,
                    n == x@.len(),
                    fr =~= p_frac(x@),
                    fr.len() == n - dot - 1,
                    p_int_valid(x@),
                    p_has_frac(x@),
                    forall|j2: int| 0 <= j2 < fr.len() ==> #[trigger] fr[j2] == x@[j2 + dot + 1],
                    all_digits(fr.take(k as int - dot as int - 1)),
                decreases n - k,
            {
                let c = x.get_char(k);
                proof {
                    assert(fr[k as int - dot as int - 1] == c);
                }
                match digit_of(c) {
                    None => {
                        proof {
                            assert(!is_digit(fr[k as int - dot as int - 1]));
                        }
                        return Err("Invalid decimal part");
                    },
                    Some(_) => {
                        proof {
                            assert(all_digits(fr.take(k as int - dot as int))) by {
                                assert(forall|j2: int|
                                    0 <= j2 < k as int - dot as int ==> fr.take(
                                        k as int - dot as int,
                                    )[j2] == #[trigger] fr[j2]);
                            };
                        }
                        k = k + 1;
                    },
                }
            }
            proof {
                assert(fr.take(fr.len() as int) =~= fr);
                assert(p_frac_valid(x@));
            }
            let flen = n - dot - 1;
            let tcount: usize = if (T::PRECISION as usize) < flen {
                T::PRECISION as usize
            } else {
                flen
            };
            proof {
                assert(ft =~= fr.take(tcount as int));
                assert(all_digits(ft)) by {
                    assert(forall|j2: int| 0 <= j2 < ft.len() ==> ft[j2] == #[trigger] fr[j2]);
                };
            }
            let mut facc: i128 = 0;
            let mut k2: usize = 0;
            while k2 < tcount
                invariant
                    0 <= k2 <= tcount,
                    tcount <= T::PRECISION,
                    T::PRECISION <= 38,
                    tcount as int == ft.len(),
                    n == x@.len(),
                    tcount <= n - dot - 1,
                    dot < n,
                    fr =~= p_frac(x@),
                    ft =~= fr.take(tcount as int),
                    forall|j2: int| 0 <= j2 < fr.len() ==> #[trigger] fr[j2] == x@[j2 + dot + 1],
                    fr.len() == n - dot - 1,
                    all_digits(ft),
                    facc as int == digits_val(ft.take(k2 as int)),
                    0 <= (facc as int) < pow10(k2 as nat),
                decreases tcount - k2,
            {
                let c = x.get_char(dot + 1 + k2);
                proof {
                    assert(ft[k2 as int] == fr[k2 as int]);
                    assert(ft[k2 as int] == c);
                    assert(is_digit(c));
                    lemma_digits_val_take_step(ft, k2 as int);
                    assert(pow10((k2 + 1) as nat) == 10 * pow10(k2 as nat));
                    crate::arith::lemma_pow10_mono((k2 + 1) as nat, 38);
                    crate::arith::lemma_pow10_38();
                    assert(facc as int * 10 + digit_val(c) < pow10((k2 + 1) as nat))
                        by (nonlinear_arith)
                        requires
                            0 <= (facc as int) < pow10(k2 as nat),
                            0 <= digit_val(c) <= 9,
                            pow10((k2 + 1) as nat) == 10 * pow10(k2 as nat),
                    ;
                }
                let d = match digit_of(c) {
                    Some(d) => d,
                    None => {
                        proof {
                            assert(false);
                        }
                        0
                    },
                };
                facc = facc * 10 + d as i128;
                k2 = k2 + 1;
            }
            proof {
                assert(ft.take(ft.len() as int) =~= ft);
            }
            let rem = T::PRECISION - (tcount as u32);
            proof {
                crate::arith::lemma_pow10_adds(tcount as nat, rem as nat);
                lemma_pow10_pos(rem as nat);
                assert(facc as int * pow10(rem as nat) < pow10(T::PRECISION as nat))
                    by (nonlinear_arith)
                    requires
                        0 <= (facc as int) < pow10(tcount as nat),
                        pow10(rem as nat) >= 1,
                        pow10(T::PRECISION as nat) == pow10(tcount as nat) * pow10(rem as nat),
                ;
                crate::arith::lemma_mul_le(facc as int, 0, pow10(rem as nat));
            }
            fv = facc * crate::fixed_decimal::pow10_i128(rem);
        } else {
            proof {
                assert(!p_has_frac(x@));
            }
        }
        proof {
            assert(fv as int == (if p_has_frac(x@) {
                digits_val(ft) * pow10((T::PRECISION as nat - ft.len()) as nat)
            } else {
                0int
            }));
        }
        if over {
            proof {
                assert(digits_val(ip) * (scale as int) + fv as int > i128::MAX)
                    by (nonlinear_arith)
                    requires
                        digits_val(ip) > i128::MAX,
                        scale as int >= 1,
                        fv as int >= 0,
                ;
            }
            return Err("value out of range");
        }
        let m1 = match acc.checked_mul(scale) {
            Some(v) => v,
            None => {
                proof {
                    assert(acc as int * (scale as int) + fv as int > i128::MAX)
                        by (nonlinear_arith)
                        requires
                            acc as int * (scale as int) > i128::MAX || acc as int * (scale as int)
                                < i128::MIN,
                            acc >= 0,
                            scale >= 1,
                            fv >= 0,
                    ;
                }
                return Err("value out of range");
            },
        };
        proof {
            assert(m1 >= 0) by (nonlinear_arith)
                requires
                    m1 as int == acc as int * (scale as int),
                    acc >= 0,
                    scale >= 1,
            ;
        }
        let mag = match m1.checked_add(fv) {
            Some(v) => v,
            None => {
                return Err("value out of range");
            },
        };
        if is_negative {
            Ok(Self::from_raw(-mag))
        } else {
            Ok(Self::from_raw(mag))
        }
    }
}

/// A positive number with its trailing decimal zeros stripped.
pub open spec fn strip10(m: nat) -> nat
    decreases m,
{
    if m >= 1 && m % 10 == 0 {
        strip10(m / 10)
    } else {
        m
    }
}

/// How many trailing decimal zeros `strip10` removes.
pub open spec fn strip10_count(m: nat) -> nat
    decreases m,
{
    if m >= 1 && m % 10 == 0 {
        1 + strip10_count(m / 10)
    } else {
        0
    }
}

/// Stripping trailing zeros of the number is trimming trailing zeros of
/// its digit string: the stripped number ends in a nonzero digit, scales
/// back exactly, and its digit string is the trimmed one.
pub proof fn lemma_strip10(m: nat)
    requires
        m >= 1,
    ensures
        1 <= strip10(m),
        strip10(m) % 10 != 0,
        m == strip10(m) * pow10(strip10_count(m)),
        trim_zeros(dec_digits(m)) =~= dec_digits(strip10(m)),
        dec_digits(m).len() == dec_digits(strip10(m)).len() + strip10_count(m),
    decreases m,
{
    if m % 10 == 0 {
        let q = m / 10;
        vstd::arithmetic::div_mod::lemma_fundamental_div_mod(m as int, 10);
        vstd::arithmetic::div_mod::lemma_div_pos_is_pos(m as int, 10);
        assert(m == q * 10) by (nonlinear_arith)
            requires
                m == 10 * q + m % 10,
                m % 10 == 0,
        ;
        assert(q >= 1);
        lemma_strip10(q);
        lemma_dec_digits_times_ten(q);
        assert(dec_digits(m) =~= dec_digits(q).push('0'));
        assert(dec_digits(q).push('0').drop_last() =~= dec_digits(q));
        assert(m == strip10(m) * pow10(strip10_count(m))) by {
            assert(q == strip10(q) * pow10(strip10_count(q)));
            assert(strip10(m) == strip10(q) && strip10_count(m) == 1 + strip10_count(q));
            assert(pow10(1 + strip10_count(q)) == 10 * pow10(strip10_count(q)));
            assert(strip10(q) * (10 * pow10(strip10_count(q))) == (strip10(q) * pow10(
                strip10_count(q),
            )) * 10) by (nonlinear_arith);
        };
    } else {
        lemma_trim_zeros_nondivisible(m);
        vstd::arithmetic::power::lemma_pow0(10);
        assert(pow10(0) == 1);
        assert(strip10(m) * 1 == strip10(m)) by (nonlinear_arith);
    }
}

/// Round trip: parsing the rendering of any representable value yields
/// exactly the value again.
pub proof fn lemma_text_round_trip<T: FixedPrecision>(raw: int)
    requires
        FixedDecimal::<T>::precision_ok(),
        in_i128(raw),
        raw != i128::MIN,
    ensures
        p_int_valid(spec_to_string::<T>(raw)),
        p_frac_valid(spec_to_string::<T>(raw)),
        p_mag::<T>(spec_to_string::<T>(raw)) <= i128::MAX,
        p_value::<T>(spec_to_string::<T>(raw)) == raw,
{
    let s = FixedDecimal::<T>::spec_scale();
    lemma_pow10_pos(T::PRECISION as nat);
    let mag = if raw >= 0 { raw } else { -raw };
    let ip = (mag / s) as nat;
    let fp = (mag % s) as nat;
    vstd::arithmetic::div_mod::lemma_fundamental_div_mod(mag, s);
    vstd::arithmetic::div_mod::lemma_mod_bound(mag, s);
    vstd::arithmetic::div_mod::lemma_div_pos_is_pos(mag, s);
    let sign: Seq<char> = if raw < 0 { seq!['-'] } else { Seq::<char>::empty() };
    let ds = dec_digits(ip);
    lemma_dec_digits_val(ip);
    let fr = spec_frac_seq::<T>(fp);
    let out = spec_to_string::<T>(raw);
    let body = if fr.len() == 0 { ds } else { ds + seq!['.'] + fr };
    assert(out =~= sign + body);

    // The sign strips off exactly.
    assert(is_digit(ds[0]));
    assert(body[0] == ds[0]);
    assert(p_is_neg(out) <==> raw < 0) by {
        assert(out[0] == if raw < 0 { '-' } else { body[0] });
    };
    assert(p_body(out) =~= body);

    // Facts about the fractional digit string.
    if fp > 0 {
        assert(T::PRECISION >= 1) by {
            if T::PRECISION == 0 {
                reveal_with_fuel(pow10, 2);
            }
        };
        lemma_dec_digits_len(fp, T::PRECISION as nat);
        lemma_strip10(fp);
        let f = strip10(fp);
        let t = strip10_count(fp);
        let z = (T::PRECISION as nat - dec_digits(fp).len()) as nat;
        lemma_dec_digits_val(f);
        lemma_trim_zeros_prefix(zeros(z), dec_digits(fp));
        assert(fr =~= zeros(z) + dec_digits(f));
        assert(all_digits(fr)) by {
            assert(forall|i: int|
                0 <= i < z ==> #[trigger] fr[i] == '0');
            assert(forall|i: int|
                z <= i < fr.len() ==> #[trigger] fr[i] == dec_digits(f)[i - z]);
        };
        assert(fr.len() + t == T::PRECISION as nat);
        lemma_digits_val_leading_zeros(z, dec_digits(f));
        assert(digits_val(fr) == f);
    } else {
        assert(fr.len() == 0) by {
            lemma_dec_digits_val(0);
            assert(dec_digits(0) =~= seq!['0']);
            if T::PRECISION >= 1 {
                let z = (T::PRECISION - 1) as nat;
                assert(zeros(z) + dec_digits(0) =~= zeros(T::PRECISION as nat));
                lemma_trim_zeros_all(T::PRECISION as nat);
            } else {
                reveal_with_fuel(trim_zeros, 3);
                assert(seq!['0'].drop_last() =~= Seq::<char>::empty());
            }
        };
    }

    // The first dot sits right after the integer digits.
    assert(dot_pos(body) == ds.len()) by {
        if fr.len() == 0 {
            assert(forall|j: int| 0 <= j < ds.len() ==> is_digit(#[trigger] body[j]));
            lemma_dot_pos_char(body, ds.len() as int);
        } else {
            assert(forall|j: int| 0 <= j < ds.len() ==> is_digit(#[trigger] body[j]));
            assert(body[ds.len() as int] == '.');
            lemma_dot_pos_char(body, ds.len() as int);
        }
    };
    assert(p_int(out) =~= ds);
    assert(p_int_valid(out));

    if fr.len() == 0 {
        assert(!p_has_frac(out));
        assert(fp == 0);
        assert(p_mag::<T>(out) == ip * s);
        assert(ip * s == s * ip) by (nonlinear_arith);
        assert(p_mag::<T>(out) == mag);
    } else {
        assert(p_has_frac(out));
        assert(p_frac(out) =~= fr) by {
            assert(body.skip(ds.len() as int + 1) =~= fr);
        };
        assert(p_frac_valid(out));
        let f = strip10(fp);
        let t = strip10_count(fp);
        assert(fr.len() <= T::PRECISION);
        assert(p_frac_trunc::<T>(out) =~= fr);
        assert((T::PRECISION as nat - fr.len()) as nat == t);
        assert(p_mag::<T>(out) == digits_val(ds) * s + digits_val(fr) * pow10(t));
        assert(digits_val(fr) * pow10(t) == fp) by {
            lemma_strip10(fp);
            assert(digits_val(fr) == f);
        };
        assert(ip * s == s * ip) by (nonlinear_arith);
        assert(p_mag::<T>(out) == mag);
    }
    assert(p_mag::<T>(out) <= i128::MAX);
}

} // verus!
