//! The numeric field grammar of the wire protocol.
//!
//! A field is what a 64-bit float literal accepts: an optional sign, then
//! `inf`, `infinity` or `nan` (case-insensitive), or a decimal significand
//! with an optional decimal point and an optional power-of-ten exponent.
//! Values are represented in fixed point as millionths of a unit, truncated
//! below a millionth; a magnitude of one unit or more saturates at one.

use vstd::prelude::*;

use crate::text::{all_dec_digits, digit_val, digits_val, is_dec_digit};

verus! {

/// One unit, in millionths.
pub const UNIT_MILLIONTHS: u32 = 1000000;

/// Saturation bound for exponents, far beyond every digit position that can
/// still matter: indices into the digit sequence stay below this, so a
/// saturated exponent leaves every digit weight on the same side of the
/// contributing window.
pub const EXP_SAT: i128 = 1_000_000_000_000_000_000_000;

/// The same bound, for unsigned accumulation.
const EXP_SAT_U: u128 = 1_000_000_000_000_000_000_000;

/// The mathematical value of a parsed numeric field. For `nan` and the
/// infinite forms the digit sequence is empty and the exponent zero; for a
/// finite form the magnitude is `digits_val(digits) * 10^exp`.
pub ghost struct SpecNum {
    pub neg: bool,
    pub is_nan: bool,
    pub is_inf: bool,
    pub digits: Seq<char>,
    pub exp: int,
}

/// ASCII lower-casing of a single character.
pub open spec fn ascii_lower(c: char) -> char {
    if 'A' <= c && c <= 'Z' {
        (((c as u32) + 32) as u8) as char
    } else {
        c
    }
}

/// Case-insensitive equality with a lower-case word.
pub open spec fn lower_eq(s: Seq<char>, word: Seq<char>) -> bool {
    s.len() == word.len() && (forall|i: int|
        0 <= i < s.len() ==> ascii_lower(#[trigger] s[i]) == word[i])
}

/// The first position of an exponent marker (`e` or `E`), if any.
pub open spec fn find_exp_marker(s: Seq<char>) -> Option<int>
    decreases s.len(),
{
    if s.len() == 0 {
        None
    } else if s[0] == 'e' || s[0] == 'E' {
        Some(0)
    } else {
        match find_exp_marker(s.drop_first()) {
            Some(i) => Some(i + 1),
            None => None,
        }
    }
}

/// The first position of a decimal point, if any.
pub open spec fn find_dot(s: Seq<char>) -> Option<int>
    decreases s.len(),
{
    if s.len() == 0 {
        None
    } else if s[0] == '.' {
        Some(0)
    } else {
        match find_dot(s.drop_first()) {
            Some(i) => Some(i + 1),
            None => None,
        }
    }
}

/// `find_exp_marker` yields the least marker position.
pub proof fn lemma_find_exp_marker(s: Seq<char>)
    ensures
        match find_exp_marker(s) {
            Some(i) => 0 <= i < s.len() && (s[i] == 'e' || s[i] == 'E') && (forall|j: int|
                0 <= j < i ==> s[j] != 'e' && s[j] != 'E'),
            None => forall|j: int| 0 <= j < s.len() ==> s[j] != 'e' && s[j] != 'E',
        },
    decreases s.len(),
{
    if s.len() > 0 && !(s[0] == 'e' || s[0] == 'E') {
        lemma_find_exp_marker(s.drop_first());
        assert forall|j: int| 1 <= j < s.len() implies s[j] == s.drop_first()[j - 1] by {}
    }
}

/// `find_dot` yields the least dot position.
pub proof fn lemma_find_dot(s: Seq<char>)
    ensures
        match find_dot(s) {
            Some(i) => 0 <= i < s.len() && s[i] == '.' && (forall|j: int| 0 <= j < i ==> s[j] != '.'),
            None => forall|j: int| 0 <= j < s.len() ==> s[j] != '.',
        },
    decreases s.len(),
{
    if s.len() > 0 && s[0] != '.' {
        lemma_find_dot(s.drop_first());
        assert forall|j: int| 1 <= j < s.len() implies s[j] == s.drop_first()[j - 1] by {}
    }
}

/// What parsing the exponent part (after the marker) yields.
pub open spec fn spec_parse_exp(s: Seq<char>) -> Option<int> {
    let neg = s.len() > 0 && s[0] == '-';
    let d = if s.len() > 0 && (s[0] == '-' || s[0] == '+') {
        s.drop_first()
    } else {
        s
    };
    if d.len() > 0 && all_dec_digits(d) {
        Some(
            if neg {
                -(digits_val(d) as int)
            } else {
                digits_val(d) as int
            },
        )
    } else {
        None
    }
}

/// What parsing the significand yields: the concatenated integer and
/// fraction digits, and the fraction length.
pub open spec fn spec_parse_mantissa(s: Seq<char>) -> Option<(Seq<char>, int)> {
    match find_dot(s) {
        None => if s.len() > 0 && all_dec_digits(s) {
            Some((s, 0))
        } else {
            None
        },
        Some(d) => {
            let ip = s.take(d);
            let fp = s.skip(d + 1);
            if all_dec_digits(ip) && all_dec_digits(fp) && ip.len() + fp.len() > 0 {
                Some((ip + fp, fp.len() as int))
            } else {
                None
            }
        },
    }
}

/// What parsing the decimal (finite) form yields: the mantissa digits and
/// the power of ten weighting the last digit.
pub open spec fn spec_parse_decimal(r: Seq<char>) -> Option<(Seq<char>, int)> {
    match find_exp_marker(r) {
        None => match spec_parse_mantissa(r) {
            Some((digits, frac_len)) => Some((digits, -frac_len)),
            None => None,
        },
        Some(i) => match (spec_parse_mantissa(r.take(i)), spec_parse_exp(r.skip(i + 1))) {
            (Some((digits, frac_len)), Some(e)) => Some((digits, e - frac_len)),
            _ => None,
        },
    }
}

/// What parsing a whole numeric field yields, if it is well-formed.
pub open spec fn spec_parse_number(s: Seq<char>) -> Option<SpecNum> {
    let neg = s.len() > 0 && s[0] == '-';
    let r = if s.len() > 0 && (s[0] == '-' || s[0] == '+') {
        s.drop_first()
    } else {
        s
    };
    if lower_eq(r, seq!['n', 'a', 'n']) {
        Some(SpecNum { neg, is_nan: true, is_inf: false, digits: Seq::empty(), exp: 0 })
    } else if lower_eq(r, seq!['i', 'n', 'f']) || lower_eq(
        r,
        seq!['i', 'n', 'f', 'i', 'n', 'i', 't', 'y'],
    ) {
        Some(SpecNum { neg, is_nan: false, is_inf: true, digits: Seq::empty(), exp: 0 })
    } else {
        match spec_parse_decimal(r) {
            Some((digits, exp)) => Some(SpecNum { neg, is_nan: false, is_inf: false, digits, exp }),
            None => None,
        }
    }
}

/// Powers of ten.
pub open spec fn pow10(n: nat) -> nat
    decreases n,
{
    if n == 0 {
        1
    } else {
        10 * pow10((n - 1) as nat)
    }
}

/// `pow10` is positive.
pub proof fn lemma_pow10_pos(n: nat)
    ensures
        pow10(n) >= 1,
    decreases n,
{
    if n > 0 {
        lemma_pow10_pos((n - 1) as nat);
    }
}

/// `pow10` is at least one and monotone.
pub proof fn lemma_pow10_monotone(a: nat, b: nat)
    requires
        a <= b,
    ensures
        1 <= pow10(a) <= pow10(b),
    decreases b,
{
    lemma_pow10_pos(a);
    if a < b {
        lemma_pow10_monotone(a, (b - 1) as nat);
    }
}

/// The whole-millionths contribution of a digit whose weight is `10^p`
/// millionths; digits below the millionths place contribute nothing, and
/// together they amount to less than one millionth, so dropping them is
/// exact truncation.
pub open spec fn digit_term(c: char, p: int) -> nat {
    if p >= 0 {
        digit_val(c) * pow10(p as nat)
    } else {
        0
    }
}

/// The magnitude of a finite number in whole millionths, truncated: the sum
/// of the digit contributions, where the first digit's weight is `10^top`
/// millionths and each following digit's weight is ten times smaller.
pub open spec fn scaled_sum(digits: Seq<char>, top: int) -> nat
    decreases digits.len(),
{
    if digits.len() == 0 {
        0
    } else {
        digit_term(digits[0], top) + scaled_sum(digits.drop_first(), top - 1)
    }
}

/// Splitting the digit sequence splits the sum.
pub proof fn lemma_scaled_split(digits: Seq<char>, top: int, k: int)
    requires
        0 <= k <= digits.len(),
    ensures
        scaled_sum(digits, top) == scaled_sum(digits.take(k), top) + scaled_sum(
            digits.skip(k),
            top - k,
        ),
    decreases k,
{
    if k == 0 {
        assert(digits.take(0).len() == 0);
        assert(digits.skip(0) =~= digits);
    } else {
        let rest = digits.drop_first();
        assert(digits.take(k).drop_first() =~= rest.take(k - 1));
        assert(digits.take(k)[0] == digits[0]);
        lemma_scaled_split(rest, top - 1, k - 1);
        assert(digits.skip(k) =~= rest.skip(k - 1));
    }
}

/// Extending the processed prefix by one digit adds its contribution.
pub proof fn lemma_scaled_take_step(digits: Seq<char>, top: int, k: int)
    requires
        0 <= k < digits.len(),
    ensures
        scaled_sum(digits.take(k + 1), top) == scaled_sum(digits.take(k), top) + digit_term(
            digits[k],
            top - k,
        ),
{
    lemma_scaled_split(digits.take(k + 1), top, k);
    assert(digits.take(k + 1).take(k) =~= digits.take(k));
    let tail = digits.take(k + 1).skip(k);
    assert(tail.len() == 1);
    assert(tail[0] == digits[k]);
    assert(tail.drop_first().len() == 0);
    assert(scaled_sum(tail.drop_first(), top - k - 1) == 0);
    assert(scaled_sum(tail, top - k) == digit_term(digits[k], top - k));
}

/// A digit sequence evaluates to zero exactly when every digit is zero.
pub proof fn lemma_digits_val_zero(s: Seq<char>)
    ensures
        (digits_val(s) == 0) <==> (forall|i: int| 0 <= i < s.len() ==> digit_val(#[trigger] s[i]) == 0),
    decreases s.len(),
{
    if s.len() > 0 {
        lemma_digits_val_zero(s.drop_last());
        assert(digits_val(s) == digits_val(s.drop_last()) * 10 + digit_val(s.last()));
        if digits_val(s) == 0 {
            assert(digits_val(s.drop_last()) * 10 >= 0) by (nonlinear_arith)
                requires digits_val(s.drop_last()) >= 0;
            assert(digits_val(s.drop_last()) == 0) by (nonlinear_arith)
                requires digits_val(s.drop_last()) * 10 + digit_val(s.last()) == 0;
            assert forall|i: int| 0 <= i < s.len() implies digit_val(#[trigger] s[i]) == 0 by {
                if i < s.len() - 1 {
                    assert(s[i] == s.drop_last()[i]);
                }
            }
        }
        if forall|i: int| 0 <= i < s.len() ==> digit_val(#[trigger] s[i]) == 0 {
            assert forall|i: int| 0 <= i < s.drop_last().len() implies digit_val(
                #[trigger] s.drop_last()[i],
            ) == 0 by {
                assert(s.drop_last()[i] == s[i]);
            }
            assert(digit_val(s.last()) == 0);
        }
    }
}

/// The magnitude of a parsed number in whole millionths, saturated at one
/// unit: infinities saturate, and a finite magnitude of one or more clamps
/// to exactly one unit.
pub open spec fn magnitude_millionths(n: SpecNum) -> u32 {
    if n.is_inf {
        UNIT_MILLIONTHS
    } else {
        let s = scaled_sum(n.digits, n.digits.len() - 1 + n.exp + 6);
        if s > UNIT_MILLIONTHS as nat {
            UNIT_MILLIONTHS
        } else {
            s as u32
        }
    }
}

/// Is the magnitude exactly zero?
pub open spec fn zero_magnitude(n: SpecNum) -> bool {
    !n.is_inf && digits_val(n.digits) == 0
}

/// ASCII lower-casing of a single character.
fn lower_char(c: char) -> (r: char)
    ensures
        r == ascii_lower(c),
{
    if 'A' <= c && c <= 'Z' {
        (((c as u32) + 32) as u8) as char
    } else {
        c
    }
}

/// Case-insensitive comparison of `v[start..]` with a lower-case word.
fn eq_word(v: &[char], start: usize, word: &[char]) -> (r: bool)
    requires
        start <= v@.len(),
    ensures
        r == lower_eq(v@.skip(start as int), word@),
{
    let ghost s = v@.skip(start as int);
    let n: usize = v.len();
    if n - start != word.len() {
        return false;
    }
    let mut i: usize = 0;
    while i < word.len()
        invariant
            s == v@.skip(start as int),
            start <= n,
            n == v@.len(),
            n - start == word@.len(),
            s.len() == word@.len(),
            i <= word@.len(),
            forall|j: int| 0 <= j < i ==> ascii_lower(#[trigger] s[j]) == word@[j],
        decreases word@.len() - i,
    {
        if lower_char(v[start + i]) != word[i] {
            proof {
                assert(s[i as int] == v@[start + i]);
            }
            return false;
        }
        proof {
            assert(s[i as int] == v@[start + i]);
        }
        i = i + 1;
    }
    true
}

/// Are all characters of `v[from..to)` decimal digits?
fn scan_all_digits(v: &[char], from: usize, to: usize) -> (r: bool)
    requires
        from <= to <= v@.len(),
    ensures
        r == all_dec_digits(v@.subrange(from as int, to as int)),
{
    let ghost s = v@.subrange(from as int, to as int);
    let mut i: usize = from;
    while i < to
        invariant
            from <= i <= to <= v@.len(),
            s == v@.subrange(from as int, to as int),
            forall|j: int| 0 <= j < i - from ==> is_dec_digit(#[trigger] s[j]),
        decreases to - i,
    {
        let c: char = v[i];
        proof {
            assert(s[i - from] == c);
        }
        if !('0' <= c && c <= '9') {
            return false;
        }
        i = i + 1;
    }
    true
}

/// Find the first exponent marker in `v[from..to)`.
fn find_exp_in(v: &[char], from: usize, to: usize) -> (r: Option<usize>)
    requires
        from <= to <= v@.len(),
    ensures
        ({
            let s = v@.subrange(from as int, to as int);
            match r {
                Some(i) => from <= i < to && find_exp_marker(s) == Some(i - from),
                None => find_exp_marker(s) is None,
            }
        }),
{
    let ghost s = v@.subrange(from as int, to as int);
    proof {
        lemma_find_exp_marker(s);
    }
    let mut i: usize = from;
    while i < to
        invariant
            from <= i <= to <= v@.len(),
            s == v@.subrange(from as int, to as int),
            forall|j: int| 0 <= j < i - from ==> s[j] != 'e' && s[j] != 'E',
        decreases to - i,
    {
        let c: char = v[i];
        proof {
            assert(s[i - from] == c);
        }
        if c == 'e' || c == 'E' {
            proof {
                lemma_find_exp_marker(s);
                let fm = find_exp_marker(s);
                if fm is None {
                    assert(false);
                } else {
                    let k = fm.unwrap();
                    if k < i - from {
                        assert(s[k] != 'e' && s[k] != 'E');
                        assert(false);
                    } else if k > i - from {
                        assert(false);
                    }
                }
            }
            return Some(i);
        }
        i = i + 1;
    }
    proof {
        lemma_find_exp_marker(s);
        let fm = find_exp_marker(s);
        if fm is Some {
            let k = fm.unwrap();
            assert(s[k] != 'e' && s[k] != 'E');
            assert(false);
        }
    }
    None
}

/// Small powers of ten.
fn pow10_small(p: u32) -> (r: u32)
    requires
        p <= 6,
    ensures
        r as nat == pow10(p as nat),
{
    proof {
        assert(pow10(0) == 1);
        assert(pow10(1) == 10);
        assert(pow10(2) == 100);
        assert(pow10(3) == 1000);
        assert(pow10(4) == 10000);
        assert(pow10(5) == 100000);
        assert(pow10(6) == 1000000);
    }
    let mut r: u32 = 1;
    let mut i: u32 = 0;
    while i < p
        invariant
            i <= p <= 6,
            r as nat == pow10(i as nat),
            r <= 1000000,
        decreases p - i,
    {
        proof {
            lemma_pow10_monotone(i as nat, 5);
            assert(pow10(0) == 1);
            assert(pow10(1) == 10);
            assert(pow10(2) == 100);
            assert(pow10(3) == 1000);
            assert(pow10(4) == 10000);
            assert(pow10(5) == 100000);
        }
        r = r * 10;
        i = i + 1;
    }
    r
}

/// Accumulate the millionths contributions of one run of digit characters.
///
/// The run `v[from..to)` stands at global positions `g0..` of the full digit
/// sequence. The accumulator state is `(acc, sat, nonzero)`: when `sat` is
/// not set, `acc` is the exact scaled sum of the processed prefix; once the
/// sum exceeds one unit it saturates. `base_calc` is the saturated stand-in
/// for the first digit's weight exponent `top - g0`; saturation never
/// changes on which side of the contributing window `0..=6` a weight falls.
#[allow(unused_variables)]
fn scan_digit_run(
    v: &[char],
    from: usize,
    to: usize,
    state: (u32, bool, bool),
    base_calc: i128,
    Ghost(digits): Ghost<Seq<char>>,
    Ghost(top): Ghost<int>,
    Ghost(g0): Ghost<int>,
) -> (r: (u32, bool, bool))
    requires
        from <= to <= v@.len(),
        0 <= g0,
        g0 + (to - from) <= digits.len(),
        forall|i: int| 0 <= i < (to - from) ==> #[trigger] digits[g0 + i] == v@[from + i],
        all_dec_digits(v@.subrange(from as int, to as int)),
        -100_000_000_000_000_000_000_000 <= base_calc <= 100_000_000_000_000_000_000_000,
        (top - g0 == base_calc as int) || (top - g0 >= base_calc as int && base_calc - (to - from)
            as i128 > 6) || (top - g0 <= base_calc as int && base_calc < 0),
        !state.1 ==> state.0 as nat == scaled_sum(digits.take(g0), top) && state.0
            <= UNIT_MILLIONTHS,
        state.1 ==> scaled_sum(digits.take(g0), top) > UNIT_MILLIONTHS as nat,
        state.2 == !(forall|i: int| 0 <= i < g0 ==> digit_val(#[trigger] digits[i]) == 0),
    ensures
        ({
            let g1 = g0 + (to - from);
            &&& (!r.1 ==> r.0 as nat == scaled_sum(digits.take(g1), top) && r.0 <= UNIT_MILLIONTHS)
            &&& (r.1 ==> scaled_sum(digits.take(g1), top) > UNIT_MILLIONTHS as nat)
            &&& (r.2 == !(forall|i: int| 0 <= i < g1 ==> digit_val(#[trigger] digits[i]) == 0))
        }),
{
    let mut acc: u32 = state.0;
    let mut sat: bool = state.1;
    let mut nonzero: bool = state.2;
    let mut a: usize = from;
    while a < to
        invariant
            from <= a <= to <= v@.len(),
            0 <= g0,
            g0 + (to - from) <= digits.len(),
            forall|i: int| 0 <= i < (to - from) ==> #[trigger] digits[g0 + i] == v@[from + i],
            all_dec_digits(v@.subrange(from as int, to as int)),
            -100_000_000_000_000_000_000_000 <= base_calc <= 100_000_000_000_000_000_000_000,
            (top - g0 == base_calc as int) || (top - g0 >= base_calc as int && base_calc - (to
                - from) as i128 > 6) || (top - g0 <= base_calc as int && base_calc < 0),
            !sat ==> acc as nat == scaled_sum(digits.take(g0 + (a - from)), top) && acc
                <= UNIT_MILLIONTHS,
            sat ==> scaled_sum(digits.take(g0 + (a - from)), top) > UNIT_MILLIONTHS as nat,
            nonzero == !(forall|i: int|
                0 <= i < g0 + (a - from) ==> digit_val(#[trigger] digits[i]) == 0),
        decreases to - a,
    {
        let c: char = v[a];
        let ghost i = a - from;
        let ghost g = g0 + i;
        let ghost p_spec = top - g;
        proof {
            assert(v@.subrange(from as int, to as int)[i] == c);
            assert(is_dec_digit(c));
            assert(digits[g] == c);
        }
        let d: u32 = (c as u32) - 48;
        proof {
            assert(d as nat == digit_val(c));
            lemma_scaled_take_step(digits, top, g);
        }
        let p_calc: i128 = base_calc - ((a - from) as u64 as i128);
        proof {
            // the saturated weight classifies the position as the exact one does
            if top - g0 == base_calc as int {
                assert(p_calc as int == p_spec);
            } else if top - g0 >= base_calc as int && base_calc - (to - from) as i128 > 6 {
                assert(p_calc > 6);
                assert(p_spec > 6);
            } else {
                assert(p_calc < 0);
                assert(p_spec < 0);
            }
        }
        if p_calc > 6 {
            proof {
                assert(p_spec > 6);
                if d > 0 {
                    lemma_pow10_monotone(7, (p_spec as nat));
                    assert(pow10(7) == 10 * pow10(6));
                    assert(pow10(6) == 1000000) by {
                        assert(pow10(0) == 1);
                        assert(pow10(1) == 10);
                        assert(pow10(2) == 100);
                        assert(pow10(3) == 1000);
                        assert(pow10(4) == 10000);
                        assert(pow10(5) == 100000);
                    }
                    assert(digit_term(c, p_spec) == digit_val(c) * pow10(p_spec as nat));
                    assert(digit_val(c) * pow10(p_spec as nat) >= 1 * pow10(p_spec as nat)) by (nonlinear_arith)
                        requires digit_val(c) >= 1, pow10(p_spec as nat) >= 0;
                    assert(digit_term(c, p_spec) > UNIT_MILLIONTHS as nat);
                } else {
                    assert(digit_val(c) == 0);
                    assert(digit_term(c, p_spec) == 0) by (nonlinear_arith)
                        requires digit_val(c) == 0, digit_term(c, p_spec) == digit_val(c) * pow10(p_spec as nat);
                }
            }
            if d > 0 {
                sat = true;
            }
        } else if p_calc >= 0 {
            let pw: u32 = pow10_small(p_calc as u32);
            proof {
                assert(p_calc as int == p_spec);
                lemma_pow10_monotone(p_spec as nat, 6);
                assert(pow10(6) == 1000000) by {
                    assert(pow10(0) == 1);
                    assert(pow10(1) == 10);
                    assert(pow10(2) == 100);
                    assert(pow10(3) == 1000);
                    assert(pow10(4) == 10000);
                    assert(pow10(5) == 100000);
                }
                assert(digit_term(c, p_spec) == digit_val(c) * pow10(p_spec as nat));
                assert(digit_val(c) <= 9);
                assert(digit_val(c) * pow10(p_spec as nat) <= 9 * 1000000) by (nonlinear_arith)
                    requires digit_val(c) <= 9, pow10(p_spec as nat) <= 1000000;
            }
            let term: u32 = d * pw;
            proof {
                assert(term as nat == digit_term(c, p_spec)) by (nonlinear_arith)
                    requires d as nat == digit_val(c), pw as nat == pow10(p_spec as nat),
                        digit_term(c, p_spec) == digit_val(c) * pow10(p_spec as nat),
                        term == d * pw, d <= 9, pw <= 1000000;
            }
            if !sat {
                let raw: u32 = acc + term;
                if raw > UNIT_MILLIONTHS {
                    sat = true;
                } else {
                    acc = raw;
                }
            }
        } else {
            proof {
                assert(p_spec < 0);
                assert(digit_term(c, p_spec) == 0);
            }
        }
        if d > 0 {
            nonzero = true;
        }
        a = a + 1;
        proof {
            assert(digit_val(digits[g]) == d as nat);
            if d == 0 {
                assert forall|ii: int| 0 <= ii < g0 + (a - from) implies (digit_val(
                    #[trigger] digits[ii],
                ) == 0) == (ii == g || digit_val(digits[ii]) == 0) by {}
            }
        }
    }
    proof {
        assert(g0 + (to - from) == g0 + (a - from));
    }
    (acc, sat, nonzero)
}

/// Parse the exponent part `v[from..to)` (the characters after the marker),
/// saturating at a bound far beyond any weight that can still matter.
fn parse_exp_part(v: &[char], from: usize, to: usize) -> (r: Option<i128>)
    requires
        from <= to <= v@.len(),
    ensures
        ({
            let sp = spec_parse_exp(v@.subrange(from as int, to as int));
            match r {
                None => sp is None,
                Some(ec) => {
                    &&& sp is Some
                    &&& -EXP_SAT <= ec <= EXP_SAT
                    &&& (sp.unwrap() >= EXP_SAT as int ==> ec == EXP_SAT)
                    &&& (sp.unwrap() <= -(EXP_SAT as int) ==> ec == -EXP_SAT)
                    &&& (-(EXP_SAT as int) < sp.unwrap() < EXP_SAT as int ==> ec as int
                        == sp.unwrap())
                },
            }
        }),
{
    let ghost s = v@.subrange(from as int, to as int);
    let mut neg: bool = false;
    let mut dstart: usize = from;
    if from < to && (v[from] == '-' || v[from] == '+') {
        neg = v[from] == '-';
        dstart = from + 1;
    }
    let ghost d = v@.subrange(dstart as int, to as int);
    proof {
        if from < to {
            assert(s[0] == v@[from as int]);
        }
        if s.len() > 0 && (s[0] == '-' || s[0] == '+') {
            assert(d =~= s.drop_first());
        } else {
            assert(d =~= s);
        }
    }
    if dstart == to {
        return None;
    }
    let mut val: u128 = 0;
    let mut i: usize = dstart;
    while i < to
        invariant
            dstart <= i <= to <= v@.len(),
            dstart < to,
            d == v@.subrange(dstart as int, to as int),
            s == v@.subrange(from as int, to as int),
            all_dec_digits(d) ==> spec_parse_exp(s) == Some(
                if neg {
                    -(digits_val(d) as int)
                } else {
                    digits_val(d) as int
                },
            ),
            !all_dec_digits(d) ==> spec_parse_exp(s) is None,
            all_dec_digits(d.take(i - dstart)),
            (digits_val(d.take(i - dstart)) > (EXP_SAT_U as nat) ==> val == EXP_SAT_U),
            (digits_val(d.take(i - dstart)) <= (EXP_SAT_U as nat) ==> val as nat == digits_val(
                d.take(i - dstart),
            )),
            val <= EXP_SAT_U,
        decreases to - i,
    {
        let c: char = v[i];
        proof {
            assert(d[i - dstart] == c);
        }
        if !('0' <= c && c <= '9') {
            proof {
                assert(!is_dec_digit(c));
                assert(!all_dec_digits(d));
                assert(spec_parse_exp(s) is None);
            }
            return None;
        }
        let dig: u128 = ((c as u32) - 48) as u128;
        let ghost pre = d.take(i - dstart);
        let ghost post = d.take(i - dstart + 1);
        proof {
            assert(post.drop_last() =~= pre);
            assert(post.last() == c);
            assert(digits_val(post) == digits_val(pre) * 10 + digit_val(c));
            assert(dig as nat == digit_val(c));
        }
        let raw: u128 = val * 10 + dig;
        proof {
            if digits_val(pre) > (EXP_SAT_U as nat) {
                assert(digits_val(pre) * 10 >= digits_val(pre)) by (nonlinear_arith)
                    requires digits_val(pre) >= 0;
                assert(digits_val(post) > (EXP_SAT_U as nat));
            } else {
                assert(raw as nat == digits_val(post));
            }
        }
        val = if raw > EXP_SAT_U {
            EXP_SAT_U
        } else {
            raw
        };
        i = i + 1;
    }
    proof {
        assert(d.take(to - dstart) =~= d);
    }
    let mag: i128 = val as i128;
    if neg {
        Some(-mag)
    } else {
        Some(mag)
    }
}

/// The magnitude of the significand `v[int_from..int_to) . v[frac_from..frac_to)`
/// times ten to the (possibly saturated) exponent, in whole millionths,
/// saturated at one unit, together with whether it is exactly zero.
#[allow(unused_variables)]
fn magnitude_from_parts(
    v: &[char],
    int_from: usize,
    int_to: usize,
    frac_from: usize,
    frac_to: usize,
    ec: i128,
    Ghost(e): Ghost<int>,
) -> (r: (u32, bool))
    requires
        int_from <= int_to <= v@.len(),
        frac_from <= frac_to <= v@.len(),
        all_dec_digits(v@.subrange(int_from as int, int_to as int)),
        all_dec_digits(v@.subrange(frac_from as int, frac_to as int)),
        -EXP_SAT <= ec <= EXP_SAT,
        (e >= EXP_SAT as int ==> ec == EXP_SAT),
        (e <= -(EXP_SAT as int) ==> ec == -EXP_SAT),
        (-(EXP_SAT as int) < e < EXP_SAT as int ==> ec as int == e),
    ensures
        ({
            let digits = v@.subrange(int_from as int, int_to as int) + v@.subrange(
                frac_from as int,
                frac_to as int,
            );
            let top = (int_to - int_from) + e + 5;
            &&& r.0 as nat == (if scaled_sum(digits, top) > UNIT_MILLIONTHS as nat {
                UNIT_MILLIONTHS as nat
            } else {
                scaled_sum(digits, top)
            })
            &&& r.1 == (digits_val(digits) == 0)
        }),
{
    let int_len: usize = int_to - int_from;
    let frac_len: usize = frac_to - frac_from;
    let ghost ip = v@.subrange(int_from as int, int_to as int);
    let ghost fp = v@.subrange(frac_from as int, frac_to as int);
    let ghost digits = ip + fp;
    let ghost top = int_len + e + 5;
    let base1: i128 = (int_len as u64 as i128) + ec + 5;
    proof {
        assert(usize::MAX <= u64::MAX);
        assert(digits.take(0).len() == 0);
        assert(scaled_sum(digits.take(0), top) == 0);
        assert forall|i: int| 0 <= i < int_len implies #[trigger] digits[0 + i]
            == v@[int_from + i] by {
            assert(digits[i] == ip[i]);
        }
        // classification of the first run's weights
        if -(EXP_SAT as int) < e < EXP_SAT as int {
            assert(top - 0 == base1 as int);
        } else if e >= EXP_SAT as int {
            assert(base1 - (int_to - int_from) as i128 > 6);
        } else {
            assert(base1 as int == int_len + ec + 5);
            assert(base1 < 0);
        }
    }
    let run1 = scan_digit_run(
        v,
        int_from,
        int_to,
        (0u32, false, false),
        base1,
        Ghost(digits),
        Ghost(top),
        Ghost(0int),
    );
    let base2: i128 = ec + 5;
    proof {
        assert forall|i: int| 0 <= i < frac_len implies #[trigger] digits[int_len + i]
            == v@[frac_from + i] by {
            assert(digits[int_len + i] == fp[i]);
        }
        if -(EXP_SAT as int) < e < EXP_SAT as int {
            assert(top - int_len == base2 as int);
        } else if e >= EXP_SAT as int {
            assert(base2 - (frac_to - frac_from) as i128 > 6);
        } else {
            assert(base2 < 0);
        }
    }
    let run2 = scan_digit_run(
        v,
        frac_from,
        frac_to,
        run1,
        base2,
        Ghost(digits),
        Ghost(top),
        Ghost(int_len as int),
    );
    let (acc, sat, nonzero) = run2;
    proof {
        assert(digits.take(int_len + frac_len) =~= digits);
        lemma_digits_val_zero(digits);
    }
    let mag: u32 = if sat {
        UNIT_MILLIONTHS
    } else {
        acc
    };
    (mag, !nonzero)
}

/// Find the first decimal point in `v[from..to)`.
fn find_dot_in(v: &[char], from: usize, to: usize) -> (r: Option<usize>)
    requires
        from <= to <= v@.len(),
    ensures
        ({
            let s = v@.subrange(from as int, to as int);
            match r {
                Some(i) => from <= i < to && find_dot(s) == Some(i - from),
                None => find_dot(s) is None,
            }
        }),
{
    let ghost s = v@.subrange(from as int, to as int);
    proof {
        lemma_find_dot(s);
    }
    let mut i: usize = from;
    while i < to
        invariant
            from <= i <= to <= v@.len(),
            s == v@.subrange(from as int, to as int),
            forall|j: int| 0 <= j < i - from ==> s[j] != '.',
        decreases to - i,
    {
        let c: char = v[i];
        proof {
            assert(s[i - from] == c);
        }
        if c == '.' {
            proof {
                lemma_find_dot(s);
                let fd = find_dot(s);
                if fd is None {
                    assert(false);
                } else {
                    let k = fd.unwrap();
                    if k < i - from {
                        assert(s[k] != '.');
                        assert(false);
                    } else if k > i - from {
                        assert(false);
                    }
                }
            }
            return Some(i);
        }
        i = i + 1;
    }
    proof {
        lemma_find_dot(s);
        let fd = find_dot(s);
        if fd is Some {
            let k = fd.unwrap();
            assert(s[k] != '.');
            assert(false);
        }
    }
    None
}

/// The decoded form of a numeric field, over plain values: written sign,
/// not-a-number flag, magnitude in millionths saturated at one unit, and
/// whether the magnitude is exactly zero.
pub struct NumInfo {
    pub neg: bool,
    pub is_nan: bool,
    pub magnitude: u32,
    pub zero: bool,
}

/// Parse one numeric field.
#[verifier::rlimit(100)]
#[verifier::spinoff_prover]
fn parse_number_chars(v: &[char]) -> (r: Option<NumInfo>)
    ensures
        match spec_parse_number(v@) {
            None => r is None,
            Some(n) => match r {
                Some(ni) => ni.neg == n.neg && ni.is_nan == n.is_nan && ni.magnitude
                    == magnitude_millionths(n) && ni.zero == zero_magnitude(n),
                None => false,
            },
        },
{
    let n: usize = v.len();
    let mut neg: bool = false;
    let mut start: usize = 0;
    if n > 0 && (v[0] == '-' || v[0] == '+') {
        neg = v[0] == '-';
        start = 1;
    }
    let ghost rr = v@.skip(start as int);
    proof {
        if v@.len() > 0 {
            assert(v@[0] == v@[0]);
        }
        if v@.len() > 0 && (v@[0] == '-' || v@[0] == '+') {
            assert(rr =~= v@.drop_first());
        } else {
            assert(rr =~= v@);
        }
        assert(rr =~= v@.subrange(start as int, n as int));
    }
    let word_nan = vec!['n', 'a', 'n'];
    let word_inf = vec!['i', 'n', 'f'];
    let word_infinity = vec!['i', 'n', 'f', 'i', 'n', 'i', 't', 'y'];
    proof {
        assert(word_nan@ =~= seq!['n', 'a', 'n']);
        assert(word_inf@ =~= seq!['i', 'n', 'f']);
        assert(word_infinity@ =~= seq!['i', 'n', 'f', 'i', 'n', 'i', 't', 'y']);
    }
    if eq_word(v, start, word_nan.as_slice()) {
        proof {
            let sn = spec_parse_number(v@).unwrap();
            assert(sn.digits.len() == 0);
            assert(scaled_sum(sn.digits, sn.digits.len() - 1 + sn.exp + 6) == 0);
        }
        return Some(NumInfo { neg, is_nan: true, magnitude: 0, zero: true });
    }
    if eq_word(v, start, word_inf.as_slice()) || eq_word(v, start, word_infinity.as_slice()) {
        return Some(NumInfo { neg, is_nan: false, magnitude: UNIT_MILLIONTHS, zero: false });
    }
    match parse_decimal_chars(v, start) {
        None => None,
        Some((magnitude, zero)) => {
            proof {
                let sn = spec_parse_number(v@).unwrap();
                let de = spec_parse_decimal(rr).unwrap();
                assert(sn.digits == de.0);
                assert(sn.exp == de.1);
            }
            Some(NumInfo { neg, is_nan: false, magnitude, zero })
        },
    }
}

/// Parse the decimal (finite) form starting after any sign: the magnitude
/// in millionths saturated at one unit, and whether it is exactly zero.
#[verifier::rlimit(100)]
#[verifier::spinoff_prover]
fn parse_decimal_chars(v: &[char], start: usize) -> (r: Option<(u32, bool)>)
    requires
        start <= v@.len(),
    ensures
        match spec_parse_decimal(v@.skip(start as int)) {
            None => r is None,
            Some(de) => match r {
                Some(p) => {
                    let top = de.0.len() - 1 + de.1 + 6;
                    &&& p.0 as nat == (if scaled_sum(de.0, top) > UNIT_MILLIONTHS as nat {
                        UNIT_MILLIONTHS as nat
                    } else {
                        scaled_sum(de.0, top)
                    })
                    &&& p.1 == (digits_val(de.0) == 0)
                },
                None => false,
            },
        },
{
    let n: usize = v.len();
    let ghost rr = v@.skip(start as int);
    proof {
        assert(rr =~= v@.subrange(start as int, n as int));
    }
    let marker = find_exp_in(v, start, n);
    let mend: usize = match marker {
        Some(epos) => epos,
        None => n,
    };
    let (ec, ghost_e): (i128, Ghost<int>) = match marker {
        Some(epos) => {
            match parse_exp_part(v, epos + 1, n) {
                Some(ec) => {
                    let ghost e = spec_parse_exp(v@.subrange(epos + 1, n as int)).unwrap();
                    (ec, Ghost(e))
                },
                None => {
                    proof {
                        assert(rr.skip(epos - start + 1) =~= v@.subrange(epos + 1, n as int));
                    }
                    return None;
                },
            }
        },
        None => (0i128, Ghost(0int)),
    };
    let ghost e = ghost_e@;
    proof {
        if marker is Some {
            let epos = marker.unwrap();
            assert(rr.skip(epos - start + 1) =~= v@.subrange(epos + 1, n as int));
        }
    }
    // significand: digits, an optional single decimal point between them
    let (int_from, int_to, frac_from, frac_to): (usize, usize, usize, usize) = match find_dot_in(
        v,
        start,
        mend,
    ) {
        None => (start, mend, mend, mend),
        Some(dpos) => (start, dpos, dpos + 1, mend),
    };
    if int_from == int_to && frac_from == frac_to {
        proof {
            let m = v@.subrange(start as int, mend as int);
            if marker is Some {
                assert(rr.take(marker.unwrap() - start) =~= m);
            } else {
                assert(rr =~= m);
            }
        }
        return None;
    }
    if !scan_all_digits(v, int_from, int_to) || !scan_all_digits(v, frac_from, frac_to) {
        proof {
            let m = v@.subrange(start as int, mend as int);
            if marker is Some {
                assert(rr.take(marker.unwrap() - start) =~= m);
            } else {
                assert(rr =~= m);
            }
            match find_dot(m) {
                None => {
                    assert(v@.subrange(int_from as int, int_to as int) =~= m);
                    assert(v@.subrange(frac_from as int, frac_to as int) =~= Seq::<char>::empty());
                },
                Some(d) => {
                    assert(m.take(d) =~= v@.subrange(int_from as int, int_to as int));
                    assert(m.skip(d + 1) =~= v@.subrange(frac_from as int, frac_to as int));
                },
            }
        }
        return None;
    }
    proof {
        let m = v@.subrange(start as int, mend as int);
        if marker is Some {
            assert(rr.take(marker.unwrap() - start) =~= m);
        } else {
            assert(rr =~= m);
        }
        match find_dot(m) {
            None => {
                assert(v@.subrange(int_from as int, int_to as int) =~= m);
                assert(v@.subrange(frac_from as int, frac_to as int) =~= Seq::<char>::empty());
                assert(m + Seq::<char>::empty() =~= m);
            },
            Some(d) => {
                assert(m.take(d) =~= v@.subrange(int_from as int, int_to as int));
                assert(m.skip(d + 1) =~= v@.subrange(frac_from as int, frac_to as int));
            },
        }
    }
    let (magnitude, zero) = magnitude_from_parts(
        v,
        int_from,
        int_to,
        frac_from,
        frac_to,
        ec,
        Ghost(e),
    );
    proof {
        let de = spec_parse_decimal(rr).unwrap();
        assert(de.0 =~= v@.subrange(int_from as int, int_to as int) + v@.subrange(
            frac_from as int,
            frac_to as int,
        ));
        assert(de.0.len() - 1 + de.1 + 6 == (int_to - int_from) + e + 5);
    }
    Some((magnitude, zero))
}

/// What decoding a scalar intensity or linear position field yields: the
/// parsed value coerced to zero when not a number, clamped to the unit
/// interval, in millionths.
pub open spec fn spec_unit_value(s: Seq<char>) -> Option<u32> {
    match spec_parse_number(s) {
        None => None,
        Some(n) => Some(
            if n.is_nan || n.neg {
                0u32
            } else {
                magnitude_millionths(n)
            },
        ),
    }
}

/// What decoding a rotation speed field yields: the parsed value coerced to
/// zero when not a number, clamped to one unit in magnitude, split into an
/// unsigned speed in millionths and a clockwise flag carrying the sign.
pub open spec fn spec_rotation_value(s: Seq<char>) -> Option<(u32, bool)> {
    match spec_parse_number(s) {
        None => None,
        Some(n) => {
            let speed = if n.is_nan {
                0u32
            } else {
                magnitude_millionths(n)
            };
            let clockwise = n.is_nan || !n.neg || zero_magnitude(n);
            Some((speed, clockwise))
        },
    }
}

/// Clamping: whatever numeric field is decoded as a scalar intensity or a
/// linear position, the value lies in the unit interval, and a field that
/// parses as not-a-number yields exactly zero rather than an error.
pub proof fn lemma_scalar_clamped(s: Seq<char>)
    ensures
        match spec_unit_value(s) {
            Some(v) => v <= UNIT_MILLIONTHS,
            None => true,
        },
        match spec_parse_number(s) {
            Some(n) => n.is_nan ==> spec_unit_value(s) == Some(0u32),
            None => true,
        },
{
}

/// Negating a numeric field flips the rotation direction and keeps the
/// speed: a field with no written sign decodes clockwise, and the same
/// field prefixed with a minus sign decodes to the same speed,
/// counterclockwise unless the magnitude is zero or the field is
/// not-a-number.
pub proof fn lemma_rotation_sign_split(t: Seq<char>)
    requires
        t.len() > 0,
        t[0] != '-',
        t[0] != '+',
    ensures
        spec_parse_number(t) is None <==> spec_parse_number(seq!['-'] + t) is None,
        match (spec_parse_number(t), spec_parse_number(seq!['-'] + t)) {
            (Some(n), Some(m)) => !n.neg && m.neg && m.is_nan == n.is_nan && m.is_inf == n.is_inf
                && m.digits == n.digits && m.exp == n.exp,
            (None, None) => true,
            _ => false,
        },
        match (spec_rotation_value(t), spec_rotation_value(seq!['-'] + t)) {
            (Some(p), Some(q)) => p.0 == q.0 && p.1 == true && (q.1 <==> (spec_parse_number(
                t,
            ).unwrap().is_nan || zero_magnitude(spec_parse_number(t).unwrap()))),
            (None, None) => true,
            _ => false,
        },
{
    let s = seq!['-'] + t;
    assert(s.len() > 0);
    assert(s[0] == '-');
    assert(s.drop_first() =~= t);
}

/// Decode a scalar intensity or linear position field.
pub fn parse_unit_value(v: &[char]) -> (r: Option<u32>)
    ensures
        r == spec_unit_value(v@),
        match r {
            Some(m) => m <= UNIT_MILLIONTHS,
            None => true,
        },
{
    match parse_number_chars(v) {
        None => None,
        Some(ni) => Some(
            if ni.is_nan || ni.neg {
                0
            } else {
                ni.magnitude
            },
        ),
    }
}

/// Decode a rotation speed field.
pub fn parse_rotation_value(v: &[char]) -> (r: Option<(u32, bool)>)
    ensures
        r == spec_rotation_value(v@),
        match r {
            Some(m) => m.0 <= UNIT_MILLIONTHS,
            None => true,
        },
{
    match parse_number_chars(v) {
        None => None,
        Some(ni) => {
            let speed: u32 = if ni.is_nan {
                0
            } else {
                ni.magnitude
            };
            let clockwise: bool = ni.is_nan || !ni.neg || ni.zero;
            Some((speed, clockwise))
        },
    }
}

} // verus!
