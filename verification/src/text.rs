//! Character-level string utilities shared by the protocol decoder and the
//! configuration codec: conversion between `str`/`String` and `Vec<char>`,
//! string equality, and decimal formatting and parsing.

use vstd::prelude::*;

verus! {

/// Relies on `String::push`: appends one character to the end of the string.
#[verifier::external_body]
pub fn push_char(s: &mut String, c: char)
    ensures
        final(s)@ == old(s)@ + seq![c],
{
    s.push(c);
}

/// Collect the characters of a string slice into a vector.
pub fn chars_of(s: &str) -> (r: Vec<char>)
    ensures
        r@ == s@,
{
    let n: usize = s.unicode_len();
    let mut r: Vec<char> = Vec::new();
    let mut i: usize = 0;
    while i < n
        invariant
            n == s@.len(),
            i <= n,
            r@ == s@.take(i as int),
        decreases n - i,
    {
        r.push(s.get_char(i));
        i = i + 1;
        proof {
            assert(r@ =~= s@.take(i as int));
        }
    }
    proof {
        assert(r@ =~= s@);
    }
    r
}

/// Build a `String` whose characters are exactly the given slice.
pub fn string_from_chars(v: &[char]) -> (r: String)
    ensures
        r@ == v@,
{
    let mut r: String = String::new();
    let mut i: usize = 0;
    while i < v.len()
        invariant
            i <= v@.len(),
            r@ == v@.take(i as int),
        decreases v@.len() - i,
    {
        push_char(&mut r, v[i]);
        i = i + 1;
        proof {
            assert(r@ =~= v@.take(i as int));
        }
    }
    proof {
        assert(r@ =~= v@);
    }
    r
}

/// Character-by-character string equality.
pub fn str_eq(a: &str, b: &str) -> (r: bool)
    ensures
        r == (a@ == b@),
{
    let na: usize = a.unicode_len();
    let nb: usize = b.unicode_len();
    if na != nb {
        return false;
    }
    let mut i: usize = 0;
    while i < na
        invariant
            na == a@.len(),
            na == b@.len(),
            i <= na,
            forall|j: int| 0 <= j < i ==> a@[j] == b@[j],
        decreases na - i,
    {
        if a.get_char(i) != b.get_char(i) {
            return false;
        }
        i = i + 1;
    }
    proof {
        assert(a@ =~= b@);
    }
    true
}

/// Equality between two character slices.
pub fn chars_eq(a: &[char], b: &[char]) -> (r: bool)
    ensures
        r == (a@ == b@),
{
    if a.len() != b.len() {
        return false;
    }
    let mut i: usize = 0;
    while i < a.len()
        invariant
            a@.len() == b@.len(),
            i <= a@.len(),
            forall|j: int| 0 <= j < i ==> a@[j] == b@[j],
        decreases a@.len() - i,
    {
        if a[i] != b[i] {
            return false;
        }
        i = i + 1;
    }
    proof {
        assert(a@ =~= b@);
    }
    true
}

/// Equality between a character slice and a string slice.
pub fn chars_eq_str(v: &[char], s: &str) -> (r: bool)
    ensures
        r == (v@ == s@),
{
    let n: usize = s.unicode_len();
    if v.len() != n {
        return false;
    }
    let mut i: usize = 0;
    while i < n
        invariant
            n == s@.len(),
            n == v@.len(),
            i <= n,
            forall|j: int| 0 <= j < i ==> v@[j] == s@[j],
        decreases n - i,
    {
        if v[i] != s.get_char(i) {
            return false;
        }
        i = i + 1;
    }
    proof {
        assert(v@ =~= s@);
    }
    true
}

/// Is `c` an ASCII decimal digit?
pub open spec fn is_dec_digit(c: char) -> bool {
    '0' <= c && c <= '9'
}

/// The numeric value of an ASCII decimal digit.
pub open spec fn digit_val(c: char) -> nat {
    (c as nat - '0' as nat) as nat
}

/// The digit character for a value below ten.
pub open spec fn digit_char(d: nat) -> char
    recommends
        d < 10,
{
    ((d + '0' as nat) as u32) as char
}

/// The value of a non-empty sequence of decimal digit characters.
pub open spec fn digits_val(s: Seq<char>) -> nat
    decreases s.len(),
{
    if s.len() == 0 {
        0
    } else {
        digits_val(s.drop_last()) * 10 + digit_val(s.last())
    }
}

/// Does the whole sequence consist of decimal digits?
pub open spec fn all_dec_digits(s: Seq<char>) -> bool {
    forall|i: int| 0 <= i < s.len() ==> is_dec_digit(#[trigger] s[i])
}

/// The canonical decimal representation of `n`: no leading zeros except for
/// zero itself.
pub open spec fn dec_rep(n: nat) -> Seq<char>
    decreases n,
{
    if n < 10 {
        seq![digit_char(n)]
    } else {
        dec_rep(n / 10) + seq![digit_char(n % 10)]
    }
}

/// `dec_rep(n)` is made of digits and evaluates back to `n`.
pub proof fn lemma_dec_rep_val(n: nat)
    ensures
        all_dec_digits(dec_rep(n)),
        dec_rep(n).len() >= 1,
        digits_val(dec_rep(n)) == n,
    decreases n,
{
    if n < 10 {
        let s = dec_rep(n);
        assert(s.len() == 1);
        assert(s.drop_last().len() == 0);
        assert(digits_val(s.drop_last()) == 0);
        assert(s.last() == digit_char(n));
        assert(digit_val(digit_char(n)) == n);
        assert(digits_val(s) == digits_val(s.drop_last()) * 10 + digit_val(s.last()));
    } else {
        lemma_dec_rep_val(n / 10);
        let s = dec_rep(n);
        assert(s.drop_last() =~= dec_rep(n / 10));
        assert(s.last() == digit_char(n % 10));
        assert(digit_val(digit_char(n % 10)) == n % 10);
        assert(digits_val(s) == (n / 10) * 10 + n % 10);
        assert((n / 10) * 10 + n % 10 == n) by (nonlinear_arith);
    }
}

/// Format `n` in decimal.
pub fn u64_dec_chars(n: u64) -> (r: Vec<char>)
    ensures
        r@ == dec_rep(n as nat),
    decreases n,
{
    if n < 10 {
        let d: u8 = n as u8;
        let c: char = (d + 48) as char;
        proof {
            assert(c == digit_char(n as nat));
        }
        let mut r: Vec<char> = Vec::new();
        r.push(c);
        proof {
            assert(r@ =~= dec_rep(n as nat));
        }
        r
    } else {
        let mut r = u64_dec_chars(n / 10);
        let d: u8 = (n % 10) as u8;
        let c: char = (d + 48) as char;
        proof {
            assert(c == digit_char((n % 10) as nat));
        }
        r.push(c);
        proof {
            assert(r@ =~= dec_rep(n as nat));
        }
        r
    }
}

/// The canonical decimal representation of a signed value: a minus sign for
/// negative values, then the decimal digits of the magnitude.
pub open spec fn dec_rep_signed(n: int) -> Seq<char> {
    if n < 0 {
        seq!['-'] + dec_rep((-n) as nat)
    } else {
        dec_rep(n as nat)
    }
}

/// Format a signed value in decimal.
pub fn i64_dec_chars(n: i64) -> (r: Vec<char>)
    ensures
        r@ == dec_rep_signed(n as int),
{
    if n >= 0 {
        u64_dec_chars(n as u64)
    } else {
        let mag: u64 = if n == i64::MIN {
            9223372036854775808u64
        } else {
            (-n) as u64
        };
        proof {
            assert(mag as nat == (-(n as int)) as nat);
        }
        let mut r: Vec<char> = Vec::new();
        r.push('-');
        let mut digits = u64_dec_chars(mag);
        let mut j: usize = 0;
        while j < digits.len()
            invariant
                j <= digits@.len(),
                digits@ == dec_rep((-(n as int)) as nat),
                r@ == seq!['-'] + digits@.take(j as int),
            decreases digits@.len() - j,
        {
            r.push(digits[j]);
            j = j + 1;
            proof {
                assert(r@ =~= seq!['-'] + digits@.take(j as int));
            }
        }
        proof {
            assert(r@ =~= dec_rep_signed(n as int));
        }
        r
    }
}

/// What parsing an unsigned decimal field yields: an optional leading `+`,
/// then one or more digits, rejected if the value exceeds `u32::MAX`.
pub open spec fn parse_u32_spec(s: Seq<char>) -> Option<u32> {
    let t = if s.len() > 0 && s[0] == '+' {
        s.drop_first()
    } else {
        s
    };
    if t.len() > 0 && all_dec_digits(t) && digits_val(t) <= u32::MAX as nat {
        Some(digits_val(t) as u32)
    } else {
        None
    }
}

/// Appending digits never decreases the value.
pub proof fn lemma_digits_val_prefix_monotone(s: Seq<char>, i: int)
    requires
        0 <= i <= s.len(),
    ensures
        digits_val(s.take(i)) <= digits_val(s),
    decreases s.len() - i,
{
    if i == s.len() {
        assert(s.take(i) =~= s);
    } else {
        lemma_digits_val_prefix_monotone(s, i + 1);
        let a = s.take(i);
        let b = s.take(i + 1);
        assert(b.drop_last() =~= a);
        assert(digits_val(b) == digits_val(a) * 10 + digit_val(s[i]));
        assert(digits_val(a) <= digits_val(a) * 10) by (nonlinear_arith);
    }
}

/// Parse the digit part of an unsigned decimal field.
fn parse_digits_u32(v: &[char], start: usize) -> (r: Option<u32>)
    requires
        start <= v@.len(),
    ensures
        ({
            let t = v@.skip(start as int);
            if t.len() > 0 && all_dec_digits(t) && digits_val(t) <= u32::MAX as nat {
                r == Some(digits_val(t) as u32)
            } else {
                r is None
            }
        }),
{
    let ghost t = v@.skip(start as int);
    if start == v.len() {
        return None;
    }
    let mut val: u32 = 0;
    let mut i: usize = start;
    while i < v.len()
        invariant
            start <= i <= v@.len(),
            start < v@.len(),
            t == v@.skip(start as int),
            all_dec_digits(t.take(i - start)),
            val as nat == digits_val(t.take(i - start)),
        decreases v@.len() - i,
    {
        let c: char = v[i];
        if !('0' <= c && c <= '9') {
            proof {
                assert(t[i - start] == c);
            }
            return None;
        }
        let d: u32 = (c as u32) - 48;
        proof {
            assert(d == digit_val(c));
        }
        if val > 429496729 || (val == 429496729 && d > 5) {
            proof {
                let p = t.take(i - start + 1);
                assert(p.drop_last() =~= t.take(i - start));
                assert(digits_val(p) == (val as nat) * 10 + d);
                assert(digits_val(p) > u32::MAX as nat);
                lemma_digits_val_prefix_monotone(t, i - start + 1);
            }
            return None;
        }
        val = val * 10 + d;
        i = i + 1;
        proof {
            let p = t.take(i - start);
            assert(p.drop_last() =~= t.take(i - start - 1));
            assert(p.last() == c);
        }
    }
    proof {
        assert(t.take(v@.len() - start) =~= t);
    }
    Some(val)
}

/// Splitting a character sequence at every separator, as a full split: a
/// separator at either end or two adjacent separators yield empty parts.
pub open spec fn split_on(s: Seq<char>, sep: char) -> Seq<Seq<char>>
    decreases s.len(),
{
    if s.len() == 0 {
        seq![Seq::empty()]
    } else if s[0] == sep {
        seq![Seq::<char>::empty()] + split_on(s.drop_first(), sep)
    } else {
        let rest = split_on(s.drop_first(), sep);
        seq![seq![s[0]] + rest[0]] + rest.drop_first()
    }
}

/// A split has at least one part.
pub proof fn lemma_split_on_len(s: Seq<char>, sep: char)
    ensures
        split_on(s, sep).len() >= 1,
    decreases s.len(),
{
    if s.len() > 0 {
        lemma_split_on_len(s.drop_first(), sep);
    }
}

/// The first part runs to the first separator; the remaining parts split
/// what follows it.
pub proof fn lemma_split_on_head(s: Seq<char>, sep: char, i: int)
    requires
        0 <= i <= s.len(),
        forall|j: int| 0 <= j < i ==> s[j] != sep,
        i < s.len() ==> s[i] == sep,
    ensures
        i == s.len() ==> split_on(s, sep) == seq![s],
        i < s.len() ==> split_on(s, sep) == seq![s.take(i)] + split_on(s.skip(i + 1), sep),
    decreases i,
{
    lemma_split_on_len(s.drop_first(), sep);
    if i == 0 {
        if s.len() == 0 {
            assert(split_on(s, sep) =~~= seq![s]);
        } else {
            assert(s[0] == sep);
            assert(s.drop_first() =~= s.skip(1));
            assert(split_on(s, sep) =~~= seq![s.take(0)] + split_on(s.skip(1), sep));
        }
    } else {
        let d = s.drop_first();
        assert forall|j: int| 0 <= j < i - 1 implies d[j] != sep by {
            assert(d[j] == s[j + 1]);
        }
        if i - 1 < d.len() {
            assert(d[i - 1] == s[i]);
        }
        lemma_split_on_head(d, sep, i - 1);
        if i == s.len() {
            assert(split_on(d, sep) == seq![d]);
            assert(split_on(s, sep) =~~= seq![seq![s[0]] + d]);
            assert(seq![s[0]] + d =~= s);
            assert(split_on(s, sep) =~~= seq![s]);
        } else {
            assert(split_on(d, sep) == seq![d.take(i - 1)] + split_on(d.skip(i), sep));
            let rest = split_on(d, sep);
            assert(rest[0] == d.take(i - 1));
            assert(rest.drop_first() =~= split_on(d.skip(i), sep));
            assert(seq![s[0]] + d.take(i - 1) =~= s.take(i));
            assert(d.skip(i) =~= s.skip(i + 1));
            assert(split_on(s, sep) =~~= seq![s.take(i)] + split_on(s.skip(i + 1), sep));
        }
    }
}

/// Copy a range of characters into a fresh vector.
pub fn copy_range(v: &[char], from: usize, to: usize) -> (r: Vec<char>)
    requires
        from <= to <= v@.len(),
    ensures
        r@ == v@.subrange(from as int, to as int),
{
    let mut r: Vec<char> = Vec::new();
    let mut i: usize = from;
    while i < to
        invariant
            from <= i <= to <= v@.len(),
            r@ == v@.subrange(from as int, i as int),
        decreases to - i,
    {
        r.push(v[i]);
        i = i + 1;
        proof {
            assert(r@ =~= v@.subrange(from as int, i as int));
        }
    }
    r
}

/// Split a character vector at every separator.
pub fn split_chars(v: &[char], sep: char) -> (r: Vec<Vec<char>>)
    ensures
        r.deep_view() == split_on(v@, sep),
        r@.len() >= 1,
{
    let mut segs: Vec<Vec<char>> = Vec::new();
    let mut pos: usize = 0;
    proof {
        assert(v@.skip(0) =~= v@);
        assert(segs.deep_view() =~~= Seq::<Seq<char>>::empty());
        assert(split_on(v@, sep) =~~= segs.deep_view() + split_on(v@, sep));
    }
    loop
        invariant
            pos <= v@.len(),
            split_on(v@, sep) == segs.deep_view() + split_on(v@.skip(pos as int), sep),
        decreases v@.len() - pos,
    {
        let ghost rem = v@.skip(pos as int);
        let mut i: usize = pos;
        while i < v.len() && v[i] != sep
            invariant
                pos <= i <= v@.len(),
                rem == v@.skip(pos as int),
                forall|j: int| 0 <= j < i - pos ==> rem[j] != sep,
            decreases v@.len() - i,
        {
            proof {
                assert(rem[i - pos] == v@[i as int]);
            }
            i = i + 1;
        }
        let ghost old_segs = segs.deep_view();
        if i < v.len() {
            proof {
                assert(rem[i - pos] == v@[i as int]);
                lemma_split_on_head(rem, sep, i - pos);
            }
            let part = copy_range(v, pos, i);
            proof {
                assert(part@ =~= rem.take(i - pos));
            }
            segs.push(part);
            proof {
                assert(segs.deep_view() =~~= old_segs + seq![rem.take(i - pos)]);
                assert(v@.skip(i + 1) =~= rem.skip(i - pos + 1));
                assert(old_segs + split_on(rem, sep) =~~= (old_segs + seq![rem.take(i - pos)])
                    + split_on(rem.skip(i - pos + 1), sep));
            }
            pos = i + 1;
        } else {
            proof {
                lemma_split_on_head(rem, sep, rem.len() as int);
            }
            let part = copy_range(v, pos, v.len());
            proof {
                assert(part@ =~= rem);
            }
            segs.push(part);
            proof {
                assert(segs.deep_view() =~~= old_segs + seq![rem]);
                assert(old_segs + split_on(rem, sep) =~~= old_segs + seq![rem]);
            }
            proof {
                lemma_split_on_len(v@, sep);
            }
            return segs;
        }
    }
}

/// Parse an unsigned decimal field as the wire protocol does for
/// durations: optional `+`, then digits, within `u32` range.
pub fn parse_u32_chars(v: &[char]) -> (r: Option<u32>)
    ensures
        r == parse_u32_spec(v@),
{
    if v.len() > 0 && v[0] == '+' {
        let r = parse_digits_u32(v, 1);
        proof {
            assert(v@.skip(1) =~= v@.drop_first());
        }
        r
    } else {
        let r = parse_digits_u32(v, 0);
        proof {
            assert(v@.skip(0) =~= v@);
        }
        r
    }
}

} // verus!
