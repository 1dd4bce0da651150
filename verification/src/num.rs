//! Numeral parser: converts a literal string into a signed 128-bit integer
//! honouring shell numeral syntax — optional sign, radix prefixes `0x`/`0X`
//! (hexadecimal), a single leading `0` (octal), and `radix#digits` for radices
//! up to 64. Digit accumulation wraps modulo 2^128.

use vstd::prelude::*;
use vstd::wrapping::i128_specs;
use crate::error::{ErrView, ExecError};
use crate::text::{chars_vec, char_string, dec_chars, dec_string, string_of_chars};

verus! {

/// The value of `c` as a digit under `base`: `0`-`9` map to 0-9, `a`-`z` to
/// 10-35, `A`-`Z` to 10-35 for radices up to 36 and to 36-61 above, `@` to 62
/// and `_` to 63. `None` for any other character.
pub open spec fn digit_val(c: char, base: int) -> Option<int> {
    if 48 <= c as u32 && c as u32 <= 57 {
        Some(c as u32 - 48)
    } else if 97 <= c as u32 && c as u32 <= 122 {
        Some(c as u32 - 97 + 10)
    } else if 65 <= c as u32 && c as u32 <= 90 {
        if base <= 36 {
            Some(c as u32 - 65 + 10)
        } else {
            Some(c as u32 - 65 + 36)
        }
    } else if c == '@' {
        Some(62)
    } else if c == '_' {
        Some(63)
    } else {
        None
    }
}

/// The digit value of `c` under `base`, or `None` for an illegal character.
pub fn digit_of(c: char, base: i128) -> (r: Option<i128>)
    ensures
        match r {
            Some(d) => digit_val(c, base as int) == Some(d as int),
            None => digit_val(c, base as int) is None,
        },
{
    let u = c as u32;
    if 48 <= u && u <= 57 {
        Some((u - 48) as i128)
    } else if 97 <= u && u <= 122 {
        Some((u - 97 + 10) as i128)
    } else if 65 <= u && u <= 90 {
        if base <= 36 {
            Some((u - 65 + 10) as i128)
        } else {
            Some((u - 65 + 36) as i128)
        }
    } else if c == '@' {
        Some(62)
    } else if c == '_' {
        Some(63)
    } else {
        None
    }
}

/// Left-to-right digit accumulation from position `i` with accumulator `acc`:
/// each step multiplies by the radix and adds the digit, wrapping modulo
/// 2^128. An illegal character or a digit at least as large as the radix
/// stops the accumulation with an error.
pub open spec fn pwb_from(base: int, s: Seq<char>, i: int, acc: i128) -> Result<i128, ErrView>
    decreases s.len() - i,
{
    if i < 0 || i >= s.len() {
        Ok(acc)
    } else {
        match digit_val(s[i], base) {
            None => Err(ErrView::InvalidArithmeticOperator(s, seq![s[i]])),
            Some(d) => if d < base {
                pwb_from(
                    base,
                    s,
                    i + 1,
                    i128_specs::wrapping_add(i128_specs::wrapping_mul(acc, base as i128), d as i128),
                )
            } else {
                Err(ErrView::InvalidBase(dec_chars(base)))
            },
        }
    }
}

/// What parsing the digit string `s` under `base` yields: the accumulated
/// value, or an error; an empty digit string is an error.
pub open spec fn pwb_spec(base: int, s: Seq<char>) -> Result<i128, ErrView> {
    if s.len() == 0 {
        Err(ErrView::InvalidArithmeticOperator(s, s))
    } else {
        pwb_from(base, s, 0, 0i128)
    }
}

/// Parses the digit string `s` under `base`, accumulating left to right with
/// wrapping arithmetic.
pub fn parse_with_base(base: i128, s: &Vec<char>) -> (r: Result<i128, ExecError>)
    ensures
        match pwb_spec(base as int, s@) {
            Ok(n) => r matches Ok(m) && m == n,
            Err(v) => r matches Err(e) && e@ == v,
        },
{
    if s.len() == 0 {
        let t = string_of_chars(s);
        let t2 = string_of_chars(s);
        return Err(ExecError::InvalidArithmeticOperator(t, t2));
    }
    let mut acc: i128 = 0;
    let mut i: usize = 0;
    while i < s.len()
        invariant
            i <= s@.len(),
            pwb_from(base as int, s@, i as int, acc) == pwb_from(base as int, s@, 0, 0i128),
        decreases s@.len() - i,
    {
        let a2 = acc.wrapping_mul(base);
        match digit_of(s[i], base) {
            None => {
                return Err(ExecError::InvalidArithmeticOperator(
                    string_of_chars(s),
                    char_string(s[i]),
                ));
            },
            Some(d) => {
                if d < base {
                    acc = a2.wrapping_add(d);
                    i = i + 1;
                } else {
                    return Err(ExecError::InvalidBase(dec_string(base)));
                }
            },
        }
    }
    Ok(acc)
}

/// The index of the first `#` in `s` at or after `i`, if any.
pub open spec fn first_hash(s: Seq<char>, i: int) -> Option<int>
    decreases s.len() - i,
{
    if i < 0 || i >= s.len() {
        None
    } else if s[i] == '#' {
        Some(i)
    } else {
        first_hash(s, i + 1)
    }
}

/// The value of a decimal digit string (no sign), folded left to right;
/// `None` if empty is handled by the caller, and any non-digit character
/// makes the whole string invalid.
pub open spec fn dec_digits_val(s: Seq<char>) -> Option<int>
    decreases s.len(),
{
    if s.len() == 0 {
        Some(0)
    } else {
        match dec_digits_val(s.drop_last()) {
            None => None,
            Some(v) => {
                let c = s.last();
                if 48 <= c as u32 && c as u32 <= 57 {
                    Some(v * 10 + (c as u32 - 48))
                } else {
                    None
                }
            },
        }
    }
}

/// The integer a decimal literal with an optional sign denotes, or `None`
/// when the literal is empty, has no digits, or holds a non-digit character.
pub open spec fn parse_dec_int(s: Seq<char>) -> Option<int> {
    if s.len() == 0 {
        None
    } else if s[0] == '+' || s[0] == '-' {
        if s.len() == 1 {
            None
        } else {
            match dec_digits_val(s.skip(1)) {
                None => None,
                Some(v) => Some(if s[0] == '-' { -v } else { v }),
            }
        }
    } else {
        dec_digits_val(s)
    }
}

/// A string with a character that is no decimal digit denotes no decimal
/// value.
proof fn lemma_dec_digits_none(s: Seq<char>, j: int)
    requires
        0 <= j < s.len(),
        !(48 <= s[j] as u32 && s[j] as u32 <= 57),
    ensures
        dec_digits_val(s) is None,
    decreases s.len(),
{
    if j == s.len() - 1 {
    } else {
        lemma_dec_digits_none(s.drop_last(), j);
    }
}

/// Radix detection on `s`: `0x`/`0X` means 16, a single leading `0` with more
/// characters remaining means 8, `radix#digits` parses the radix (at most 64,
/// and within the 128-bit signed range), otherwise 10. The returned sequence
/// is what remains for digit parsing.
pub open spec fn radix_split(s: Seq<char>) -> Result<(int, Seq<char>), ErrView> {
    if s.len() >= 2 && s[0] == '0' && (s[1] == 'x' || s[1] == 'X') {
        Ok((16, s.skip(2)))
    } else if s.len() > 1 && s[0] == '0' {
        Ok((8, s.skip(1)))
    } else {
        match first_hash(s, 0) {
            None => Ok((10, s)),
            Some(n) => {
                let base_str = s.subrange(0, n);
                let rest = s.skip(n + 1);
                match parse_dec_int(base_str) {
                    Some(v) => if i128::MIN <= v <= i128::MAX && v <= 64 {
                        Ok((v, rest))
                    } else {
                        Err(ErrView::InvalidBase(base_str))
                    },
                    None => Err(ErrView::InvalidBase(base_str)),
                }
            },
        }
    }
}

/// The decimal value of `cs[0..end]` as a 128-bit signed integer, by the same
/// rule as `parse_dec_int`, with `None` also for values out of range.
fn parse_radix_value(cs: &Vec<char>, end: usize) -> (r: Option<i128>)
    requires
        end <= cs@.len(),
    ensures
        match parse_dec_int(cs@.subrange(0, end as int)) {
            Some(v) => if i128::MIN <= v <= i128::MAX {
                r matches Some(x) && x as int == v
            } else {
                r is None
            },
            None => r is None,
        },
{
    let ghost t = cs@.subrange(0, end as int);
    if end == 0 {
        return None;
    }
    let c0 = cs[0];
    let neg: bool = c0 == '-';
    let mut sd: usize = 0;
    if c0 == '+' || c0 == '-' {
        sd = 1;
        if end == 1 {
            return None;
        }
    }
    let ghost digits = t.skip(sd as int);
    let mut mag: u128 = 0;
    let mut i: usize = sd;
    while i < end
        invariant
            sd <= i <= end <= cs@.len(),
            sd <= 1,
            end >= 1,
            t == cs@.subrange(0, end as int),
            digits == t.skip(sd as int),
            (sd == 1) == (t[0] == '+' || t[0] == '-'),
            neg == (t[0] == '-'),
            dec_digits_val(t.subrange(sd as int, i as int)) == Some(mag as int),
        decreases end - i,
    {
        let c = cs[i];
        proof {
            assert(t[i as int] == c);
        }
        let u = c as u32;
        if !(48 <= u && u <= 57) {
            proof {
                assert(digits[i - sd] == t[i as int]);
                lemma_dec_digits_none(digits, i - sd);
                if sd == 0 {
                    assert(digits =~= t);
                }
            }
            return None;
        }
        let d: u128 = (u - 48) as u128;
        let m10 = match mag.checked_mul(10) {
            Some(m) => m,
            None => {
                proof {
                    lemma_out_of_range(t, sd as int, i as int, mag as int);
                }
                return None;
            },
        };
        let m2 = match m10.checked_add(d) {
            Some(m) => m,
            None => {
                proof {
                    lemma_out_of_range(t, sd as int, i as int, mag as int);
                }
                return None;
            },
        };
        proof {
            assert(t.subrange(sd as int, i + 1).drop_last() =~= t.subrange(sd as int, i as int));
            assert(t.subrange(sd as int, i + 1).last() == t[i as int]);
        }
        mag = m2;
        i = i + 1;
    }
    proof {
        assert(t.subrange(sd as int, end as int) =~= digits);
        if sd == 1 {
            assert(t.skip(1) == digits);
        } else {
            assert(digits =~= t);
        }
    }
    if neg {
        if mag <= 170141183460469231731687303715884105728u128 {
            if mag == 170141183460469231731687303715884105728u128 {
                Some(i128::MIN)
            } else {
                Some(-(mag as i128))
            }
        } else {
            None
        }
    } else {
        if mag <= 170141183460469231731687303715884105727u128 {
            Some(mag as i128)
        } else {
            None
        }
    }
}

/// When the digits already read denote a value whose next accumulation step
/// leaves the unsigned 128-bit range, the whole literal denotes a value
/// outside the signed 128-bit range, whatever its sign.
proof fn lemma_out_of_range(t: Seq<char>, sd: int, i: int, mag: int)
    requires
        0 <= sd <= i < t.len(),
        sd <= 1,
        (sd == 1) == (t[0] == '+' || t[0] == '-'),
        dec_digits_val(t.subrange(sd, i)) == Some(mag),
        mag >= 0,
        mag * 10 > u128::MAX - 9,
    ensures
        parse_dec_int(t) matches Some(v) ==> !(i128::MIN <= v <= i128::MAX),
{
    let digits = t.subrange(sd, t.len() as int);
    lemma_dec_prefix_large(t, sd, i, mag);
    if sd == 0 {
        assert(digits =~= t);
    } else {
        assert(t.skip(1) =~= digits);
    }
    match dec_digits_val(digits) {
        Some(v) => {
            assert(v >= mag * 10);
        },
        None => {},
    }
}

/// A decimal prefix worth at least `mag` stays at least as large when more
/// digits follow: the value of the whole digit string, if any, is at least
/// `mag * 10`.
proof fn lemma_dec_prefix_large(t: Seq<char>, sd: int, i: int, mag: int)
    requires
        0 <= sd <= i < t.len(),
        dec_digits_val(t.subrange(sd, i)) == Some(mag),
        mag >= 0,
    ensures
        dec_digits_val(t.subrange(sd, t.len() as int)) matches Some(v) ==> v >= mag * 10,
    decreases t.len() - i,
{
    let whole = t.subrange(sd, t.len() as int);
    if dec_digits_val(whole) is Some {
        lemma_dec_digits_monotone(t, sd, i);
    }
}

/// Every extension of a decimal digit prefix multiplies its value by at least
/// ten per added digit; in particular one more digit makes it at least ten
/// times as large.
proof fn lemma_dec_digits_monotone(t: Seq<char>, sd: int, i: int)
    requires
        0 <= sd <= i < t.len(),
        dec_digits_val(t.subrange(sd, t.len() as int)) is Some,
        dec_digits_val(t.subrange(sd, i)) is Some,
    ensures
        dec_digits_val(t.subrange(sd, t.len() as int)).unwrap() >= 10 * dec_digits_val(
            t.subrange(sd, i),
        ).unwrap(),
    decreases t.len() - i,
{
    let prev = t.subrange(sd, i);
    let next = t.subrange(sd, i + 1);
    assert(next.drop_last() =~= prev);
    lemma_dec_digits_some_nonneg(prev);
    if dec_digits_val(next) is None {
        lemma_dec_digits_none_extends(t, sd, i + 1);
        assert(false);
    }
    if i + 1 == t.len() {
        assert(next =~= t.subrange(sd, t.len() as int));
    } else {
        lemma_dec_digits_monotone(t, sd, i + 1);
        lemma_dec_digits_some_nonneg(next);
        let pv = dec_digits_val(prev).unwrap();
        let nv = dec_digits_val(next).unwrap();
        assert(nv >= 10 * pv);
        let wv = dec_digits_val(t.subrange(sd, t.len() as int)).unwrap();
        assert(wv >= 10 * nv);
        assert(wv >= 10 * pv) by (nonlinear_arith)
            requires
                wv >= 10 * nv,
                nv >= 10 * pv,
                pv >= 0,
        ;
    }
}

/// A valid decimal digit string denotes a non-negative value.
proof fn lemma_dec_digits_some_nonneg(s: Seq<char>)
    requires
        dec_digits_val(s) is Some,
    ensures
        dec_digits_val(s).unwrap() >= 0,
    decreases s.len(),
{
    if s.len() > 0 {
        lemma_dec_digits_some_nonneg(s.drop_last());
    }
}

/// If a prefix of the digit string is invalid, so is the whole string.
proof fn lemma_dec_digits_none_extends(t: Seq<char>, sd: int, i: int)
    requires
        0 <= sd <= i <= t.len(),
        dec_digits_val(t.subrange(sd, i)) is None,
    ensures
        dec_digits_val(t.subrange(sd, t.len() as int)) is None,
    decreases t.len() - i,
{
    if i < t.len() {
        assert(t.subrange(sd, i + 1).drop_last() =~= t.subrange(sd, i));
        lemma_dec_digits_none_extends(t, sd, i + 1);
    }
}

/// The unsigned 64-bit value a decimal literal denotes, if any: used for
/// array subscripts.
pub fn parse_dec_u64(s: &str) -> (r: Option<u64>)
    ensures
        match parse_dec_int(s@) {
            Some(v) => if 0 <= v <= u64::MAX {
                r matches Some(x) && x as int == v
            } else {
                r is None
            },
            None => r is None,
        },
{
    let cs = chars_vec(s);
    proof {
        assert(cs@.subrange(0, cs@.len() as int) =~= s@);
    }
    match parse_radix_value(&cs, cs.len()) {
        Some(x) => if 0 <= x && x <= 18446744073709551615i128 {
            Some(x as u64)
        } else {
            None
        },
        None => None,
    }
}

/// Radix detection in the shell's order: a `0x`/`0X` prefix, then a leading
/// `0`, then an embedded `#`, else decimal. Consumed prefix characters are
/// removed from `s`; in the `#` form the radix text and the `#` are removed
/// whether or not the radix is legal.
pub fn get_base(s: &mut Vec<char>) -> (r: Result<i128, ExecError>)
    ensures
        match radix_split(old(s)@) {
            Ok(p) => r matches Ok(b) && b as int == p.0 && final(s)@ == p.1,
            Err(v) => r matches Err(e) && e@ == v && final(s)@ == old(s)@.skip(
                first_hash(old(s)@, 0).unwrap() + 1,
            ),
        },
{
    if s.len() >= 2 && s[0] == '0' && (s[1] == 'x' || s[1] == 'X') {
        s.remove(0);
        s.remove(0);
        proof {
            assert(s@ =~= old(s)@.skip(2));
        }
        return Ok(16);
    }
    if s.len() > 1 && s[0] == '0' {
        s.remove(0);
        proof {
            assert(s@ =~= old(s)@.skip(1));
        }
        return Ok(8);
    }
    let hash = find_hash(s);
    match hash {
        None => Ok(10),
        Some(n) => {
            let val = parse_radix_value(s, n);
            let base_text = string_of_chars_prefix(s, n);
            let mut rest: Vec<char> = Vec::new();
            let mut j: usize = n + 1;
            proof {
                assert(rest@ =~= s@.subrange(n + 1, n + 1));
            }
            while j < s.len()
                invariant
                    n + 1 <= j <= s@.len(),
                    rest@ == s@.subrange(n + 1, j as int),
                decreases s@.len() - j,
            {
                rest.push(s[j]);
                j = j + 1;
                proof {
                    assert(rest@ =~= s@.subrange(n + 1, j as int));
                }
            }
            proof {
                assert(rest@ =~= s@.skip(n + 1));
            }
            *s = rest;
            match val {
                Some(b) => if b <= 64 {
                    Ok(b)
                } else {
                    Err(ExecError::InvalidBase(base_text))
                },
                None => Err(ExecError::InvalidBase(base_text)),
            }
        },
    }
}

/// The index of the first `#` in `s`, if any.
fn find_hash(s: &Vec<char>) -> (r: Option<usize>)
    ensures
        match first_hash(s@, 0) {
            Some(n) => r matches Some(m) && m as int == n && n < s@.len(),
            None => r is None,
        },
{
    let mut i: usize = 0;
    while i < s.len()
        invariant
            i <= s@.len(),
            first_hash(s@, 0) == first_hash(s@, i as int),
        decreases s@.len() - i,
    {
        if s[i] == '#' {
            return Some(i);
        }
        i = i + 1;
    }
    None
}

/// A `String` holding the first `end` characters of `v`.
fn string_of_chars_prefix(v: &Vec<char>, end: usize) -> (r: String)
    requires
        end <= v@.len(),
    ensures
        r@ == v@.subrange(0, end as int),
{
    let mut s = String::new();
    let mut i: usize = 0;
    while i < end
        invariant
            i <= end <= v@.len(),
            s@ == v@.subrange(0, i as int),
        decreases end - i,
    {
        crate::text::push_char(&mut s, v[i]);
        i = i + 1;
        proof {
            assert(s@ =~= v@.subrange(0, i as int));
        }
    }
    s
}

/// Whether `v` holds the character `c`.
fn find_char(v: &Vec<char>, c: char) -> (r: bool)
    ensures
        r == v@.contains(c),
{
    let mut i: usize = 0;
    while i < v.len()
        invariant
            i <= v@.len(),
            forall|j: int| 0 <= j < i ==> v@[j] != c,
        decreases v@.len() - i,
    {
        if v[i] == c {
            return true;
        }
        i = i + 1;
    }
    proof {
        assert(!v@.contains(c));
    }
    false
}

/// What parsing the literal `s` yields. Strings holding `'` or `.` are
/// rejected; the empty string denotes 0; a leading sign is stripped and
/// applied (wrapping) to the parsed magnitude after radix detection and digit
/// accumulation.
pub open spec fn parse_spec(s: Seq<char>) -> Result<i128, ErrView> {
    if s.contains('\'') {
        Err(ErrView::InvalidArithmeticOperator(s, seq!['\'']))
    } else if s.contains('.') {
        Err(ErrView::InvalidArithmeticOperator(s, seq!['.']))
    } else if s.len() == 0 {
        Ok(0i128)
    } else {
        let negv = s[0] == '-';
        let w = if s[0] == '-' || s[0] == '+' {
            s.skip(1)
        } else {
            s
        };
        match radix_split(w) {
            Err(e) => Err(e),
            Ok(p) => match pwb_spec(p.0, p.1) {
                Err(e) => Err(e),
                Ok(n) => Ok(
                    if negv {
                        i128_specs::wrapping_sub(0i128, n)
                    } else {
                        n
                    },
                ),
            },
        }
    }
}

/// Parses a shell numeral literal into a signed 128-bit integer.
pub fn parse(s: &str) -> (r: Result<i128, ExecError>)
    ensures
        match parse_spec(s@) {
            Ok(n) => r matches Ok(m) && m == n,
            Err(v) => r matches Err(e) && e@ == v,
        },
{
    let cs = chars_vec(s);
    let has_quote = find_char(&cs, '\'');
    let has_dot = find_char(&cs, '.');
    if has_quote {
        return Err(ExecError::InvalidArithmeticOperator(string_of_chars(&cs), char_string('\'')));
    }
    if has_dot {
        return Err(ExecError::InvalidArithmeticOperator(string_of_chars(&cs), char_string('.')));
    }
    if cs.len() == 0 {
        return Ok(0);
    }
    let mut w = cs;
    let c0 = w[0];
    let negv: bool = c0 == '-';
    if c0 == '-' || c0 == '+' {
        w.remove(0);
        proof {
            assert(w@ =~= s@.skip(1));
        }
    }
    let base = match get_base(&mut w) {
        Ok(b) => b,
        Err(e) => {
            return Err(e);
        },
    };
    match parse_with_base(base, &w) {
        Ok(n) => if negv {
            Ok(0i128.wrapping_sub(n))
        } else {
            Ok(n)
        },
        Err(e) => Err(e),
    }
}

} // verus!
