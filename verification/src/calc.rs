//! Operator evaluator: applies unary and binary shell arithmetic operators to
//! signed 128-bit integers on an evaluation stack. Addition, subtraction,
//! multiplication and exponentiation wrap modulo 2^128; shift counts are
//! taken modulo 128 and a negative shift count yields 0; division and modulo
//! by zero, and a negative exponent, are reported as domain errors.

use vstd::prelude::*;
use vstd::wrapping::i128_specs;
use vstd::arithmetic::power::{pow, lemma_pow0, lemma_pow1, lemma_pow_adds};
use vstd::arithmetic::div_mod::{
    lemma_fundamental_div_mod, lemma_mod_bound, lemma_mod_sub_multiples_vanish, lemma_mod_twice,
    lemma_mul_mod_noop_general, lemma_small_mod, lemma_div_nonincreasing,
    lemma_div_is_ordered_by_denominator, lemma_div_is_ordered, lemma_div_basics,
};
use crate::error::{ErrView, ExecError};
use crate::store::ShellCore;
use crate::text::{chars_vec, dec_chars, dec_string, push_char};

verus! {

/// One value on the arithmetic evaluation stack. This core evaluates integer
/// expressions only, so a single kind of element suffices.
#[derive(Debug, Clone, Copy, PartialEq, Eq, Structural)]
pub enum ArithElem {
    Integer(i128),
}

/// 2^128, the modulus of the wrapping arithmetic.
pub open spec fn two_128() -> int {
    0x100000000000000000000000000000000int
}

/// `signed_crop` keeps the residue class of its argument modulo 2^128.
proof fn lemma_crop_mod(x: int)
    ensures
        i128_specs::signed_crop(x) as int % two_128() == x % two_128(),
{
    let m = two_128();
    lemma_mod_bound(x, m);
    lemma_mod_twice(x, m);
    if x % m > i128::MAX {
        lemma_mod_sub_multiples_vanish(x % m, m);
    }
}

/// `signed_crop` is the identity on values already in the signed 128-bit
/// range.
proof fn lemma_crop_id(v: i128)
    ensures
        i128_specs::signed_crop(v as int) == v,
{
    let m = two_128();
    if v >= 0 {
        lemma_small_mod(v as nat, m as nat);
    } else {
        lemma_mod_sub_multiples_vanish(v as int + m, m);
        lemma_small_mod((v as int + m) as nat, m as nat);
    }
}

/// Cropping the product of two cropped values crops the product itself:
/// wrapping multiplication respects residue classes modulo 2^128.
proof fn lemma_crop_mul(x: int, y: int)
    ensures
        i128_specs::signed_crop(
            i128_specs::signed_crop(x) as int * i128_specs::signed_crop(y) as int,
        ) == i128_specs::signed_crop(x * y),
{
    let m = two_128();
    let cx = i128_specs::signed_crop(x) as int;
    let cy = i128_specs::signed_crop(y) as int;
    lemma_crop_mod(x);
    lemma_crop_mod(y);
    lemma_mul_mod_noop_general(cx, cy, m);
    lemma_mul_mod_noop_general(x, y, m);
    assert((cx * cy) % m == (x * y) % m);
}

/// The value of `base ** exp` under the wrapping policy: the mathematical
/// power reduced into the signed 128-bit range.
pub open spec fn pow_wrap(b: i128, e: nat) -> int {
    i128_specs::signed_crop(pow(b as int, e)) as int
}

/// Integer exponentiation by squaring, wrapping modulo 2^128 at every step.
pub fn pow_exec(b: i128, e: u128) -> (r: i128)
    ensures
        r as int == pow_wrap(b, e as nat),
    decreases e,
{
    if e == 0 {
        proof {
            lemma_pow0(b as int);
            lemma_crop_id(1i128);
        }
        1
    } else {
        let h = pow_exec(b, e / 2);
        let hh = h.wrapping_mul(h);
        let ghost half = (e / 2) as nat;
        let ghost x = pow(b as int, half);
        proof {
            lemma_crop_mul(x, x);
            lemma_pow_adds(b as int, half, half);
            lemma_fundamental_div_mod(e as int, 2);
        }
        if e % 2 == 0 {
            proof {
                assert(half + half == e as nat);
            }
            hh
        } else {
            let r2 = hh.wrapping_mul(b);
            proof {
                lemma_crop_id(b);
                lemma_crop_mul(x * x, b as int);
                lemma_pow1(b as int);
                lemma_pow_adds(b as int, (half + half) as nat, 1nat);
                assert(half + half + 1 == e as nat);
            }
            r2
        }
    }
}

/// Truncated division (the shell's and Rust's rule: round toward zero), for a
/// non-zero divisor.
pub open spec fn div_trunc(l: int, r: int) -> int {
    if l >= 0 && r > 0 {
        l / r
    } else if l < 0 && r < 0 {
        (-l) / (-r)
    } else if l < 0 {
        -((-l) / r)
    } else {
        -(l / (-r))
    }
}

/// Truncated remainder (sign of the dividend), for a non-zero divisor.
pub open spec fn rem_trunc(l: int, r: int) -> int {
    if l >= 0 && r > 0 {
        l % r
    } else if l < 0 && r < 0 {
        -((-l) % (-r))
    } else if l < 0 {
        -((-l) % r)
    } else {
        l % (-r)
    }
}

/// Truncated division wrapped into the signed 128-bit range: the one
/// overflowing case, `i128::MIN / -1`, wraps back to `i128::MIN`.
pub open spec fn div_wrap(l: i128, r: i128) -> int {
    if l == i128::MIN && r == -1 {
        i128::MIN as int
    } else {
        div_trunc(l as int, r as int)
    }
}

/// Truncated remainder of 128-bit values; always in range.
pub open spec fn rem_wrap(l: i128, r: i128) -> int {
    rem_trunc(l as int, r as int)
}

/// The magnitude of `l` as an unsigned 128-bit integer.
fn magnitude(l: i128) -> (r: u128)
    ensures
        r as int == if l >= 0 {
            l as int
        } else {
            -(l as int)
        },
{
    if l >= 0 {
        l as u128
    } else if l == i128::MIN {
        170141183460469231731687303715884105728u128
    } else {
        (-l) as u128
    }
}

/// Truncated division on 128-bit values, wrapping on the one overflowing
/// case.
pub fn div_exec(l: i128, r: i128) -> (q: i128)
    requires
        r != 0,
    ensures
        q as int == div_wrap(l, r),
{
    let ul = magnitude(l);
    let ur = magnitude(r);
    let uq = ul / ur;
    let neg = (l < 0) != (r < 0);
    proof {
        lemma_div_nonincreasing(ul as int, ur as int);
    }
    if neg {
        if uq == 170141183460469231731687303715884105728u128 {
            proof {
                assert(!(l == i128::MIN && r == -1));
                assert(div_wrap(l, r) == div_trunc(l as int, r as int));
                assert(div_trunc(l as int, r as int) == -(uq as int));
            }
            i128::MIN
        } else {
            proof {
                assert(div_trunc(l as int, r as int) == -(uq as int));
            }
            -(uq as i128)
        }
    } else {
        if uq == 170141183460469231731687303715884105728u128 {
            // only `i128::MIN / -1` reaches this: the wrapping case
            proof {
                if ur >= 2 {
                    lemma_div_is_ordered_by_denominator(ul as int, 2, ur as int);
                    lemma_div_is_ordered(ul as int, 170141183460469231731687303715884105728, 2);
                    assert(false);
                }
                lemma_div_basics(ul as int);
                assert(l == i128::MIN && r == -1);
            }
            i128::MIN
        } else {
            proof {
                lemma_div_basics(ul as int);
            }
            uq as i128
        }
    }
}

/// 0 or 1 as the shell encodes truth values.
pub open spec fn bool_to_01(b: bool) -> int {
    if b {
        1
    } else {
        0
    }
}

/// Left shift with the shell's conventions: a negative count yields 0, and a
/// count of 128 or more is taken modulo 128.
pub open spec fn shl_wrap(l: i128, r: i128) -> int {
    if r < 0 {
        0
    } else {
        i128_specs::wrapping_shl(l, ((r as int) % 128) as u32) as int
    }
}

/// Right (arithmetic) shift with the same conventions as `shl_wrap`.
pub open spec fn shr_wrap(l: i128, r: i128) -> int {
    if r < 0 {
        0
    } else {
        i128_specs::wrapping_shr(l, ((r as int) % 128) as u32) as int
    }
}

/// The recognized unary operators.
pub open spec fn unary_op_known(op: Seq<char>) -> bool {
    op == seq!['+'] || op == seq!['-'] || op == seq!['!'] || op == seq!['~']
}

/// The value a unary operator yields: `+` keeps, `-` negates (wrapping), `!`
/// is boolean not, `~` is the bitwise complement `-n - 1`.
pub open spec fn unary_val(op: Seq<char>, n: i128) -> int {
    if op == seq!['+'] {
        n as int
    } else if op == seq!['-'] {
        i128_specs::wrapping_sub(0i128, n) as int
    } else if op == seq!['!'] {
        bool_to_01(n == 0)
    } else {
        -(n as int) - 1
    }
}

/// The recognized binary operators.
pub open spec fn bin_op_known(op: Seq<char>) -> bool {
    ||| op == seq!['+']
    ||| op == seq!['-']
    ||| op == seq!['*']
    ||| op == seq!['&']
    ||| op == seq!['^']
    ||| op == seq!['|']
    ||| op == seq!['&', '&']
    ||| op == seq!['|', '|']
    ||| op == seq!['<', '<']
    ||| op == seq!['>', '>']
    ||| op == seq!['<', '=']
    ||| op == seq!['>', '=']
    ||| op == seq!['<']
    ||| op == seq!['>']
    ||| op == seq!['=', '=']
    ||| op == seq!['!', '=']
    ||| op == seq!['%']
    ||| op == seq!['/']
    ||| op == seq!['*', '*']
}

/// Whether the operator application succeeds: division and modulo need a
/// non-zero divisor, exponentiation a non-negative exponent.
pub open spec fn bin_ok(op: Seq<char>, l: i128, r: i128) -> bool {
    &&& !((op == seq!['/'] || op == seq!['%']) && r == 0)
    &&& !(op == seq!['*', '*'] && r < 0)
}

/// The value a successful binary operator application yields.
pub open spec fn bin_val(op: Seq<char>, l: i128, r: i128) -> int {
    if op == seq!['+'] {
        i128_specs::wrapping_add(l, r) as int
    } else if op == seq!['-'] {
        i128_specs::wrapping_sub(l, r) as int
    } else if op == seq!['*'] {
        i128_specs::wrapping_mul(l, r) as int
    } else if op == seq!['&'] {
        (l & r) as int
    } else if op == seq!['^'] {
        (l ^ r) as int
    } else if op == seq!['|'] {
        (l | r) as int
    } else if op == seq!['&', '&'] {
        bool_to_01(l != 0 && r != 0)
    } else if op == seq!['|', '|'] {
        bool_to_01(l != 0 || r != 0)
    } else if op == seq!['<', '<'] {
        shl_wrap(l, r)
    } else if op == seq!['>', '>'] {
        shr_wrap(l, r)
    } else if op == seq!['<', '='] {
        bool_to_01(l <= r)
    } else if op == seq!['>', '='] {
        bool_to_01(l >= r)
    } else if op == seq!['<'] {
        bool_to_01(l < r)
    } else if op == seq!['>'] {
        bool_to_01(l > r)
    } else if op == seq!['=', '='] {
        bool_to_01(l == r)
    } else if op == seq!['!', '='] {
        bool_to_01(l != r)
    } else if op == seq!['%'] {
        rem_wrap(l, r)
    } else if op == seq!['/'] {
        div_wrap(l, r)
    } else {
        pow_wrap(l, if r >= 0 { r as nat } else { 0nat })
    }
}

/// The diagnostic text a division or modulo by zero carries: the two operands
/// around a `/`, as the shell renders the failing expression.
pub open spec fn div_zero_expr(l: i128, r: i128) -> Seq<char> {
    dec_chars(l as int) + seq![' ', '/', ' '] + dec_chars(r as int)
}

/// The error a failing binary operator application yields.
pub open spec fn bin_err(op: Seq<char>, l: i128, r: i128) -> ErrView {
    if (op == seq!['/'] || op == seq!['%']) && r == 0 {
        ErrView::DivZero(div_zero_expr(l, r), dec_chars(r as int))
    } else {
        ErrView::Exponent(r as int)
    }
}

/// Applies a unary operator to `num` and pushes the result.
pub fn unary_calc(op: &str, num: i128, stack: &mut Vec<ArithElem>) -> (res: Result<(), ExecError>)
    requires
        unary_op_known(op@),
    ensures
        res is Ok,
        final(stack)@.len() == old(stack)@.len() + 1,
        final(stack)@.drop_last() == old(stack)@,
        final(stack)@.last() matches ArithElem::Integer(v) && v as int == unary_val(op@, num),
{
    let v = chars_vec(op);
    let mut x: i128 = 0;
    if v.len() == 1 {
        let c = v[0];
        if c == '+' {
            proof {
                assert(op@ =~= seq!['+']);
            }
            x = num;
        } else if c == '-' {
            proof {
                assert(op@ =~= seq!['-']);
            }
            x = 0i128.wrapping_sub(num);
        } else if c == '!' {
            proof {
                assert(op@ =~= seq!['!']);
            }
            x = if num == 0 {
                1
            } else {
                0
            };
        } else {
            proof {
                assert(op@ =~= seq!['~']);
            }
            x = 0i128.wrapping_sub(num).wrapping_sub(1);
        }
    } else {
        proof {
            assert(false);
        }
    }
    stack.push(ArithElem::Integer(x));
    proof {
        assert(final(stack)@.drop_last() =~= old(stack)@);
    }
    Ok(())
}

/// Applies a binary operator to `left` and `right` and pushes the result;
/// division or modulo by zero and a negative exponent fail without touching
/// the stack.
pub fn bin_calc(op: &str, left: i128, right: i128, stack: &mut Vec<ArithElem>) -> (res: Result<
    (),
    ExecError,
>)
    requires
        bin_op_known(op@),
    ensures
        match res {
            Ok(_) => {
                &&& bin_ok(op@, left, right)
                &&& final(stack)@.len() == old(stack)@.len() + 1
                &&& final(stack)@.drop_last() == old(stack)@
                &&& final(stack)@.last() matches ArithElem::Integer(v) && v as int == bin_val(
                    op@,
                    left,
                    right,
                )
            },
            Err(e) => {
                &&& !bin_ok(op@, left, right)
                &&& final(stack)@ == old(stack)@
                &&& e@ == bin_err(op@, left, right)
            },
        },
{
    let v = chars_vec(op);
    let mut x: i128 = 0;
    if v.len() == 1 {
        let c = v[0];
        if c == '+' {
            proof {
                assert(op@ =~= seq!['+']);
            }
            x = left.wrapping_add(right);
        } else if c == '-' {
            proof {
                assert(op@ =~= seq!['-']);
            }
            x = left.wrapping_sub(right);
        } else if c == '*' {
            proof {
                assert(op@ =~= seq!['*']);
            }
            x = left.wrapping_mul(right);
        } else if c == '&' {
            proof {
                assert(op@ =~= seq!['&']);
            }
            x = left & right;
        } else if c == '^' {
            proof {
                assert(op@ =~= seq!['^']);
            }
            x = left ^ right;
        } else if c == '|' {
            proof {
                assert(op@ =~= seq!['|']);
            }
            x = left | right;
        } else if c == '<' {
            proof {
                assert(op@ =~= seq!['<']);
            }
            x = if left < right {
                1
            } else {
                0
            };
        } else if c == '>' {
            proof {
                assert(op@ =~= seq!['>']);
            }
            x = if left > right {
                1
            } else {
                0
            };
        } else if c == '%' || c == '/' {
            proof {
                if c == '%' {
                    assert(op@ =~= seq!['%']);
                } else {
                    assert(op@ =~= seq!['/']);
                }
            }
            if right == 0 {
                let mut expr = dec_string(left);
                push_char(&mut expr, ' ');
                push_char(&mut expr, '/');
                push_char(&mut expr, ' ');
                let rs = dec_string(right);
                expr.append(rs.as_str());
                proof {
                    assert(expr@ =~= div_zero_expr(left, right));
                }
                return Err(ExecError::DivZero(expr, dec_string(right)));
            }
            x = if c == '%' {
                rem_exec(left, right)
            } else {
                div_exec(left, right)
            };
        } else {
            proof {
                assert(false);
            }
        }
    } else {
        let c0 = v[0];
        let c1 = v[1];
        if c0 == '&' && c1 == '&' {
            proof {
                assert(op@ =~= seq!['&', '&']);
            }
            x = if left != 0 && right != 0 {
                1
            } else {
                0
            };
        } else if c0 == '|' && c1 == '|' {
            proof {
                assert(op@ =~= seq!['|', '|']);
            }
            x = if left != 0 || right != 0 {
                1
            } else {
                0
            };
        } else if c0 == '<' && c1 == '<' {
            proof {
                assert(op@ =~= seq!['<', '<']);
            }
            x = if right < 0 {
                0
            } else {
                shl_exec(left, right)
            };
        } else if c0 == '>' && c1 == '>' {
            proof {
                assert(op@ =~= seq!['>', '>']);
            }
            x = if right < 0 {
                0
            } else {
                shr_exec(left, right)
            };
        } else if c0 == '<' && c1 == '=' {
            proof {
                assert(op@ =~= seq!['<', '=']);
            }
            x = if left <= right {
                1
            } else {
                0
            };
        } else if c0 == '>' && c1 == '=' {
            proof {
                assert(op@ =~= seq!['>', '=']);
            }
            x = if left >= right {
                1
            } else {
                0
            };
        } else if c0 == '=' && c1 == '=' {
            proof {
                assert(op@ =~= seq!['=', '=']);
            }
            x = if left == right {
                1
            } else {
                0
            };
        } else if c0 == '!' && c1 == '=' {
            proof {
                assert(op@ =~= seq!['!', '=']);
            }
            x = if left != right {
                1
            } else {
                0
            };
        } else if c0 == '*' && c1 == '*' {
            proof {
                assert(op@ =~= seq!['*', '*']);
            }
            if right < 0 {
                return Err(ExecError::Exponent(right));
            }
            x = pow_exec(left, right as u128);
        } else {
            proof {
                assert(false);
            }
        }
    }
    stack.push(ArithElem::Integer(x));
    proof {
        assert(final(stack)@.drop_last() =~= old(stack)@);
    }
    Ok(())
}

/// The recognized compound-assignment operators.
pub open spec fn subst_op_known(op: Seq<char>) -> bool {
    ||| op == seq!['+', '=']
    ||| op == seq!['-', '=']
    ||| op == seq!['*', '=']
    ||| op == seq!['&', '=']
    ||| op == seq!['^', '=']
    ||| op == seq!['|', '=']
    ||| op == seq!['<', '<', '=']
    ||| op == seq!['>', '>', '=']
    ||| op == seq!['/', '=']
    ||| op == seq!['%', '=']
}

/// Whether the compound assignment's arithmetic succeeds: division and modulo
/// need a non-zero right operand.
pub open spec fn subst_ok(op: Seq<char>, right: i128) -> bool {
    !((op == seq!['/', '='] || op == seq!['%', '=']) && right == 0)
}

/// The value a compound assignment computes from the current value and the
/// right operand, by the same rules as the binary operator table.
pub open spec fn subst_val(op: Seq<char>, cur: i128, right: i128) -> int {
    if op == seq!['+', '='] {
        i128_specs::wrapping_add(cur, right) as int
    } else if op == seq!['-', '='] {
        i128_specs::wrapping_sub(cur, right) as int
    } else if op == seq!['*', '='] {
        i128_specs::wrapping_mul(cur, right) as int
    } else if op == seq!['&', '='] {
        (cur & right) as int
    } else if op == seq!['^', '='] {
        (cur ^ right) as int
    } else if op == seq!['|', '='] {
        (cur | right) as int
    } else if op == seq!['<', '<', '='] {
        shl_wrap(cur, right)
    } else if op == seq!['>', '>', '='] {
        shr_wrap(cur, right)
    } else if op == seq!['%', '='] {
        rem_wrap(cur, right)
    } else {
        div_wrap(cur, right)
    }
}

/// The diagnostic text a failing compound assignment carries: current value,
/// operator and right operand, space-separated.
pub open spec fn subst_expr(cur: i128, op: Seq<char>, right: i128) -> Seq<char> {
    dec_chars(cur as int) + seq![' '] + op + seq![' '] + dec_chars(right as int)
}

/// Applies a compound-assignment operator to a variable's current value and
/// the right operand, writes the result back into the store at `name` (and
/// `index`, for an array element), and returns it for the evaluation stack.
pub fn substitute(
    op: &str,
    name: &str,
    index: &str,
    cur: i128,
    right: i128,
    core: &mut ShellCore,
) -> (r: Result<ArithElem, ExecError>)
    requires
        old(core).db.wf(),
    ensures
        final(core).db.wf(),
        final(core).db.positions_view() == old(core).db.positions_view(),
        !subst_op_known(op@) ==> (r matches Err(e) && e@ == ErrView::OperandExpected(op@)
            && final(core).db.layers_view() == old(core).db.layers_view()),
        subst_op_known(op@) && !subst_ok(op@, right) ==> (r matches Err(e) && e@
            == ErrView::DivZero(subst_expr(cur, op@, right), dec_chars(right as int))
            && final(core).db.layers_view() == old(core).db.layers_view()),
        subst_op_known(op@) && subst_ok(op@, right) ==> (match crate::store::set_elem_model(
            old(core).db.layers_view(),
            name@,
            index@,
            dec_chars(subst_val(op@, cur, right)),
            None,
        ) {
            Ok(ls2) => (r matches Ok(el) && el matches ArithElem::Integer(x) && x as int
                == subst_val(op@, cur, right) && final(core).db.layers_view() =~= ls2),
            Err(v) => (r matches Err(e) && e@ == v
                && final(core).db.layers_view() == old(core).db.layers_view()),
        }),
{
    let v = chars_vec(op);
    let mut x: i128 = 0;
    let mut known = false;
    if v.len() == 2 && v[1] == '=' {
        let c = v[0];
        if c == '+' {
            proof {
                assert(op@ =~= seq!['+', '=']);
            }
            x = cur.wrapping_add(right);
            known = true;
        } else if c == '-' {
            proof {
                assert(op@ =~= seq!['-', '=']);
            }
            x = cur.wrapping_sub(right);
            known = true;
        } else if c == '*' {
            proof {
                assert(op@ =~= seq!['*', '=']);
            }
            x = cur.wrapping_mul(right);
            known = true;
        } else if c == '&' {
            proof {
                assert(op@ =~= seq!['&', '=']);
            }
            x = cur & right;
            known = true;
        } else if c == '^' {
            proof {
                assert(op@ =~= seq!['^', '=']);
            }
            x = cur ^ right;
            known = true;
        } else if c == '|' {
            proof {
                assert(op@ =~= seq!['|', '=']);
            }
            x = cur | right;
            known = true;
        } else if c == '/' || c == '%' {
            proof {
                if c == '/' {
                    assert(op@ =~= seq!['/', '=']);
                } else {
                    assert(op@ =~= seq!['%', '=']);
                }
            }
            if right == 0 {
                let expr = subst_expr_string(cur, &v, right);
                return Err(ExecError::DivZero(expr, dec_string(right)));
            }
            x = if c == '%' {
                rem_exec(cur, right)
            } else {
                div_exec(cur, right)
            };
            known = true;
        }
    } else if v.len() == 3 && v[2] == '=' {
        if v[0] == '<' && v[1] == '<' {
            proof {
                assert(op@ =~= seq!['<', '<', '=']);
            }
            x = if right < 0 {
                0
            } else {
                shl_exec(cur, right)
            };
            known = true;
        } else if v[0] == '>' && v[1] == '>' {
            proof {
                assert(op@ =~= seq!['>', '>', '=']);
            }
            x = if right < 0 {
                0
            } else {
                shr_exec(cur, right)
            };
            known = true;
        }
    }
    if !known {
        proof {
            assert(!subst_op_known(op@));
        }
        return Err(ExecError::OperandExpected(op.to_owned()));
    }
    let rendered = dec_string(x);
    match core.db.set_param2(name, index, rendered.as_str(), None) {
        Ok(_) => Ok(ArithElem::Integer(x)),
        Err(e) => Err(e),
    }
}

/// The rendered `cur op right` text for the divide-by-zero diagnostic.
fn subst_expr_string(cur: i128, opchars: &Vec<char>, right: i128) -> (r: String)
    ensures
        r@ == subst_expr(cur, opchars@, right),
{
    let mut e = dec_string(cur);
    push_char(&mut e, ' ');
    proof {
        assert(e@ =~= dec_chars(cur as int) + seq![' '] + opchars@.take(0));
    }
    let mut k: usize = 0;
    while k < opchars.len()
        invariant
            k <= opchars@.len(),
            e@ == dec_chars(cur as int) + seq![' '] + opchars@.take(k as int),
        decreases opchars@.len() - k,
    {
        push_char(&mut e, opchars[k]);
        k = k + 1;
        proof {
            assert(e@ =~= dec_chars(cur as int) + seq![' '] + opchars@.take(k as int));
        }
    }
    proof {
        assert(opchars@.take(opchars@.len() as int) =~= opchars@);
    }
    push_char(&mut e, ' ');
    let rs = dec_string(right);
    e.append(rs.as_str());
    proof {
        assert(e@ =~= subst_expr(cur, opchars@, right));
    }
    e
}

/// Left shift by a non-negative count, the count taken modulo 128.
fn shl_exec(l: i128, r: i128) -> (x: i128)
    requires
        r >= 0,
    ensures
        x as int == shl_wrap(l, r),
{
    let sh: u32 = ((r as u128) % 128) as u32;
    l.wrapping_shl(sh)
}

/// Arithmetic right shift by a non-negative count, the count taken modulo
/// 128.
fn shr_exec(l: i128, r: i128) -> (x: i128)
    requires
        r >= 0,
    ensures
        x as int == shr_wrap(l, r),
{
    let sh: u32 = ((r as u128) % 128) as u32;
    l.wrapping_shr(sh)
}

/// Truncated remainder on 128-bit values; never overflows.
pub fn rem_exec(l: i128, r: i128) -> (q: i128)
    requires
        r != 0,
    ensures
        q as int == rem_wrap(l, r),
{
    let ul = magnitude(l);
    let ur = magnitude(r);
    let um = ul % ur;
    proof {
        lemma_mod_bound(ul as int, ur as int);
    }
    if l < 0 {
        if um == 0 {
            0
        } else {
            -(um as i128)
        }
    } else {
        um as i128
    }
}

} // verus!
