//! The value of a syntax tree.

use crate::expr::token::{is_digit, Op};
use crate::expr::tree::{Node, NodeView, Tree};
use vstd::prelude::*;
use vstd::string::StringSliceAdditionalSpecFns;

verus! {

/// Why a tree has no value.
#[derive(Debug, Clone, Copy, PartialEq, Eq, Structural)]
pub enum EvalError {
    /// A number is not an optional sign followed by decimal digits, or does
    /// not fit into 64 bits.
    InvalidNumber,
    /// The result of an operation does not fit into 64 bits.
    Overflow,
    /// A division by zero.
    DivisionByZero,
}

/// The number that a run of decimal digits stands for; zero for no digits.
pub open spec fn digits_value(digits: Seq<char>) -> int
    decreases digits.len(),
{
    if digits.len() == 0 {
        0
    } else {
        digits_value(digits.drop_last()) * 10 + (digits.last() as int - '0' as int)
    }
}

/// Whether every character of `text` is a decimal digit.
pub open spec fn all_digits(text: Seq<char>) -> bool {
    forall|i: int| 0 <= i < text.len() ==> is_digit(#[trigger] text[i])
}

/// The number that digits without a sign stand for, if there is a digit and
/// nothing else.
pub open spec fn magnitude(text: Seq<char>) -> Option<int> {
    if text.len() > 0 && all_digits(text) {
        Some(digits_value(text))
    } else {
        None
    }
}

/// Whether `text` starts with a sign.
pub open spec fn has_sign(text: Seq<char>) -> bool {
    text.len() > 0 && (text[0] == '-' || text[0] == '+')
}

/// The number that `text` stands for: an optional sign, then decimal digits
/// and nothing else, with a value that fits into 64 bits.
pub open spec fn number_value(text: Seq<char>) -> Option<int> {
    let signed = if has_sign(text) {
        match magnitude(text.skip(1)) {
            Some(v) => Some(if text[0] == '-' { -v } else { v }),
            None => None,
        }
    } else {
        magnitude(text)
    };
    match signed {
        Some(v) => if i64::MIN <= v <= i64::MAX {
            Some(v)
        } else {
            None
        },
        None => None,
    }
}

/// The quotient of `x` by `d`, rounded towards zero.
pub open spec fn quotient(x: int, d: int) -> int
    recommends
        d != 0,
{
    if x >= 0 && d > 0 {
        x / d
    } else if x < 0 && d < 0 {
        (-x) / (-d)
    } else if x < 0 {
        -((-x) / d)
    } else {
        -(x / (-d))
    }
}

/// The result of `op` on `a` and `b`, where it exists and fits into 64 bits.
pub open spec fn apply(op: Op, a: int, b: int) -> Result<int, EvalError> {
    let exact = match op {
        Op::Add => a + b,
        Op::Sub => a - b,
        Op::Mul => a * b,
        Op::Div => quotient(a, b),
    };
    if op == Op::Div && b == 0 {
        Err(EvalError::DivisionByZero)
    } else if i64::MIN <= exact <= i64::MAX {
        Ok(exact)
    } else {
        Err(EvalError::Overflow)
    }
}

/// The value of a tree: operands are evaluated left to right, and the first
/// failure is the tree's.
pub open spec fn value_of(tree: NodeView) -> Result<int, EvalError>
    decreases tree,
{
    match tree {
        NodeView::Par(inner) => value_of(*inner),
        NodeView::Number(text) => match number_value(text) {
            Some(v) => Ok(v),
            None => Err(EvalError::InvalidNumber),
        },
        NodeView::Expr { op, left, right } => match value_of(*left) {
            Err(e) => Err(e),
            Ok(a) => match value_of(*right) {
                Err(e) => Err(e),
                Ok(b) => apply(op, a, b),
            },
        },
    }
}

/// The digits that a run of digits starts with stand for no more than the
/// whole run.
pub proof fn lemma_digits_value_prefix(digits: Seq<char>, k: int)
    requires
        all_digits(digits),
        0 <= k <= digits.len(),
    ensures
        0 <= digits_value(digits.take(k)) <= digits_value(digits),
    decreases digits.len(),
{
    if k == digits.len() {
        assert(digits.take(k) =~= digits);
        if k > 0 {
            lemma_digits_value_prefix(digits.drop_last(), k - 1);
            assert(digits.drop_last().take(k - 1) =~= digits.drop_last());
            assert(is_digit(digits[k - 1]));
        }
    } else {
        lemma_digits_value_prefix(digits.drop_last(), k);
        assert(digits.drop_last().take(k) =~= digits.take(k));
        assert(is_digit(digits[digits.len() - 1]));
    }
}

/// Reads a number: an optional sign, then decimal digits and nothing else.
/// Gives nothing for any other text, and for a number that does not fit
/// into 64 bits.
pub fn parse_number(text: &str) -> (r: Option<i64>)
    ensures
        match r {
            Some(v) => number_value(text@) == Some(v as int),
            None => number_value(text@) is None,
        },
{
    broadcast use vstd::string::is_ascii_spec_bytes;

    if !text.is_ascii() {
        proof {
            let i = choose|i: int|
                0 <= i < text@.len() && !('\0' <= #[trigger] text@[i] <= '\u{7f}');
            if has_sign(text@) {
                assert(text@.skip(1)[i - 1] == text@[i]);
            }
        }
        return None;
    }
    let bytes = text.as_bytes();
    let n = bytes.len();
    let mut i: usize = 0;
    let mut negative = false;
    if n > 0 && bytes[0] == 45 {
        negative = true;
        i = 1;
    } else if n > 0 && bytes[0] == 43 {
        i = 1;
    }
    let ghost digits = text@.skip(i as int);
    proof {
        if n > 0 {
            assert(bytes@[0] == text@[0] as u8);
        }
        assert(i == 0 ==> digits =~= text@);
        assert(has_sign(text@) <==> i == 1);
    }
    if i == n {
        return None;
    }
    let start = i;
    let mut acc: i64 = 0;
    assert(digits.take(0) =~= Seq::<char>::empty());
    while i < n
        invariant
            vstd::string::is_ascii(text),
            bytes@ == text.spec_bytes(),
            n == text@.len(),
            start <= i <= n,
            start <= 1,
            has_sign(text@) <==> start == 1,
            negative <==> has_sign(text@) && text@[0] == '-',
            start == 0 ==> digits == text@,
            digits == text@.skip(start as int),
            all_digits(digits.take(i - start)),
            negative ==> acc == -digits_value(digits.take(i - start)),
            !negative ==> acc == digits_value(digits.take(i - start)),
        decreases n - i,
    {
        let b = bytes[i];
        assert(b == text@[i as int] as u8);
        assert(digits[i - start] == text@[i as int]);
        if b < 48 || b > 57 {
            assert(!all_digits(digits)) by {
                assert(!is_digit(digits[i - start]));
            }
            return None;
        }
        let d = (b - 48) as i64;
        let ghost shorter = digits.take(i - start);
        let ghost longer = digits.take(i - start + 1);
        proof {
            assert(longer.drop_last() =~= shorter);
            assert(longer.last() == digits[i - start]);
            assert(digits_value(longer) == digits_value(shorter) * 10 + d);
            assert(all_digits(longer)) by {
                assert forall|k: int| 0 <= k < longer.len() implies is_digit(
                    #[trigger] longer[k],
                ) by {
                    if k < shorter.len() {
                        assert(longer[k] == shorter[k]);
                    }
                }
            }
            lemma_digits_value_prefix(shorter, 0);
            if all_digits(digits) {
                lemma_digits_value_prefix(digits, i - start + 1);
            }
        }
        let scaled = match acc.checked_mul(10) {
            Some(v) => v,
            None => {
                return None;
            },
        };
        let next = if negative {
            scaled.checked_sub(d)
        } else {
            scaled.checked_add(d)
        };
        acc = match next {
            Some(v) => v,
            None => {
                return None;
            },
        };
        i += 1;
    }
    assert(digits.take(n - start) =~= digits);
    Some(acc)
}

/// The value of `tree`, computed in 64 bits.
pub fn eval_tree(tree: &Tree) -> (r: Result<i64, EvalError>)
    ensures
        match r {
            Ok(v) => value_of(tree@) == Ok::<int, EvalError>(v as int),
            Err(e) => value_of(tree@) == Err::<int, EvalError>(e),
        },
    decreases tree,
{
    match &**tree {
        Node::Expr { op, left, right } => {
            let vl = match eval_tree(left) {
                Ok(v) => v,
                Err(e) => {
                    return Err(e);
                },
            };
            let vr = match eval_tree(right) {
                Ok(v) => v,
                Err(e) => {
                    return Err(e);
                },
            };
            let v = match op {
                Op::Add => vl.checked_add(vr),
                Op::Sub => vl.checked_sub(vr),
                Op::Mul => vl.checked_mul(vr),
                Op::Div => {
                    if vr == 0 {
                        return Err(EvalError::DivisionByZero);
                    }
                    vl.checked_div(vr)
                },
            };
            match v {
                Some(v) => Ok(v),
                None => Err(EvalError::Overflow),
            }
        },
        Node::Par(inner) => eval_tree(inner),
        Node::Number(text) => match parse_number(text.as_str()) {
            Some(v) => Ok(v),
            None => Err(EvalError::InvalidNumber),
        },
    }
}

} // verus!
