//! The values of expressions and conditions.
//!
//! Numbers are 32-bit integers. A product is folded from the left, starting
//! from 1; a sum is folded from the left, starting from 0 or from its first
//! term. The operands are evaluated in order, and the first fault ends the
//! evaluation.

use crate::ast::{AstNode, BiOp, ExOp, Sign};
use crate::error::EvalError;
use crate::scope::{resolve, CallStack, FrameView};
use vstd::prelude::*;

verus! {

/// `value` as a 32-bit number, or `Overflow` where it does not fit.
pub open spec fn checked(value: int) -> Result<i32, EvalError> {
    if i32::MIN <= value <= i32::MAX {
        Ok(value as i32)
    } else {
        Err(EvalError::Overflow)
    }
}

/// The quotient of `a` by `b`, rounded toward zero.
pub open spec fn truncated_quotient(a: int, b: int) -> int
    recommends
        b != 0,
{
    if a >= 0 && b > 0 {
        a / b
    } else if a >= 0 {
        -(a / (-b))
    } else if b > 0 {
        -((-a) / b)
    } else {
        (-a) / (-b)
    }
}

/// One step of a product: `acc * value` or `acc / value`.
pub open spec fn product_step(op: BiOp, acc: i32, value: i32) -> Result<i32, EvalError> {
    match op {
        BiOp::Mul => checked(acc * value),
        BiOp::Div => if value == 0 {
            Err(EvalError::DivisionByZero)
        } else {
            checked(truncated_quotient(acc as int, value as int))
        },
    }
}

/// One step of a sum: `acc + value` or `acc - value`.
pub open spec fn sum_step(sign: Sign, acc: i32, value: i32) -> Result<i32, EvalError> {
    match sign {
        Sign::Plus => checked(acc + value),
        Sign::Minus => checked(acc - value),
    }
}

/// What a relational operator says of two numbers.
pub open spec fn compare(op: ExOp, left: i32, right: i32) -> bool {
    match op {
        ExOp::Equal => left == right,
        ExOp::NumberSign => left != right,
        ExOp::LessThan => left < right,
        ExOp::LessThanOrEqual => left <= right,
        ExOp::GreaterThan => left > right,
        ExOp::GreaterThanOrEqual => left >= right,
    }
}

/// The operator in front of `factors[i]`: the first factor is multiplied
/// into the product.
pub open spec fn op_before(ops: Seq<BiOp>, i: int) -> BiOp {
    if i == 0 {
        BiOp::Mul
    } else {
        ops[i - 1]
    }
}

/// The sign in front of `terms[i]`, where the first `unsigned` terms (none or
/// one) have no sign of their own and count as positive.
pub open spec fn sign_before(signs: Seq<Sign>, unsigned: int, i: int) -> Sign {
    if i < unsigned {
        Sign::Plus
    } else {
        signs[i - unsigned]
    }
}

/// The value of an expression node in the scopes `frames`.
///
/// A node that stands for no value, and a product or sum whose operators do
/// not agree in number with its operands, is an `InvariantViolation`.
pub open spec fn value_of(node: AstNode, frames: Seq<FrameView>) -> Result<i32, EvalError>
    decreases node, 0nat,
{
    match node {
        AstNode::Number(n) => Ok(n),
        AstNode::Ident(name) => match resolve(frames, name@) {
            Some(value) => Ok(value),
            None => Err(EvalError::UnresolvedIdentifier),
        },
        AstNode::Factor(inner) => value_of(*inner, frames),
        AstNode::Term { factors, ops } => if ops.len() + 1 == factors.len() {
            product_from(factors, ops, frames, 0, 1)
        } else {
            Err(EvalError::InvariantViolation)
        },
        AstNode::Expression { terms, signs } => if signs.len() == terms.len() {
            sum_from(terms, signs, frames, 0, 0)
        } else if signs.len() + 1 == terms.len() {
            match value_of(terms[0], frames) {
                Ok(first) => sum_from(terms, signs, frames, 1, first),
                Err(e) => Err(e),
            }
        } else {
            Err(EvalError::InvariantViolation)
        },
        _ => Err(EvalError::InvariantViolation),
    }
}

/// The product `acc op factors[i] op factors[i + 1] ...` to the last factor.
pub open spec fn product_from(
    factors: Vec<AstNode>,
    ops: Vec<BiOp>,
    frames: Seq<FrameView>,
    i: nat,
    acc: i32,
) -> Result<i32, EvalError>
    decreases factors, factors.len() - i,
{
    if i >= factors.len() {
        Ok(acc)
    } else {
        match value_of(factors[i as int], frames) {
            Ok(value) => match product_step(op_before(ops@, i as int), acc, value) {
                Ok(next) => product_from(factors, ops, frames, i + 1, next),
                Err(e) => Err(e),
            },
            Err(e) => Err(e),
        }
    }
}

/// The sum `acc ± terms[i] ± terms[i + 1] ...` to the last term, each term
/// with the sign in front of it.
pub open spec fn sum_from(
    terms: Vec<AstNode>,
    signs: Vec<Sign>,
    frames: Seq<FrameView>,
    i: nat,
    acc: i32,
) -> Result<i32, EvalError>
    decreases terms, terms.len() - i,
{
    if i >= terms.len() {
        Ok(acc)
    } else {
        match value_of(terms[i as int], frames) {
            Ok(value) => match sum_step(
                sign_before(signs@, terms.len() - signs.len(), i as int),
                acc,
                value,
            ) {
                Ok(next) => sum_from(terms, signs, frames, i + 1, next),
                Err(e) => Err(e),
            },
            Err(e) => Err(e),
        }
    }
}

/// Whether a condition node holds in the scopes `frames`. A number is odd
/// when 2 does not divide it, whatever its sign. A node that is neither an
/// odd-test nor a comparison is an `InvariantViolation`.
pub open spec fn truth_of(node: AstNode, frames: Seq<FrameView>) -> Result<bool, EvalError> {
    match node {
        AstNode::Odd(ex) => match value_of(*ex, frames) {
            Ok(value) => Ok(value % 2 != 0),
            Err(e) => Err(e),
        },
        AstNode::ComposedExpression { ex1, op, ex2 } => match value_of(*ex1, frames) {
            Ok(left) => match value_of(*ex2, frames) {
                Ok(right) => Ok(compare(op, left, right)),
                Err(e) => Err(e),
            },
            Err(e) => Err(e),
        },
        _ => Err(EvalError::InvariantViolation),
    }
}

/// Multiplies or divides two numbers; the division rounds toward zero.
pub fn apply_op(op: BiOp, acc: i32, value: i32) -> (result: Result<i32, EvalError>)
    ensures
        result == product_step(op, acc, value),
{
    match op {
        BiOp::Mul => match acc.checked_mul(value) {
            Some(product) => Ok(product),
            None => Err(EvalError::Overflow),
        },
        BiOp::Div => {
            if value == 0 {
                Err(EvalError::DivisionByZero)
            } else {
                assert(0int / (value as int) == 0) by (nonlinear_arith)
                    requires
                        value != 0,
                ;
                match acc.checked_div(value) {
                    Some(quotient) => Ok(quotient),
                    None => Err(EvalError::Overflow),
                }
            }
        },
    }
}

/// Adds or subtracts two numbers.
pub fn apply_sign(sign: Sign, acc: i32, value: i32) -> (result: Result<i32, EvalError>)
    ensures
        result == sum_step(sign, acc, value),
{
    let sum = match sign {
        Sign::Plus => acc.checked_add(value),
        Sign::Minus => acc.checked_sub(value),
    };
    match sum {
        Some(sum) => Ok(sum),
        None => Err(EvalError::Overflow),
    }
}

/// Applies a relational operator to two numbers.
pub fn apply_relation(op: ExOp, left: i32, right: i32) -> (result: bool)
    ensures
        result == compare(op, left, right),
{
    match op {
        ExOp::Equal => left == right,
        ExOp::NumberSign => left != right,
        ExOp::LessThan => left < right,
        ExOp::LessThanOrEqual => left <= right,
        ExOp::GreaterThan => left > right,
        ExOp::GreaterThanOrEqual => left >= right,
    }
}

/// Evaluates an expression node against the call stack.
pub fn evaluate(node: &AstNode, stack: &CallStack) -> (result: Result<i32, EvalError>)
    ensures
        result == value_of(*node, stack@),
    decreases node, 0nat,
{
    match node {
        AstNode::Number(n) => Ok(*n),
        AstNode::Ident(name) => stack.resolve_ref(name),
        AstNode::Factor(inner) => evaluate(inner, stack),
        AstNode::Term { factors, ops } => {
            if factors.len() == 0 || ops.len() != factors.len() - 1 {
                Err(EvalError::InvariantViolation)
            } else {
                evaluate_product(factors, ops, stack)
            }
        },
        AstNode::Expression { terms, signs } => {
            if signs.len() == terms.len() {
                evaluate_sum(terms, signs, stack, 0, 0)
            } else if terms.len() >= 1 && signs.len() == terms.len() - 1 {
                match evaluate(&terms[0], stack) {
                    Ok(first) => evaluate_sum(terms, signs, stack, 1, first),
                    Err(e) => Err(e),
                }
            } else {
                Err(EvalError::InvariantViolation)
            }
        },
        _ => Err(EvalError::InvariantViolation),
    }
}

/// Folds a product from the left, starting from 1.
fn evaluate_product(factors: &Vec<AstNode>, ops: &Vec<BiOp>, stack: &CallStack) -> (result: Result<
    i32,
    EvalError,
>)
    requires
        ops.len() + 1 == factors.len(),
    ensures
        result == product_from(*factors, *ops, stack@, 0, 1),
    decreases factors, 1nat,
{
    let mut acc: i32 = 1;
    let mut i: usize = 0;
    while i < factors.len()
        invariant
            i <= factors.len(),
            ops.len() + 1 == factors.len(),
            product_from(*factors, *ops, stack@, i as nat, acc) == product_from(
                *factors,
                *ops,
                stack@,
                0,
                1,
            ),
        decreases factors.len() - i,
    {
        let value = match evaluate(&factors[i], stack) {
            Ok(value) => value,
            Err(e) => {
                return Err(e);
            },
        };
        let op = if i == 0 {
            BiOp::Mul
        } else {
            ops[i - 1]
        };
        acc = match apply_op(op, acc, value) {
            Ok(next) => next,
            Err(e) => {
                return Err(e);
            },
        };
        i += 1;
    }
    Ok(acc)
}

/// Folds the terms from `terms[from]` on into the sum `acc`.
fn evaluate_sum(
    terms: &Vec<AstNode>,
    signs: &Vec<Sign>,
    stack: &CallStack,
    from: usize,
    start: i32,
) -> (result: Result<i32, EvalError>)
    requires
        from <= terms.len(),
        signs.len() + from == terms.len(),
    ensures
        result == sum_from(*terms, *signs, stack@, from as nat, start),
    decreases terms, 1nat,
{
    let mut acc = start;
    let mut i: usize = from;
    while i < terms.len()
        invariant
            from <= i <= terms.len(),
            signs.len() + from == terms.len(),
            sum_from(*terms, *signs, stack@, i as nat, acc) == sum_from(
                *terms,
                *signs,
                stack@,
                from as nat,
                start,
            ),
        decreases terms.len() - i,
    {
        let value = match evaluate(&terms[i], stack) {
            Ok(value) => value,
            Err(e) => {
                return Err(e);
            },
        };
        acc = match apply_sign(signs[i - from], acc, value) {
            Ok(next) => next,
            Err(e) => {
                return Err(e);
            },
        };
        i += 1;
    }
    Ok(acc)
}

/// Evaluates a condition node against the call stack.
pub fn evaluate_condition(node: &AstNode, stack: &CallStack) -> (result: Result<bool, EvalError>)
    ensures
        result == truth_of(*node, stack@),
{
    match node {
        AstNode::Odd(ex) => match evaluate(ex, stack) {
            Ok(value) => Ok(value % 2 != 0),
            Err(e) => Err(e),
        },
        AstNode::ComposedExpression { ex1, op, ex2 } => {
            let left = match evaluate(ex1, stack) {
                Ok(left) => left,
                Err(e) => {
                    return Err(e);
                },
            };
            match evaluate(ex2, stack) {
                Ok(right) => Ok(apply_relation(*op, left, right)),
                Err(e) => Err(e),
            }
        },
        _ => Err(EvalError::InvariantViolation),
    }
}

/// A sum means the same with and without an explicit leading `+`: the tree
/// with one sign less than terms and the tree with a `Plus` put in front of
/// its signs have the same value, and fail alike.
pub proof fn lemma_leading_plus_is_implicit(
    terms: Vec<AstNode>,
    signs: Vec<Sign>,
    signed: Vec<Sign>,
    frames: Seq<FrameView>,
)
    requires
        signs.len() + 1 == terms.len(),
        signed@ == seq![Sign::Plus] + signs@,
    ensures
        value_of(AstNode::Expression { terms, signs: signed }, frames) == value_of(
            AstNode::Expression { terms, signs },
            frames,
        ),
{
    assert(signed@[0] == Sign::Plus);
    assert(signed.len() == terms.len());
    let with_sign = AstNode::Expression { terms, signs: signed };
    let without = AstNode::Expression { terms, signs };
    assert(value_of(with_sign, frames) == sum_from(terms, signed, frames, 0, 0));
    match value_of(terms[0], frames) {
        Ok(first) => {
            assert(sum_step(Sign::Plus, 0, first) == Ok::<i32, EvalError>(first));
            assert(sum_from(terms, signed, frames, 0, 0) == sum_from(terms, signed, frames, 1, first));
            assert(value_of(without, frames) == sum_from(terms, signs, frames, 1, first));
            lemma_sums_agree(terms, signs, signed, frames, 1, first);
        },
        Err(_) => {},
    }
}

/// From the second term on, the two forms of a sum fold the same terms with
/// the same signs.
proof fn lemma_sums_agree(
    terms: Vec<AstNode>,
    signs: Vec<Sign>,
    signed: Vec<Sign>,
    frames: Seq<FrameView>,
    i: nat,
    acc: i32,
)
    requires
        signs.len() + 1 == terms.len(),
        signed@ == seq![Sign::Plus] + signs@,
        i >= 1,
    ensures
        sum_from(terms, signed, frames, i, acc) == sum_from(terms, signs, frames, i, acc),
    decreases terms.len() - i,
{
    if i < terms.len() {
        assert(signed@[i as int] == signs@[i - 1]);
        match value_of(terms[i as int], frames) {
            Ok(value) => match sum_step(signs@[i - 1], acc, value) {
                Ok(next) => {
                    lemma_sums_agree(terms, signs, signed, frames, i + 1, next);
                },
                Err(_) => {},
            },
            Err(_) => {},
        }
    }
}

/// A sum is unchanged by a zero in front of it, whatever the sign of the
/// zero: `- 0 + t1 - t2` has the value of `t1 - t2`.
pub proof fn lemma_leading_zero_is_neutral(
    terms: Vec<AstNode>,
    signs: Vec<Sign>,
    longer_terms: Vec<AstNode>,
    longer_signs: Vec<Sign>,
    frames: Seq<FrameView>,
)
    requires
        signs.len() + 1 == terms.len(),
        longer_terms.len() == terms.len() + 1,
        value_of(longer_terms[0], frames) == Ok::<i32, EvalError>(0),
        longer_terms@.subrange(1, longer_terms.len() as int) == terms@,
        longer_signs.len() == longer_terms.len(),
        longer_signs[1] == Sign::Plus,
        longer_signs@.subrange(2, longer_signs.len() as int) == signs@,
    ensures
        value_of(AstNode::Expression { terms: longer_terms, signs: longer_signs }, frames)
            == value_of(AstNode::Expression { terms, signs }, frames),
{
    assert(sum_step(longer_signs[0], 0, 0) == Ok::<i32, EvalError>(0));
    assert(longer_terms[1] == terms@[0]) by {
        assert(longer_terms@.subrange(1, longer_terms.len() as int)[0] == longer_terms[1]);
    }
    assert(sum_from(longer_terms, longer_signs, frames, 0, 0) == sum_from(
        longer_terms,
        longer_signs,
        frames,
        1,
        0,
    ));
    match value_of(terms[0], frames) {
        Ok(first) => {
            lemma_shifted_sums_agree(terms, signs, longer_terms, longer_signs, frames, 1, first);
        },
        Err(_) => {},
    }
}

/// Behind the zero, the longer sum folds the terms and signs of the shorter.
proof fn lemma_shifted_sums_agree(
    terms: Vec<AstNode>,
    signs: Vec<Sign>,
    longer_terms: Vec<AstNode>,
    longer_signs: Vec<Sign>,
    frames: Seq<FrameView>,
    i: nat,
    acc: i32,
)
    requires
        signs.len() + 1 == terms.len(),
        longer_terms.len() == terms.len() + 1,
        longer_terms@.subrange(1, longer_terms.len() as int) == terms@,
        longer_signs.len() == longer_terms.len(),
        longer_signs@.subrange(2, longer_signs.len() as int) == signs@,
        i >= 1,
    ensures
        sum_from(longer_terms, longer_signs, frames, i + 1, acc) == sum_from(
            terms,
            signs,
            frames,
            i,
            acc,
        ),
    decreases terms.len() - i,
{
    if i < terms.len() {
        let j = i as int;
        assert(longer_terms[j + 1] == terms@[j]) by {
            assert(longer_terms@.subrange(1, longer_terms.len() as int)[j] == longer_terms[j + 1]);
        }
        assert(longer_signs[j + 1] == signs@[j - 1]) by {
            assert(longer_signs@.subrange(2, longer_signs.len() as int)[j - 1] == longer_signs[j
                + 1]);
        }
        match value_of(terms[i as int], frames) {
            Ok(value) => match sum_step(signs@[i - 1], acc, value) {
                Ok(next) => {
                    lemma_shifted_sums_agree(
                        terms,
                        signs,
                        longer_terms,
                        longer_signs,
                        frames,
                        i + 1,
                        next,
                    );
                },
                Err(_) => {},
            },
            Err(_) => {},
        }
    }
}

/// An expression of the grammar has a value or an honest fault: its
/// evaluation never ends in `InvariantViolation`.
pub proof fn lemma_expression_is_never_malformed(node: AstNode, frames: Seq<FrameView>)
    requires
        node.is_expression(),
    ensures
        value_of(node, frames) != Err::<i32, EvalError>(EvalError::InvariantViolation),
    decreases node, 0nat,
{
    match node {
        AstNode::Factor(inner) => {
            lemma_expression_is_never_malformed(*inner, frames);
        },
        AstNode::Term { factors, ops } => {
            lemma_product_is_never_malformed(factors, ops, frames, 0, 1);
        },
        AstNode::Expression { terms, signs } => {
            if signs.len() == terms.len() {
                lemma_sum_is_never_malformed(terms, signs, frames, 0, 0);
            } else {
                lemma_expression_is_never_malformed(terms[0], frames);
                match value_of(terms[0], frames) {
                    Ok(first) => {
                        lemma_sum_is_never_malformed(terms, signs, frames, 1, first);
                    },
                    Err(_) => {},
                }
            }
        },
        _ => {},
    }
}

/// A product of expressions of the grammar never ends in
/// `InvariantViolation`.
pub proof fn lemma_product_is_never_malformed(
    factors: Vec<AstNode>,
    ops: Vec<BiOp>,
    frames: Seq<FrameView>,
    i: nat,
    acc: i32,
)
    requires
        forall|j: int| 0 <= j < factors.len() ==> (#[trigger] factors[j]).is_expression(),
    ensures
        product_from(factors, ops, frames, i, acc) != Err::<i32, EvalError>(
            EvalError::InvariantViolation,
        ),
    decreases factors, factors.len() - i,
{
    if i < factors.len() {
        lemma_expression_is_never_malformed(factors[i as int], frames);
        match value_of(factors[i as int], frames) {
            Ok(value) => match product_step(op_before(ops@, i as int), acc, value) {
                Ok(next) => {
                    lemma_product_is_never_malformed(factors, ops, frames, i + 1, next);
                },
                Err(_) => {},
            },
            Err(_) => {},
        }
    }
}

/// A sum of expressions of the grammar never ends in `InvariantViolation`.
pub proof fn lemma_sum_is_never_malformed(
    terms: Vec<AstNode>,
    signs: Vec<Sign>,
    frames: Seq<FrameView>,
    i: nat,
    acc: i32,
)
    requires
        forall|j: int| 0 <= j < terms.len() ==> (#[trigger] terms[j]).is_expression(),
    ensures
        sum_from(terms, signs, frames, i, acc) != Err::<i32, EvalError>(
            EvalError::InvariantViolation,
        ),
    decreases terms, terms.len() - i,
{
    if i < terms.len() {
        lemma_expression_is_never_malformed(terms[i as int], frames);
        match value_of(terms[i as int], frames) {
            Ok(value) => match sum_step(
                sign_before(signs@, terms.len() - signs.len(), i as int),
                acc,
                value,
            ) {
                Ok(next) => {
                    lemma_sum_is_never_malformed(terms, signs, frames, i + 1, next);
                },
                Err(_) => {},
            },
            Err(_) => {},
        }
    }
}

/// A condition of the grammar holds or not, or fails honestly: its
/// evaluation never ends in `InvariantViolation`.
pub proof fn lemma_condition_is_never_malformed(node: AstNode, frames: Seq<FrameView>)
    requires
        node.is_condition(),
    ensures
        truth_of(node, frames) != Err::<bool, EvalError>(EvalError::InvariantViolation),
{
    match node {
        AstNode::Odd(ex) => {
            lemma_expression_is_never_malformed(*ex, frames);
        },
        AstNode::ComposedExpression { ex1, op, ex2 } => {
            lemma_expression_is_never_malformed(*ex1, frames);
            lemma_expression_is_never_malformed(*ex2, frames);
        },
        _ => {},
    }
}

/// Division rounds toward zero: the quotient times the divisor is no
/// further from zero than the dividend, by less than the divisor, and what
/// is left has the sign of the dividend.
pub proof fn lemma_quotient_rounds_toward_zero(a: int, b: int)
    requires
        b != 0,
    ensures
        ({
            let left = a - truncated_quotient(a, b) * b;
            &&& (a >= 0 ==> 0 <= left)
            &&& (a <= 0 ==> left <= 0)
            &&& (b > 0 ==> -b < left < b)
            &&& (b < 0 ==> b < left < -b)
        }),
{
    let q = truncated_quotient(a, b);
    if a >= 0 && b > 0 {
        vstd::arithmetic::div_mod::lemma_fundamental_div_mod(a, b);
        vstd::arithmetic::div_mod::lemma_mod_bound(a, b);
        assert(q * b == b * (a / b)) by (nonlinear_arith)
            requires
                q == a / b,
        ;
    } else if a >= 0 {
        vstd::arithmetic::div_mod::lemma_fundamental_div_mod(a, -b);
        vstd::arithmetic::div_mod::lemma_mod_bound(a, -b);
        assert(q * b == (-b) * (a / (-b))) by (nonlinear_arith)
            requires
                q == -(a / (-b)),
        ;
    } else if b > 0 {
        vstd::arithmetic::div_mod::lemma_fundamental_div_mod(-a, b);
        vstd::arithmetic::div_mod::lemma_mod_bound(-a, b);
        assert(q * b == -(b * ((-a) / b))) by (nonlinear_arith)
            requires
                q == -((-a) / b),
        ;
    } else {
        vstd::arithmetic::div_mod::lemma_fundamental_div_mod(-a, -b);
        vstd::arithmetic::div_mod::lemma_mod_bound(-a, -b);
        assert(q * b == -((-b) * ((-a) / (-b)))) by (nonlinear_arith)
            requires
                q == (-a) / (-b),
        ;
    }
}

} // verus!
