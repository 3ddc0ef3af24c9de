//! Exact-arithmetic evaluator walking an expression tree.

use vstd::prelude::*;
use vstd::arithmetic::div_mod::{
    lemma_fundamental_div_mod, lemma_fundamental_div_mod_converse, lemma_mod_multiples_basic,
};

use crate::ast::{BinaryOperator, Expr, UnaryOperator};
use crate::divisor::{
    common_divisor, divides, lemma_common_divisor_divides, lemma_common_divisor_neg,
    lemma_coprime_divides, lemma_mutual_divisors, lemma_reduced_is_lowest,
};
use crate::errors::{EvalError, ExpressionError};
use crate::parser::{parse, spec_parse};

verus! {

/// `x` lies in the range of an `i64`.
pub open spec fn fits(x: int) -> bool {
    i64::MIN <= x <= i64::MAX
}

/// A numerator over a denominator in the one shape a [`Rational`] holds: a
/// positive denominator and no factor left in common.
pub open spec fn lowest(r: (int, int)) -> bool {
    r.1 > 0 && common_divisor(r.0, r.1) == 1
}

/// Divide a pair with a positive denominator by its common divisor.
pub open spec fn reduce(n: int, d: int) -> (int, int) {
    let g = common_divisor(n, d);
    (n / g, d / g)
}

/// What [`Rational::new`] makes of a numerator and a denominator.
pub open spec fn spec_new(n: int, d: int) -> Result<(int, int), EvalError> {
    if d == 0 {
        Err(EvalError::DivisionByZero)
    } else if d < 0 {
        if !fits(-n) || !fits(-d) {
            Err(EvalError::Overflow)
        } else {
            Ok(reduce(-n, -d))
        }
    } else {
        Ok(reduce(n, d))
    }
}

/// What [`Rational::checked_add`] (with `subtract` false) and
/// [`Rational::checked_sub`] (with `subtract` true) make of two values: the
/// crossed numerators, joined, over the product of the denominators, each of
/// the four intermediate results held to the range of an `i64`.
pub open spec fn spec_combine(a: (int, int), b: (int, int), subtract: bool) -> Result<(int, int), EvalError> {
    let left = a.0 * b.1;
    let right = b.0 * a.1;
    let joined = if subtract { left - right } else { left + right };
    let den = a.1 * b.1;
    if !fits(left) || !fits(right) || !fits(joined) || !fits(den) {
        Err(EvalError::Overflow)
    } else {
        spec_new(joined, den)
    }
}

/// What [`Rational::checked_mul`] makes of two values.
pub open spec fn spec_mul(a: (int, int), b: (int, int)) -> Result<(int, int), EvalError> {
    let num = a.0 * b.0;
    let den = a.1 * b.1;
    if !fits(num) || !fits(den) {
        Err(EvalError::Overflow)
    } else {
        spec_new(num, den)
    }
}

/// What [`Rational::checked_div`] makes of two values.
pub open spec fn spec_div(a: (int, int), b: (int, int)) -> Result<(int, int), EvalError> {
    if b.0 == 0 {
        Err(EvalError::DivisionByZero)
    } else {
        let num = a.0 * b.1;
        let den = a.1 * b.0;
        if !fits(num) || !fits(den) {
            Err(EvalError::Overflow)
        } else {
            spec_new(num, den)
        }
    }
}

/// What [`Rational::checked_neg`] makes of a value.
pub open spec fn spec_neg(a: (int, int)) -> Result<(int, int), EvalError> {
    if !fits(-a.0) {
        Err(EvalError::Overflow)
    } else {
        Ok((-a.0, a.1))
    }
}

/// An infix operator applied to two values.
pub open spec fn spec_apply(op: BinaryOperator, a: (int, int), b: (int, int)) -> Result<(int, int), EvalError> {
    match op {
        BinaryOperator::Add => spec_combine(a, b, false),
        BinaryOperator::Sub => spec_combine(a, b, true),
        BinaryOperator::Mul => spec_mul(a, b),
        BinaryOperator::Div => spec_div(a, b),
    }
}

/// The walk [`evaluate`] makes over a tree: the left operand first, then
/// the right one, the first failure being the failure of the whole.
pub open spec fn spec_evaluate(e: Expr) -> Result<(int, int), EvalError>
    decreases e,
{
    match e {
        Expr::Number(v) => Ok((v as int, 1)),
        Expr::UnaryOp { op: _, operand } => match spec_evaluate(*operand) {
            Ok(x) => spec_neg(x),
            Err(err) => Err(err),
        },
        Expr::BinaryOp { op, left, right } => match spec_evaluate(*left) {
            Err(err) => Err(err),
            Ok(l) => match spec_evaluate(*right) {
                Err(err) => Err(err),
                Ok(r) => spec_apply(op, l, r),
            },
        },
    }
}

/// The numerator and denominator a result carries, when it carries any.
pub open spec fn value_of(res: Result<Rational, EvalError>) -> Result<(int, int), EvalError> {
    match res {
        Ok(r) => Ok(r@),
        Err(err) => Err(err),
    }
}

/// An exact rational number, kept as a numerator over a positive
/// denominator with no factor left in common.
///
/// Both halves are an `i64`, so a computation can outgrow the type. Each
/// step that could reports [`EvalError::Overflow`] instead of wrapping or
/// panicking.
#[derive(Debug, Clone, Copy, PartialEq, Eq, Structural)]
pub struct Rational {
    /// Numerator of the reduced pair, carrying the sign of the value.
    numerator: i64,
    /// Denominator of the reduced pair, always greater than zero.
    denominator: i64,
}

impl View for Rational {
    type V = (int, int);

    closed spec fn view(&self) -> (int, int) {
        (self.numerator as int, self.denominator as int)
    }
}

impl Rational {
    /// Every value holds the one shape: a positive denominator, the sign on
    /// the numerator, and no factor left in both halves.
    #[verifier::type_invariant]
    closed spec fn in_lowest_terms(self) -> bool {
        lowest(self@)
    }

    /// Lift an integer to the rational that equals it.
    pub fn from_integer(value: i64) -> (res: Self)
        ensures
            res@ == (value as int, 1int),
    {
        assert(common_divisor(value as int, 1) == 1) by {
            assert((value as int) % 1 == 0);
            assert(crate::divisor::gcd(0, 0) == 0);
            assert(crate::divisor::gcd(1, 0) == 1);
        }
        Rational { numerator: value, denominator: 1 }
    }

    /// Reduce a numerator and a denominator to the one shape this type
    /// holds.
    ///
    /// Returns [`EvalError::DivisionByZero`] when the denominator is zero,
    /// and [`EvalError::Overflow`] when moving the sign off a negative
    /// denominator takes either half past the range of an `i64`.
    pub fn new(numerator: i64, denominator: i64) -> (res: Result<Self, EvalError>)
        ensures
            value_of(res) == spec_new(numerator as int, denominator as int),
    {
        if denominator == 0 {
            return Err(EvalError::DivisionByZero);
        }
        let (signed, positive) = if denominator < 0 {
            let signed = negate(numerator)?;
            let positive = negate(denominator)?;
            (signed, positive)
        } else {
            (numerator, denominator)
        };
        let divisor = greatest_common_divisor(signed, positive);
        Ok(Self::reduced(signed, positive, divisor))
    }

    /// The numerator of the reduced pair.
    pub fn numerator(self) -> (res: i64)
        ensures
            res == self@.0,
            lowest(self@),
    {
        proof {
            use_type_invariant(&self);
        }
        self.numerator
    }

    /// The denominator of the reduced pair.
    pub fn denominator(self) -> (res: i64)
        ensures
            res == self@.1,
            res > 0,
            lowest(self@),
    {
        proof {
            use_type_invariant(&self);
        }
        self.denominator
    }

    /// Add two values, exactly.
    ///
    /// Returns [`EvalError::Overflow`] when a crossed product or their sum
    /// leaves the range of an `i64`.
    pub fn checked_add(self, other: Self) -> (res: Result<Self, EvalError>)
        ensures
            value_of(res) == spec_combine(self@, other@, false),
    {
        self.combine(other, false)
    }

    /// Subtract one value from another, exactly.
    ///
    /// Returns [`EvalError::Overflow`] on the same terms as
    /// [`Self::checked_add`].
    pub fn checked_sub(self, other: Self) -> (res: Result<Self, EvalError>)
        ensures
            value_of(res) == spec_combine(self@, other@, true),
    {
        self.combine(other, true)
    }

    /// Multiply two values, exactly.
    ///
    /// Returns [`EvalError::Overflow`] when either product leaves the range
    /// of an `i64`.
    pub fn checked_mul(self, other: Self) -> (res: Result<Self, EvalError>)
        ensures
            value_of(res) == spec_mul(self@, other@),
    {
        let numerator = match self.numerator.checked_mul(other.numerator) {
            Some(v) => v,
            None => return Err(EvalError::Overflow),
        };
        let denominator = match self.denominator.checked_mul(other.denominator) {
            Some(v) => v,
            None => return Err(EvalError::Overflow),
        };
        Self::new(numerator, denominator)
    }

    /// Divide one value by another, exactly.
    ///
    /// Returns [`EvalError::DivisionByZero`] when the divisor is zero, and
    /// [`EvalError::Overflow`] when either product of the flipped divisor
    /// leaves the range of an `i64`.
    pub fn checked_div(self, other: Self) -> (res: Result<Self, EvalError>)
        ensures
            value_of(res) == spec_div(self@, other@),
    {
        if other.numerator == 0 {
            return Err(EvalError::DivisionByZero);
        }
        let numerator = match self.numerator.checked_mul(other.denominator) {
            Some(v) => v,
            None => return Err(EvalError::Overflow),
        };
        let denominator = match self.denominator.checked_mul(other.numerator) {
            Some(v) => v,
            None => return Err(EvalError::Overflow),
        };
        Self::new(numerator, denominator)
    }

    /// Flip the sign of a value.
    ///
    /// Returns [`EvalError::Overflow`] for the most negative numerator an
    /// `i64` holds, which has no positive counterpart to become.
    pub fn checked_neg(self) -> (res: Result<Self, EvalError>)
        ensures
            value_of(res) == spec_neg(self@),
    {
        proof {
            use_type_invariant(&self);
            assert(common_divisor(-self@.0, self@.1) == common_divisor(self@.0, self@.1)) by {
                lemma_common_divisor_neg(self@.0, self@.1);
            }
        }
        let numerator = negate(self.numerator)?;
        Ok(Rational { numerator, denominator: self.denominator })
    }

    /// Cross-multiply two values and join the crossed numerators, by a
    /// difference when `subtract` holds and by a sum otherwise.
    fn combine(self, other: Self, subtract: bool) -> (res: Result<Self, EvalError>)
        ensures
            value_of(res) == spec_combine(self@, other@, subtract),
    {
        let left = match self.numerator.checked_mul(other.denominator) {
            Some(v) => v,
            None => return Err(EvalError::Overflow),
        };
        let right = match other.numerator.checked_mul(self.denominator) {
            Some(v) => v,
            None => return Err(EvalError::Overflow),
        };
        let joined = if subtract {
            left.checked_sub(right)
        } else {
            left.checked_add(right)
        };
        let numerator = match joined {
            Some(v) => v,
            None => return Err(EvalError::Overflow),
        };
        let denominator = match self.denominator.checked_mul(other.denominator) {
            Some(v) => v,
            None => return Err(EvalError::Overflow),
        };
        Self::new(numerator, denominator)
    }

    /// Divide a signed numerator and a positive denominator by their common
    /// divisor.
    fn reduced(numerator: i64, denominator: i64, divisor: i64) -> (res: Self)
        requires
            denominator > 0,
            divisor == common_divisor(numerator as int, denominator as int),
        ensures
            res@ == reduce(numerator as int, denominator as int),
    {
        proof {
            lemma_common_divisor_divides(numerator as int, denominator as int);
            lemma_reduced_is_lowest(numerator as int, denominator as int);
        }
        let n = exact_quotient(numerator, divisor);
        let d = exact_quotient(denominator, divisor);
        Rational { numerator: n, denominator: d }
    }
}

/// Reducing a pair with a positive denominator keeps its value and lands in
/// lowest terms.
proof fn lemma_reduce_value(n: int, d: int)
    requires
        d > 0,
    ensures
        lowest(reduce(n, d)),
        reduce(n, d).0 * d == n * reduce(n, d).1,
{
    let g = common_divisor(n, d);
    lemma_common_divisor_divides(n, d);
    lemma_reduced_is_lowest(n, d);
    lemma_fundamental_div_mod(n, g);
    lemma_fundamental_div_mod(d, g);
    let n2 = n / g;
    let d2 = d / g;
    assert(n2 * d == n * d2) by (nonlinear_arith)
        requires
            n == g * n2 + 0,
            d == g * d2 + 0,
    ;
}

/// Law: a pair [`Rational::new`] accepts comes back in lowest terms, equal
/// in value to the pair.
pub proof fn law_new_reduces(n: int, d: int)
    ensures
        spec_new(n, d) matches Ok(r) ==> lowest(r) && r.0 * d == n * r.1,
{
    if d > 0 {
        lemma_reduce_value(n, d);
    } else if d < 0 {
        lemma_reduce_value(-n, -d);
        let r = reduce(-n, -d);
        assert(r.0 * d == n * r.1) by (nonlinear_arith)
            requires
                r.0 * (-d) == (-n) * r.1,
        ;
    }
}

/// Law: reducing a value already in lowest terms leaves it alone.
pub proof fn law_lowest_is_fixed(r: (int, int))
    requires
        lowest(r),
    ensures
        spec_new(r.0, r.1) == Ok::<(int, int), EvalError>(r),
{
}

/// Law: each number has one spelling in lowest terms, so two values in
/// lowest terms are equal exactly when the numbers they stand for are.
pub proof fn law_one_spelling(a: (int, int), b: (int, int))
    requires
        lowest(a),
        lowest(b),
    ensures
        a.0 * b.1 == b.0 * a.1 <==> a == b,
{
    if a.0 * b.1 == b.0 * a.1 {
        assert((a.0 * b.1) % a.1 == 0) by {
            lemma_mod_multiples_basic(b.0, a.1);
        }
        lemma_coprime_divides(a.0, a.1, b.1);
        assert((b.0 * a.1) % b.1 == 0) by {
            lemma_mod_multiples_basic(a.0, b.1);
            assert(b.0 * a.1 == a.0 * b.1);
            assert(a.0 * b.1 == b.1 * a.0) by (nonlinear_arith);
        }
        lemma_coprime_divides(b.0, b.1, a.1);
        lemma_mutual_divisors(a.1, b.1);
        assert(a.0 == b.0) by (nonlinear_arith)
            requires
                a.0 * b.1 == b.0 * a.1,
                a.1 == b.1,
                a.1 > 0,
        ;
    }
}

/// Law: a sum or difference that succeeds equals the exact sum or
/// difference of its operands.
pub proof fn law_combine_exact(a: (int, int), b: (int, int), subtract: bool)
    requires
        lowest(a),
        lowest(b),
    ensures
        spec_combine(a, b, subtract) matches Ok(r) ==> lowest(r) && r.0 * (a.1 * b.1) == (if subtract {
            a.0 * b.1 - b.0 * a.1
        } else {
            a.0 * b.1 + b.0 * a.1
        }) * r.1,
{
    let left = a.0 * b.1;
    let right = b.0 * a.1;
    let joined = if subtract { left - right } else { left + right };
    law_new_reduces(joined, a.1 * b.1);
}

/// Law: a product that succeeds equals the exact product of its operands.
pub proof fn law_mul_exact(a: (int, int), b: (int, int))
    requires
        lowest(a),
        lowest(b),
    ensures
        spec_mul(a, b) matches Ok(r) ==> lowest(r) && r.0 * (a.1 * b.1) == (a.0 * b.0) * r.1,
{
    law_new_reduces(a.0 * b.0, a.1 * b.1);
}

/// Law: a quotient that succeeds equals the exact quotient of its
/// operands, and a zero divisor is always refused.
pub proof fn law_div_exact(a: (int, int), b: (int, int))
    requires
        lowest(a),
        lowest(b),
    ensures
        b.0 == 0 ==> spec_div(a, b) == Err::<(int, int), EvalError>(EvalError::DivisionByZero),
        spec_div(a, b) matches Ok(r) ==> lowest(r) && r.0 * (a.1 * b.0) == (a.0 * b.1) * r.1,
{
    law_new_reduces(a.0 * b.1, a.1 * b.0);
}

/// Law: construction fails only for a reason. A zero denominator is refused
/// as a division by zero, and a negative one fails as an overflow exactly
/// when moving the sign off it meets `i64::MIN` in either half; every other
/// pair of `i64`s is accepted (and [`law_new_reduces`] says what it becomes).
pub proof fn law_new_total(n: int, d: int)
    requires
        fits(n),
        fits(d),
    ensures
        (spec_new(n, d) == Err::<(int, int), EvalError>(EvalError::DivisionByZero)) <==> d == 0,
        (spec_new(n, d) == Err::<(int, int), EvalError>(EvalError::Overflow)) <==> (d < 0 && (n
            == i64::MIN || d == i64::MIN)),
        spec_new(n, d) is Ok <==> (d != 0 && !(d < 0 && (n == i64::MIN || d == i64::MIN))),
{
}

/// Law: a product fails only for a reason. It succeeds exactly when the
/// product of the numerators and the product of the denominators both lie in
/// the range of an `i64`, and otherwise reports an overflow.
pub proof fn law_mul_total(a: (int, int), b: (int, int))
    requires
        a.1 > 0,
        b.1 > 0,
    ensures
        spec_mul(a, b) is Ok <==> (fits(a.0 * b.0) && fits(a.1 * b.1)),
        spec_mul(a, b) is Err ==> spec_mul(a, b) == Err::<(int, int), EvalError>(EvalError::Overflow),
{
    assert(a.1 * b.1 > 0) by (nonlinear_arith)
        requires
            a.1 > 0,
            b.1 > 0,
    ;
}

/// Law: a sum or difference fails only for a reason. It succeeds exactly
/// when both crossed products, their sum or difference, and the product of
/// the denominators lie in the range of an `i64`, and otherwise reports an
/// overflow.
pub proof fn law_combine_total(a: (int, int), b: (int, int), subtract: bool)
    requires
        a.1 > 0,
        b.1 > 0,
    ensures
        spec_combine(a, b, subtract) is Ok <==> (fits(a.0 * b.1) && fits(b.0 * a.1) && fits(
            if subtract {
                a.0 * b.1 - b.0 * a.1
            } else {
                a.0 * b.1 + b.0 * a.1
            },
        ) && fits(a.1 * b.1)),
        spec_combine(a, b, subtract) is Err ==> spec_combine(a, b, subtract) == Err::<
            (int, int),
            EvalError,
        >(EvalError::Overflow),
{
    assert(a.1 * b.1 > 0) by (nonlinear_arith)
        requires
            a.1 > 0,
            b.1 > 0,
    ;
}

/// Law: a quotient fails only for a reason. A zero divisor is refused as a
/// division by zero; otherwise it succeeds exactly when the crossed products
/// `a.0 * b.1` and `a.1 * b.0` lie in the range of an `i64` and, where the
/// second is negative, neither is `i64::MIN` (its sign has to move off), and
/// otherwise reports an overflow.
pub proof fn law_div_total(a: (int, int), b: (int, int))
    requires
        a.1 > 0,
        b.1 > 0,
    ensures
        (spec_div(a, b) == Err::<(int, int), EvalError>(EvalError::DivisionByZero)) <==> b.0 == 0,
        spec_div(a, b) is Ok <==> (b.0 != 0 && fits(a.0 * b.1) && fits(a.1 * b.0) && !(a.1 * b.0 < 0
            && (a.0 * b.1 == i64::MIN || a.1 * b.0 == i64::MIN))),
        spec_div(a, b) is Err && b.0 != 0 ==> spec_div(a, b) == Err::<(int, int), EvalError>(
            EvalError::Overflow,
        ),
{
    if b.0 != 0 {
        assert(a.1 * b.0 != 0) by (nonlinear_arith)
            requires
                a.1 > 0,
                b.0 != 0,
        ;
    }
}

/// Law: negation fails only for a reason. It flips the sign of the
/// numerator and keeps the denominator, and fails as an overflow exactly when
/// the flipped numerator leaves the range of an `i64`.
pub proof fn law_neg_total(a: (int, int))
    ensures
        spec_neg(a) == (if i64::MIN <= -a.0 <= i64::MAX {
            Ok::<(int, int), EvalError>((-a.0, a.1))
        } else {
            Err(EvalError::Overflow)
        }),
{
}

/// Law: each operator applies its own operation: `+` the sum, `-` the
/// difference, `*` the product and `/` the quotient.
pub proof fn law_apply_each_operator(op: BinaryOperator, a: (int, int), b: (int, int))
    ensures
        spec_apply(op, a, b) == match op {
            BinaryOperator::Add => spec_combine(a, b, false),
            BinaryOperator::Sub => spec_combine(a, b, true),
            BinaryOperator::Mul => spec_mul(a, b),
            BinaryOperator::Div => spec_div(a, b),
        },
{
}

/// Law: the walk fails only for a reason, one node at a time. A literal is
/// its own value; a prefix minus flips the sign of whatever its operand
/// comes to, failing only when that numerator has no counterpart in range;
/// an infix node hands on the first failure of its operands, left first, and
/// otherwise applies its operator to their values. No other failure arises.
pub proof fn law_evaluate_steps(e: Expr)
    ensures
        match e {
            Expr::Number(v) => spec_evaluate(e) == Ok::<(int, int), EvalError>((v as int, 1)),
            Expr::UnaryOp { op: _, operand } => spec_evaluate(e) == match spec_evaluate(*operand) {
                Err(err) => Err(err),
                Ok(v) => if i64::MIN <= -v.0 <= i64::MAX {
                    Ok::<(int, int), EvalError>((-v.0, v.1))
                } else {
                    Err(EvalError::Overflow)
                },
            },
            Expr::BinaryOp { op, left, right } => spec_evaluate(e) == match spec_evaluate(*left) {
                Err(err) => Err(err),
                Ok(a) => match spec_evaluate(*right) {
                    Err(err) => Err(err),
                    Ok(b) => spec_apply(op, a, b),
                },
            },
        },
{
}

/// The exact value of a tree as a numerator over a nonzero denominator,
/// with no reduction and no bound on size; `None` when some divisor in it is
/// exactly zero.
pub open spec fn exact_value(e: Expr) -> Option<(int, int)>
    decreases e,
{
    match e {
        Expr::Number(v) => Some((v as int, 1)),
        Expr::UnaryOp { op: _, operand } => match exact_value(*operand) {
            Some((p, q)) => Some((-p, q)),
            None => None,
        },
        Expr::BinaryOp { op, left, right } => match (exact_value(*left), exact_value(*right)) {
            (Some((p1, q1)), Some((p2, q2))) => match op {
                BinaryOperator::Add => Some((p1 * q2 + p2 * q1, q1 * q2)),
                BinaryOperator::Sub => Some((p1 * q2 - p2 * q1, q1 * q2)),
                BinaryOperator::Mul => Some((p1 * p2, q1 * q2)),
                BinaryOperator::Div => if p2 == 0 {
                    None
                } else {
                    Some((p1 * q2, q1 * p2))
                },
            },
            _ => None,
        },
    }
}

/// `(p, q)` and `r` stand for the same number.
pub open spec fn same_value(pq: (int, int), r: (int, int)) -> bool {
    pq.1 != 0 && pq.0 * r.1 == r.0 * pq.1
}

/// Multiplying both sides of an equation by a nonzero factor can be undone.
proof fn lemma_cancel(x: int, y: int, k: int)
    requires
        k != 0,
        x * k == y * k,
    ensures
        x == y,
{
    assert(x == y) by (nonlinear_arith)
        requires
            k != 0,
            x * k == y * k,
    ;
}

/// A sum or difference of values equal to two exact values equals their
/// exact sum or difference.
proof fn lemma_combine_compose(
    a: (int, int),
    b: (int, int),
    r: (int, int),
    x: (int, int),
    y: (int, int),
    subtract: bool,
)
    requires
        a.1 > 0,
        b.1 > 0,
        same_value(x, a),
        same_value(y, b),
        r.0 * (a.1 * b.1) == (if subtract {
            a.0 * b.1 - b.0 * a.1
        } else {
            a.0 * b.1 + b.0 * a.1
        }) * r.1,
    ensures
        same_value(
            (
                if subtract {
                    x.0 * y.1 - y.0 * x.1
                } else {
                    x.0 * y.1 + y.0 * x.1
                },
                x.1 * y.1,
            ),
            r,
        ),
{
    let (p1, q1) = x;
    let (p2, q2) = y;
    let k = a.1 * b.1;
    let j = if subtract { a.0 * b.1 - b.0 * a.1 } else { a.0 * b.1 + b.0 * a.1 };
    let num = if subtract { p1 * q2 - p2 * q1 } else { p1 * q2 + p2 * q1 };
    assert(k != 0) by (nonlinear_arith)
        requires
            a.1 > 0,
            b.1 > 0,
            k == a.1 * b.1,
    ;
    assert(q1 * q2 != 0) by (nonlinear_arith)
        requires
            q1 != 0,
            q2 != 0,
    ;
    assert((p1 * q2) * (a.1 * b.1) == (p1 * a.1) * (q2 * b.1)) by (nonlinear_arith);
    assert((p2 * q1) * (a.1 * b.1) == (p2 * b.1) * (q1 * a.1)) by (nonlinear_arith);
    assert((a.0 * q1) * (q2 * b.1) == (q1 * q2) * (a.0 * b.1)) by (nonlinear_arith);
    assert((b.0 * q2) * (q1 * a.1) == (q1 * q2) * (b.0 * a.1)) by (nonlinear_arith);
    let u = p1 * q2;
    let w = p2 * q1;
    assert(num * k == (q1 * q2) * j) by (nonlinear_arith)
        requires
            u * k == (q1 * q2) * (a.0 * b.1),
            w * k == (q1 * q2) * (b.0 * a.1),
            num == (if subtract { u - w } else { u + w }),
            j == (if subtract { a.0 * b.1 - b.0 * a.1 } else { a.0 * b.1 + b.0 * a.1 }),
    ;
    assert((num * r.1) * k == (r.0 * (q1 * q2)) * k) by (nonlinear_arith)
        requires
            num * k == (q1 * q2) * j,
            r.0 * k == j * r.1,
    ;
    lemma_cancel(num * r.1, r.0 * (q1 * q2), k);
}

/// A product of values equal to two exact values equals their exact
/// product.
proof fn lemma_mul_compose(a: (int, int), b: (int, int), r: (int, int), x: (int, int), y: (int, int))
    requires
        a.1 > 0,
        b.1 > 0,
        same_value(x, a),
        same_value(y, b),
        r.0 * (a.1 * b.1) == (a.0 * b.0) * r.1,
    ensures
        same_value((x.0 * y.0, x.1 * y.1), r),
{
    let (p1, q1) = x;
    let (p2, q2) = y;
    let k = a.1 * b.1;
    assert(k != 0) by (nonlinear_arith)
        requires
            a.1 > 0,
            b.1 > 0,
            k == a.1 * b.1,
    ;
    assert(q1 * q2 != 0) by (nonlinear_arith)
        requires
            q1 != 0,
            q2 != 0,
    ;
    assert((p1 * p2) * (a.1 * b.1) == (p1 * a.1) * (p2 * b.1)) by (nonlinear_arith);
    assert((a.0 * q1) * (b.0 * q2) == (q1 * q2) * (a.0 * b.0)) by (nonlinear_arith);
    assert((p1 * p2) * k == (q1 * q2) * (a.0 * b.0));
    assert(((p1 * p2) * r.1) * k == (r.0 * (q1 * q2)) * k) by (nonlinear_arith)
        requires
            (p1 * p2) * k == (q1 * q2) * (a.0 * b.0),
            r.0 * k == (a.0 * b.0) * r.1,
    ;
    lemma_cancel((p1 * p2) * r.1, r.0 * (q1 * q2), k);
}

/// A quotient of values equal to two exact values equals their exact
/// quotient.
proof fn lemma_div_compose(a: (int, int), b: (int, int), r: (int, int), x: (int, int), y: (int, int))
    requires
        a.1 > 0,
        b.1 > 0,
        b.0 != 0,
        same_value(x, a),
        same_value(y, b),
        r.0 * (a.1 * b.0) == (a.0 * b.1) * r.1,
    ensures
        y.0 != 0,
        same_value((x.0 * y.1, x.1 * y.0), r),
{
    let (p1, q1) = x;
    let (p2, q2) = y;
    let k = a.1 * b.0;
    assert(p2 != 0) by (nonlinear_arith)
        requires
            p2 * b.1 == b.0 * q2,
            b.0 != 0,
            q2 != 0,
    ;
    assert(k != 0) by (nonlinear_arith)
        requires
            a.1 > 0,
            b.0 != 0,
            k == a.1 * b.0,
    ;
    assert(q1 * p2 != 0) by (nonlinear_arith)
        requires
            q1 != 0,
            p2 != 0,
    ;
    assert((p1 * q2) * (a.1 * b.0) == (p1 * a.1) * (q2 * b.0)) by (nonlinear_arith);
    assert((a.0 * q1) * (q2 * b.0) == (q1 * a.0) * (b.0 * q2)) by (nonlinear_arith);
    assert((q1 * a.0) * (p2 * b.1) == (q1 * p2) * (a.0 * b.1)) by (nonlinear_arith);
    assert((p1 * q2) * k == (q1 * p2) * (a.0 * b.1));
    assert(((p1 * q2) * r.1) * k == (r.0 * (q1 * p2)) * k) by (nonlinear_arith)
        requires
            (p1 * q2) * k == (q1 * p2) * (a.0 * b.1),
            r.0 * k == (a.0 * b.1) * r.1,
    ;
    lemma_cancel((p1 * q2) * r.1, r.0 * (q1 * p2), k);
}

/// Law: a walk that succeeds yields a value in lowest terms equal to the
/// exact value of the tree, so in particular a tree with an exactly zero
/// divisor never evaluates.
pub proof fn law_evaluate_exact(e: Expr)
    ensures
        spec_evaluate(e) matches Ok(r) ==> lowest(r) && exact_value(e) is Some && same_value(
            exact_value(e)->0,
            r,
        ),
    decreases e,
{
    match e {
        Expr::Number(v) => {
            assert(common_divisor(v as int, 1) == 1) by {
                assert((v as int) % 1 == 0);
                assert(crate::divisor::gcd(0, 0) == 0);
                assert(crate::divisor::gcd(1, 0) == 1);
            }
            assert(spec_evaluate(e) == Ok::<(int, int), EvalError>((v as int, 1int)));
            assert(exact_value(e) == Some((v as int, 1int)));
            assert(lowest((v as int, 1int)));
            assert(same_value((v as int, 1int), (v as int, 1int)));
        },
        Expr::UnaryOp { op: _, operand } => {
            law_evaluate_exact(*operand);
            if let Ok(a) = spec_evaluate(*operand) {
                lemma_common_divisor_neg(a.0, a.1);
                let x = exact_value(*operand)->0;
                assert((-x.0) * a.1 == (-a.0) * x.1) by (nonlinear_arith)
                    requires
                        x.0 * a.1 == a.0 * x.1,
                ;
            }
        },
        Expr::BinaryOp { op, left, right } => {
            law_evaluate_exact(*left);
            law_evaluate_exact(*right);
            if let (Ok(a), Ok(b)) = (spec_evaluate(*left), spec_evaluate(*right)) {
                let x = exact_value(*left)->0;
                let y = exact_value(*right)->0;
                match op {
                    BinaryOperator::Add => {
                        law_combine_exact(a, b, false);
                        if let Ok(r) = spec_combine(a, b, false) {
                            lemma_combine_compose(a, b, r, x, y, false);
                        }
                    },
                    BinaryOperator::Sub => {
                        law_combine_exact(a, b, true);
                        if let Ok(r) = spec_combine(a, b, true) {
                            lemma_combine_compose(a, b, r, x, y, true);
                        }
                    },
                    BinaryOperator::Mul => {
                        law_mul_exact(a, b);
                        if let Ok(r) = spec_mul(a, b) {
                            lemma_mul_compose(a, b, r, x, y);
                        }
                    },
                    BinaryOperator::Div => {
                        law_div_exact(a, b);
                        if let Ok(r) = spec_div(a, b) {
                            lemma_div_compose(a, b, r, x, y);
                        }
                    },
                }
            }
        },
    }
}

/// Reduce an expression tree to its exact rational value.
///
/// Integer leaves lift to rationals, so the whole walk stays in exact
/// arithmetic and a division reduces where a machine division would round.
/// Returns [`EvalError::DivisionByZero`] when a divisor reduces to zero, and
/// [`EvalError::Overflow`] when a step leaves the range of an `i64`.
pub fn evaluate(expr: &Expr) -> (res: Result<Rational, EvalError>)
    ensures
        value_of(res) == spec_evaluate(*expr),
    decreases expr,
{
    match expr {
        Expr::Number(value) => Ok(Rational::from_integer(*value)),
        Expr::UnaryOp { op, operand } => match op {
            UnaryOperator::Neg => {
                let value = evaluate(&**operand)?;
                value.checked_neg()
            },
        },
        Expr::BinaryOp { op, left, right } => {
            let l = evaluate(&**left)?;
            let r = evaluate(&**right)?;
            apply(*op, l, r)
        },
    }
}

/// What [`evaluate_text`] makes of a text: the first failure among the
/// scan, the grammar and the walk, or the value.
pub open spec fn spec_evaluate_text(s: Seq<char>) -> Result<(int, int), ExpressionError> {
    match spec_parse(s) {
        Err(err) => Err(err),
        Ok(e) => match spec_evaluate(e) {
            Ok(v) => Ok(v),
            Err(err) => Err(ExpressionError::Eval(err)),
        },
    }
}

/// The numerator and denominator a text's result carries, when it carries
/// any.
pub open spec fn text_value_of(res: Result<Rational, ExpressionError>) -> Result<(int, int), ExpressionError> {
    match res {
        Ok(r) => Ok(r@),
        Err(err) => Err(err),
    }
}

/// Parse expression text and reduce it to its exact rational value.
///
/// Returns whichever of [`ExpressionError::Lex`], [`ExpressionError::Parse`]
/// and [`ExpressionError::Eval`] the text runs into first.
pub fn evaluate_text(text: &str) -> (res: Result<Rational, ExpressionError>)
    ensures
        text_value_of(res) == spec_evaluate_text(text@),
{
    let expr = parse(text)?;
    match evaluate(&expr) {
        Ok(value) => Ok(value),
        Err(err) => Err(ExpressionError::from(err)),
    }
}

/// Apply an infix operator to a pair of values already reduced.
pub fn apply(op: BinaryOperator, left: Rational, right: Rational) -> (res: Result<Rational, EvalError>)
    ensures
        value_of(res) == spec_apply(op, left@, right@),
{
    match op {
        BinaryOperator::Add => left.checked_add(right),
        BinaryOperator::Sub => left.checked_sub(right),
        BinaryOperator::Mul => left.checked_mul(right),
        BinaryOperator::Div => left.checked_div(right),
    }
}

/// Negate an `i64`, reporting the one value that has no counterpart.
fn negate(x: i64) -> (res: Result<i64, EvalError>)
    ensures
        match res {
            Ok(v) => fits(-x) && v == -x,
            Err(err) => !fits(-x) && err == EvalError::Overflow,
        },
{
    if x == i64::MIN {
        Err(EvalError::Overflow)
    } else {
        Ok(-x)
    }
}

/// Divide by a positive divisor known to go into the dividend exactly.
fn exact_quotient(x: i64, g: i64) -> (res: i64)
    requires
        divides(g as int, x as int),
    ensures
        res == (x as int) / (g as int),
{
    proof {
        lemma_fundamental_div_mod(x as int, g as int);
        let q = (x as int) / (g as int);
        assert(x == g * q);
        if x < 0 {
            assert(-x == q * -1 * g + 0) by (nonlinear_arith)
                requires
                    x == g * q,
            ;
            lemma_fundamental_div_mod_converse(-x, g as int, -q, 0);
        }
        if x >= 0 && g > 0 {
            assert(q >= 0) by (nonlinear_arith)
                requires
                    x == g * q,
                    x >= 0,
                    g > 0,
            ;
        }
        assert(i64::MIN <= q <= i64::MAX) by (nonlinear_arith)
            requires
                x == g * q,
                g > 0,
                i64::MIN <= x <= i64::MAX,
        ;
    }
    x.checked_div(g).unwrap()
}

/// The divisor a numerator and a positive denominator are reduced by:
/// Euclid's algorithm, each step taken the euclidean way so every value it
/// holds stays positive.
fn greatest_common_divisor(numerator: i64, denominator: i64) -> (res: i64)
    requires
        denominator > 0,
    ensures
        res == common_divisor(numerator as int, denominator as int),
{
    let mut larger = denominator;
    let mut smaller = numerator.checked_rem_euclid(denominator).unwrap();
    while smaller != 0
        invariant
            larger > 0,
            0 <= smaller < larger,
            crate::divisor::gcd(larger as nat, smaller as nat) == common_divisor(
                numerator as int,
                denominator as int,
            ),
        decreases smaller,
    {
        let remainder = larger.checked_rem_euclid(smaller).unwrap();
        larger = smaller;
        smaller = remainder;
    }
    larger
}

} // verus!
