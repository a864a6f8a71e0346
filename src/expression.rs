//! Circuit expressions, the prover's expression trees built from them, and the
//! degree analysis that sizes the evaluation domain.
use vstd::prelude::*;
use crate::field::{fneg, fneg_spec};
use crate::canonical::{max_in, max_order, terms_wf};
use crate::unit::ProveExpressionUnit;

verus! {

/// A circuit's symbolic gate expression, as the circuit description hands it over.
#[derive(Debug)]
pub enum Expression {
    /// A constant scalar.
    Constant(u64),
    /// A selector; selectors are compiled away before gates reach the prover.
    Selector(usize),
    /// A fixed column read at a relative row.
    Fixed { column_index: usize, rotation: i32 },
    /// An advice column read at a relative row.
    Advice { column_index: usize, rotation: i32 },
    /// An instance column read at a relative row.
    Instance { column_index: usize, rotation: i32 },
    /// The negation of an expression.
    Negated(Box<Expression>),
    /// The sum of two expressions.
    Sum(Box<Expression>, Box<Expression>),
    /// The product of two expressions.
    Product(Box<Expression>, Box<Expression>),
    /// An expression multiplied by a constant scalar.
    Scaled(Box<Expression>, u64),
}

/// Whether an expression holds no selector.
pub open spec fn selector_free(e: Expression) -> bool
    decreases e,
{
    match e {
        Expression::Selector(_) => false,
        Expression::Negated(a) => selector_free(*a),
        Expression::Sum(a, b) => selector_free(*a) && selector_free(*b),
        Expression::Product(a, b) => selector_free(*a) && selector_free(*b),
        Expression::Scaled(a, _) => selector_free(*a),
        _ => true,
    }
}

/// A tree of sums and products over column cells and polynomials in `y`.
/// `Y` holds a polynomial in `y` as (order, coefficient) pairs.
#[derive(Debug)]
pub enum ProveExpression {
    /// A column cell.
    Unit(ProveExpressionUnit),
    /// The sum of two trees.
    Sum(Box<ProveExpression>, Box<ProveExpression>),
    /// The product of two trees.
    Product(Box<ProveExpression>, Box<ProveExpression>),
    /// `sum of c * y^o` over its (o, c) pairs.
    Y(Vec<(u32, u64)>),
}

/// A lookup argument's expression: a gate tree, or one of the linear
/// combinations by the lookup challenges theta, beta and gamma.
#[derive(Debug)]
pub enum LookupProveExpression {
    /// A plain expression tree.
    Expression(ProveExpression),
    /// `left + theta * right`.
    LcTheta(Box<LookupProveExpression>, Box<LookupProveExpression>),
    /// `left + beta * right`.
    LcBeta(Box<LookupProveExpression>, Box<LookupProveExpression>),
    /// `inner + gamma`.
    AddGamma(Box<LookupProveExpression>),
}

/// Whether a tree is the `Y` leaf with the single term `c * y^o`.
pub open spec fn is_y_single(e: ProveExpression, o: u32, c: u64) -> bool {
    &&& e is Y
    &&& e->Y_0@ == seq![(o, c)]
}

/// The tree that a circuit expression translates to: cells become units,
/// constants and scalings become `Y` terms of order zero, negation becomes a
/// product with `-1`.
pub open spec fn translates_to(e: Expression, t: ProveExpression) -> bool
    decreases e,
{
    match e {
        Expression::Constant(x) => is_y_single(t, 0, x),
        Expression::Selector(_) => false,
        Expression::Fixed { column_index, rotation } => t == ProveExpression::Unit(
            ProveExpressionUnit::Fixed { column_index, rotation },
        ),
        Expression::Advice { column_index, rotation } => t == ProveExpression::Unit(
            ProveExpressionUnit::Advice { column_index, rotation },
        ),
        Expression::Instance { column_index, rotation } => t == ProveExpression::Unit(
            ProveExpressionUnit::Instance { column_index, rotation },
        ),
        Expression::Negated(a) => t is Product && translates_to(*a, *t->Product_0) && is_y_single(
            *t->Product_1,
            0,
            fneg_spec(1),
        ),
        Expression::Sum(a, b) => t is Sum && translates_to(*a, *t->Sum_0) && translates_to(
            *b,
            *t->Sum_1,
        ),
        Expression::Product(a, b) => t is Product && translates_to(*a, *t->Product_0)
            && translates_to(*b, *t->Product_1),
        Expression::Scaled(a, x) => t is Product && translates_to(*a, *t->Product_0)
            && is_y_single(*t->Product_1, 0, x),
    }
}

/// Evaluation-domain degree bound of a tree: a cell counts one, a `Y` leaf
/// nothing, and a sum or product the degrees of both sides plus one.
pub open spec fn degree(e: ProveExpression) -> nat
    decreases e,
{
    match e {
        ProveExpression::Unit(_) => 1,
        ProveExpression::Sum(l, r) => degree(*l) + degree(*r) + 1,
        ProveExpression::Product(l, r) => degree(*l) + degree(*r) + 1,
        ProveExpression::Y(_) => 0,
    }
}

/// The auxiliary count that accompanies [`degree`].
pub open spec fn aux_degree(e: ProveExpression) -> nat {
    match e {
        ProveExpression::Sum(l, r) => degree(*l) + degree(*r),
        ProveExpression::Product(l, r) => degree(*l) + degree(*r),
        _ => 0,
    }
}

/// The term list holding only `c * y^o`.
fn single_term(o: u32, c: u64) -> (v: Vec<(u32, u64)>)
    ensures
        v@ == seq![(o, c)],
        max_in(v@) == o,
{
    let mut v: Vec<(u32, u64)> = Vec::new();
    v.push((o, c));
    assert(v@.drop_last().len() == 0);
    assert(max_in(v@.drop_last()) == 0);
    v
}

/// A `Y` leaf with the single term `c * y^o`.
fn single_leaf(o: u32, c: u64) -> (r: ProveExpression)
    ensures
        is_y_single(r, o, c),
        terms_wf(r),
        max_order(r) == o,
{
    ProveExpression::Y(single_term(o, c))
}

impl ProveExpression {
    /// The zero tree: a `Y` leaf with the single term `0 * y^0`.
    pub fn new() -> (r: Self)
        ensures
            is_y_single(r, 0, 0),
            terms_wf(r),
            max_order(r) == 0,
    {
        single_leaf(0u32, 0u64)
    }

    /// Translates a selector-free circuit expression into a tree.
    pub fn from_expr(e: &Expression) -> (r: Self)
        requires
            selector_free(*e),
        ensures
            translates_to(*e, r),
            terms_wf(r),
            max_order(r) == 0,
        decreases e,
    {
        match e {
            Expression::Constant(x) => single_leaf(0u32, *x),
            Expression::Selector(_) => {
                proof {
                    assert(false);
                }
                ProveExpression::new()
            },
            Expression::Fixed { column_index, rotation } => ProveExpression::Unit(
                ProveExpressionUnit::Fixed { column_index: *column_index, rotation: *rotation },
            ),
            Expression::Advice { column_index, rotation } => ProveExpression::Unit(
                ProveExpressionUnit::Advice { column_index: *column_index, rotation: *rotation },
            ),
            Expression::Instance { column_index, rotation } => ProveExpression::Unit(
                ProveExpressionUnit::Instance { column_index: *column_index, rotation: *rotation },
            ),
            Expression::Negated(a) => {
                let minus_one = fneg(1);
                ProveExpression::Product(
                    Box::new(Self::from_expr(a)),
                    Box::new(single_leaf(0u32, minus_one)),
                )
            },
            Expression::Sum(a, b) => ProveExpression::Sum(
                Box::new(Self::from_expr(a)),
                Box::new(Self::from_expr(b)),
            ),
            Expression::Product(a, b) => ProveExpression::Product(
                Box::new(Self::from_expr(a)),
                Box::new(Self::from_expr(b)),
            ),
            Expression::Scaled(a, x) => ProveExpression::Product(
                Box::new(Self::from_expr(a)),
                Box::new(single_leaf(0u32, *x)),
            ),
        }
    }

    /// Folds one more gate into an accumulated tree: `self * y + gate`.
    pub fn add_gate(self, e: &Expression) -> (r: Self)
        requires
            selector_free(*e),
        ensures
            r is Sum,
            (*r->Sum_0) is Product,
            *(*r->Sum_0)->Product_0 == self,
            is_y_single(*(*r->Sum_0)->Product_1, 1, 1),
            translates_to(*e, *r->Sum_1),
            terms_wf(r) == terms_wf(self),
            max_order(r) == max_order(self) + 1,
    {
        let ghost acc = self;
        proof {
            crate::canonical::lemma_max_order_nonneg(acc);
        }
        let step = single_leaf(1u32, 1u64);
        let gate = Self::from_expr(e);
        let scaled = ProveExpression::Product(Box::new(self), Box::new(step));
        proof {
            assert(max_order(scaled) == max_order(acc) + max_order(step));
            assert(terms_wf(scaled) == (terms_wf(acc) && terms_wf(step)));
        }
        let r = ProveExpression::Sum(Box::new(scaled), Box::new(gate));
        proof {
            assert(terms_wf(r) == (terms_wf(scaled) && terms_wf(gate)));
        }
        r
    }

    /// The degree bound of the tree and its auxiliary count.
    pub fn get_degree(&self) -> (r: (u32, u32))
        requires
            degree(*self) <= u32::MAX,
        ensures
            r.0 == degree(*self),
            r.1 == aux_degree(*self),
        decreases self,
    {
        match self {
            ProveExpression::Unit(_) => (1, 0),
            ProveExpression::Sum(l, r) => {
                let l = l.get_degree();
                let r = r.get_degree();
                (l.0 + r.0 + 1, l.0 + r.0)
            },
            ProveExpression::Product(l, r) => {
                let l = l.get_degree();
                let r = r.get_degree();
                (l.0 + r.0 + 1, l.0 + r.0)
            },
            ProveExpression::Y(_) => (0, 0),
        }
    }
}

} // verus!
