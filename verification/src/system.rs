//! Constraint systems over trade variables, with exact rational entries.
//!
//! A system is what a convex solver is given: an objective to maximise,
//! inequalities `G x <= h`, equalities `A x = b`, and second-order cone
//! blocks. Entries are ratios of integers; what a system says about a vector
//! of real trade amounts is defined here, independently of any solver.

use vstd::prelude::*;

verus! {

/// An exact rational number, kept as two unevaluated products so that no
/// product of reserves and fee factors has to fit a machine integer: its
/// value is `num * num_scale / (den * den_scale)`, negated if `negative`.
#[derive(Clone, Copy, Debug, PartialEq, Eq, Structural)]
pub struct Ratio {
    pub negative: bool,
    pub num: u128,
    pub num_scale: u128,
    pub den: u128,
    pub den_scale: u128,
}

impl Ratio {
    /// The denominator is not zero.
    pub open spec fn wf(&self) -> bool {
        self.den > 0 && self.den_scale > 0
    }

    /// The number without its sign.
    pub open spec fn magnitude(&self) -> real {
        (self.num as real * self.num_scale as real) / (self.den as real * self.den_scale as real)
    }

    /// The number itself.
    pub open spec fn value(&self) -> real {
        if self.negative {
            -self.magnitude()
        } else {
            self.magnitude()
        }
    }

    /// The ratio `num * num_scale / (den * den_scale)`, negated if
    /// `negative`.
    pub fn new(negative: bool, num: u128, num_scale: u128, den: u128, den_scale: u128) -> (ratio:
        Ratio)
        ensures
            ratio == (Ratio { negative, num, num_scale, den, den_scale }),
    {
        Ratio { negative, num, num_scale, den, den_scale }
    }

    /// The whole number `n`.
    pub fn whole(n: u128) -> (ratio: Ratio)
        ensures
            ratio == (Ratio { negative: false, num: n, num_scale: 1, den: 1, den_scale: 1 }),
    {
        Ratio { negative: false, num: n, num_scale: 1, den: 1, den_scale: 1 }
    }
}

/// One entry of a row: the coefficient of one variable.
#[derive(Clone, Copy, Debug, PartialEq, Eq, Structural)]
pub struct Term {
    pub var: usize,
    pub coeff: Ratio,
}

/// A linear inequality or equality: the sum of the terms against the bound.
#[derive(Clone, Debug, PartialEq, Eq)]
pub struct Row {
    pub terms: Vec<Term>,
    pub bound: Ratio,
}

/// What a [`Row`] holds.
pub ghost struct LinearRow {
    pub terms: Seq<Term>,
    pub bound: Ratio,
}

impl View for Row {
    type V = LinearRow;

    open spec fn view(&self) -> LinearRow {
        LinearRow { terms: self.terms@, bound: self.bound }
    }
}

/// A linear form plus a constant.
#[derive(Clone, Debug, PartialEq, Eq)]
pub struct Affine {
    pub terms: Vec<Term>,
    pub offset: Ratio,
}

/// What an [`Affine`] holds.
pub ghost struct AffineForm {
    pub terms: Seq<Term>,
    pub offset: Ratio,
}

impl View for Affine {
    type V = AffineForm;

    open spec fn view(&self) -> AffineForm {
        AffineForm { terms: self.terms@, offset: self.offset }
    }
}

/// A second-order cone constraint: the Euclidean norm of the `rows` is at
/// most the `bound`.
#[derive(Clone, Debug, PartialEq, Eq)]
pub struct ConeBlock {
    pub rows: Vec<Affine>,
    pub bound: Affine,
}

/// What a [`ConeBlock`] holds.
pub ghost struct Cone {
    pub rows: Seq<AffineForm>,
    pub bound: AffineForm,
}

impl View for ConeBlock {
    type V = Cone;

    open spec fn view(&self) -> Cone {
        Cone { rows: self.rows@.map_values(|row: Affine| row@), bound: self.bound@ }
    }
}

/// What each row holds.
pub open spec fn rows_view(rows: Seq<Row>) -> Seq<LinearRow> {
    rows.map_values(|row: Row| row@)
}

/// What each cone block holds.
pub open spec fn cones_view(blocks: Seq<ConeBlock>) -> Seq<Cone> {
    blocks.map_values(|block: ConeBlock| block@)
}

/// The family of cones that a solver has to enforce for a system.
#[derive(Clone, Copy, Debug, PartialEq, Eq, Structural)]
pub enum ConeKind {
    /// Linear inequalities only.
    NonNegativeOrthant,
    /// At least one second-order cone block.
    SecondOrder,
}

/// A constraint system over `n_vars` trade variables: maximise the
/// objective subject to `G x <= h` (the inequalities), `A x = b` (the
/// equalities) and the cone blocks.
#[derive(Debug, PartialEq, Eq)]
pub struct ConstraintSystem {
    pub n_vars: usize,
    pub objective: Vec<Term>,
    pub inequalities: Vec<Row>,
    pub equalities: Vec<Row>,
    pub cones: Vec<ConeBlock>,
}

impl ConstraintSystem {
    /// `x` has one amount per variable and satisfies every constraint.
    pub open spec fn admits(&self, x: Seq<real>) -> bool {
        &&& x.len() == self.n_vars
        &&& forall|k: int|
            0 <= k < self.inequalities@.len() ==> row_holds((#[trigger] self.inequalities@[k])@, x)
        &&& forall|k: int|
            0 <= k < self.equalities@.len() ==> row_binds((#[trigger] self.equalities@[k])@, x)
        &&& forall|k: int| 0 <= k < self.cones@.len() ==> cone_holds((#[trigger] self.cones@[k])@, x)
    }

    /// The objective at `x`.
    pub open spec fn value(&self, x: Seq<real>) -> real {
        form_value(self.objective@, x)
    }

    /// Every term names one of the system's variables, and no ratio has a
    /// zero denominator.
    pub open spec fn wf(&self) -> bool {
        &&& terms_wf(self.objective@, self.n_vars as nat)
        &&& forall|k: int|
            0 <= k < self.inequalities@.len() ==> row_wf(
                (#[trigger] self.inequalities@[k])@,
                self.n_vars as nat,
            )
        &&& forall|k: int|
            0 <= k < self.equalities@.len() ==> row_wf(
                (#[trigger] self.equalities@[k])@,
                self.n_vars as nat,
            )
        &&& forall|k: int|
            0 <= k < self.cones@.len() ==> cone_wf((#[trigger] self.cones@[k])@, self.n_vars as nat)
    }

    /// The system without variables or constraints.
    pub fn new() -> (system: ConstraintSystem)
        ensures
            system.n_vars == 0,
            system.objective@.len() == 0,
            system.inequalities@.len() == 0,
            system.equalities@.len() == 0,
            system.cones@.len() == 0,
    {
        ConstraintSystem {
            n_vars: 0,
            objective: Vec::new(),
            inequalities: Vec::new(),
            equalities: Vec::new(),
            cones: Vec::new(),
        }
    }

    /// The cone family that a solver must be told to enforce: the
    /// second-order family as soon as there is one cone block, the
    /// non-negative orthant for a purely linear system.
    pub fn cone_kind(&self) -> (kind: ConeKind)
        ensures
            kind == (if self.cones@.len() > 0 {
                ConeKind::SecondOrder
            } else {
                ConeKind::NonNegativeOrthant
            }),
    {
        if self.cones.len() > 0 {
            ConeKind::SecondOrder
        } else {
            ConeKind::NonNegativeOrthant
        }
    }
}

/// The value of a linear form at `x`.
pub open spec fn form_value(terms: Seq<Term>, x: Seq<real>) -> real
    decreases terms.len(),
{
    if terms.len() == 0 {
        0real
    } else {
        form_value(terms.drop_last(), x) + terms.last().coeff.value() * x[terms.last().var as int]
    }
}

/// The value of an affine form at `x`.
pub open spec fn affine_value(form: AffineForm, x: Seq<real>) -> real {
    form_value(form.terms, x) + form.offset.value()
}

/// The sum of the squares of the affine forms at `x`.
pub open spec fn sum_of_squares(rows: Seq<AffineForm>, x: Seq<real>) -> real
    decreases rows.len(),
{
    if rows.len() == 0 {
        0real
    } else {
        sum_of_squares(rows.drop_last(), x) + affine_value(rows.last(), x) * affine_value(
            rows.last(),
            x,
        )
    }
}

/// `x` satisfies the inequality: the terms sum to at most the bound.
pub open spec fn row_holds(row: LinearRow, x: Seq<real>) -> bool {
    form_value(row.terms, x) <= row.bound.value()
}

/// `x` satisfies the equality: the terms sum to the bound.
pub open spec fn row_binds(row: LinearRow, x: Seq<real>) -> bool {
    form_value(row.terms, x) == row.bound.value()
}

/// `x` lies in the cone: the bound is not negative and the norm of the rows
/// does not exceed it.
pub open spec fn cone_holds(cone: Cone, x: Seq<real>) -> bool {
    &&& affine_value(cone.bound, x) >= 0real
    &&& sum_of_squares(cone.rows, x) <= affine_value(cone.bound, x) * affine_value(cone.bound, x)
}

/// A term's variable exists and its coefficient has a denominator.
pub open spec fn term_wf(term: Term, n_vars: nat) -> bool {
    term.var < n_vars && term.coeff.wf()
}

/// All terms are well formed.
pub open spec fn terms_wf(terms: Seq<Term>, n_vars: nat) -> bool {
    forall|k: int| 0 <= k < terms.len() ==> term_wf(#[trigger] terms[k], n_vars)
}

/// A row's terms and bound are well formed.
pub open spec fn row_wf(row: LinearRow, n_vars: nat) -> bool {
    terms_wf(row.terms, n_vars) && row.bound.wf()
}

/// An affine form's terms and offset are well formed.
pub open spec fn affine_wf(form: AffineForm, n_vars: nat) -> bool {
    terms_wf(form.terms, n_vars) && form.offset.wf()
}

/// A cone's forms are well formed.
pub open spec fn cone_wf(cone: Cone, n_vars: nat) -> bool {
    &&& affine_wf(cone.bound, n_vars)
    &&& forall|k: int| 0 <= k < cone.rows.len() ==> affine_wf(#[trigger] cone.rows[k], n_vars)
}

/// What one term adds to the value of its form at `x`.
pub open spec fn contribution(term: Term, x: Seq<real>) -> real {
    term.coeff.value() * x[term.var as int]
}

/// The value of two forms put end to end is the sum of their values.
pub proof fn lemma_form_of_both(first: Seq<Term>, second: Seq<Term>, x: Seq<real>)
    ensures
        form_value(first + second, x) == form_value(first, x) + form_value(second, x),
    decreases second.len(),
{
    if second.len() == 0 {
        assert(first + second =~= first);
    } else {
        assert((first + second).drop_last() =~= first + second.drop_last());
        lemma_form_of_both(first, second.drop_last(), x);
    }
}

/// A form in which only the terms at the places `a` and `b` add anything has
/// the value of those two terms.
pub proof fn lemma_form_of_two_places(terms: Seq<Term>, x: Seq<real>, a: int, b: int)
    requires
        a != b,
        forall|k: int|
            0 <= k < terms.len() && k != a && k != b ==> contribution(#[trigger] terms[k], x) == 0real,
    ensures
        form_value(terms, x) == (if 0 <= a < terms.len() {
            contribution(terms[a], x)
        } else {
            0real
        }) + (if 0 <= b < terms.len() {
            contribution(terms[b], x)
        } else {
            0real
        }),
    decreases terms.len(),
{
    if terms.len() > 0 {
        let init = terms.drop_last();
        assert forall|k: int| 0 <= k < init.len() && k != a && k != b implies contribution(
            #[trigger] init[k],
            x,
        ) == 0real by {
            assert(init[k] == terms[k]);
        }
        lemma_form_of_two_places(init, x, a, b);
        let n = terms.len() - 1;
        assert(form_value(terms, x) == form_value(init, x) + contribution(terms[n], x));
        if 0 <= a < n {
            assert(init[a] == terms[a]);
        }
        if 0 <= b < n {
            assert(init[b] == terms[b]);
        }
    }
}

/// A form whose terms add nothing negative has no negative value, and if
/// its value is zero then every term adds zero.
pub proof fn lemma_form_without_losses(terms: Seq<Term>, x: Seq<real>)
    requires
        forall|k: int| 0 <= k < terms.len() ==> contribution(#[trigger] terms[k], x) >= 0real,
    ensures
        form_value(terms, x) >= 0real,
        form_value(terms, x) == 0real ==> forall|k: int|
            0 <= k < terms.len() ==> contribution(#[trigger] terms[k], x) == 0real,
    decreases terms.len(),
{
    if terms.len() > 0 {
        let init = terms.drop_last();
        assert forall|k: int| 0 <= k < init.len() implies contribution(#[trigger] init[k], x)
            >= 0real by {
            assert(init[k] == terms[k]);
        }
        lemma_form_without_losses(init, x);
        let n = terms.len() - 1;
        assert(form_value(terms, x) == form_value(init, x) + contribution(terms[n], x));
        if form_value(terms, x) == 0real {
            assert forall|k: int| 0 <= k < terms.len() implies contribution(
                #[trigger] terms[k],
                x,
            ) == 0real by {
                if k < n {
                    assert(init[k] == terms[k]);
                }
            }
        }
    }
}

/// A form has the value zero where all of its variables are zero.
pub proof fn lemma_form_at_rest(terms: Seq<Term>, x: Seq<real>)
    requires
        forall|k: int| 0 <= k < terms.len() ==> x[(#[trigger] terms[k]).var as int] == 0real,
    ensures
        form_value(terms, x) == 0real,
{
    assert forall|k: int| 0 <= k < terms.len() implies contribution(#[trigger] terms[k], x)
        == 0real by {
        crate::reals::lemma_unit_products(terms[k].coeff.value());
    }
    lemma_form_of_two_places(terms, x, -1, -2);
}

/// A well-formed ratio without a minus sign is not negative.
pub proof fn lemma_unsigned_ratio(ratio: Ratio)
    requires
        ratio.wf(),
        !ratio.negative,
    ensures
        ratio.value() >= 0real,
{
    crate::reals::lemma_quotient_not_negative(
        ratio.num as real,
        ratio.num_scale as real,
        ratio.den as real,
        ratio.den_scale as real,
    );
}

/// Where all variables are zero, a well-formed row without a minus sign on
/// its bound holds.
pub proof fn lemma_row_at_rest(row: LinearRow, x: Seq<real>, n_vars: nat)
    requires
        row_wf(row, n_vars),
        !row.bound.negative,
        x.len() == n_vars,
        forall|i: int| 0 <= i < x.len() ==> #[trigger] x[i] == 0real,
    ensures
        row_holds(row, x),
{
    assert forall|k: int| 0 <= k < row.terms.len() implies x[(#[trigger] row.terms[k]).var as int]
        == 0real by {
        assert(term_wf(row.terms[k], n_vars));
    }
    lemma_form_at_rest(row.terms, x);
    lemma_unsigned_ratio(row.bound);
}

/// A whole number's value is that number.
pub proof fn lemma_whole_value(n: u128)
    ensures
        (Ratio { negative: false, num: n, num_scale: 1, den: 1, den_scale: 1 }).value() == n as real,
        (Ratio { negative: true, num: n, num_scale: 1, den: 1, den_scale: 1 }).value() == -(n as real),
{
    crate::reals::lemma_over_one(n as real);
}

/// The value of a form of four terms, written out.
pub proof fn lemma_form_of_four(a: Term, b: Term, c: Term, d: Term, x: Seq<real>)
    ensures
        form_value(seq![a, b, c, d], x) == a.coeff.value() * x[a.var as int] + b.coeff.value()
            * x[b.var as int] + c.coeff.value() * x[c.var as int] + d.coeff.value()
            * x[d.var as int],
{
    let four = seq![a, b, c, d];
    let three = seq![a, b, c];
    let two = seq![a, b];
    let one = seq![a];
    assert(four.drop_last() =~= three);
    assert(three.drop_last() =~= two);
    assert(two.drop_last() =~= one);
    assert(one.drop_last() =~= Seq::<Term>::empty());
    assert(form_value(Seq::<Term>::empty(), x) == 0real);
    assert(form_value(one, x) == a.coeff.value() * x[a.var as int]);
    assert(form_value(two, x) == form_value(one, x) + b.coeff.value() * x[b.var as int]);
    assert(form_value(three, x) == form_value(two, x) + c.coeff.value() * x[c.var as int]);
    assert(form_value(four, x) == form_value(three, x) + d.coeff.value() * x[d.var as int]);
}

} // verus!
