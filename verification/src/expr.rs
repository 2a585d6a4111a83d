//! Expression trees and their evaluation.

use vstd::prelude::*;

verus! {

/// The mathematical model of an expression.
pub enum Tree {
    /// A truth value.
    Literal(bool),
    /// The negation of one operand.
    Not(Box<Tree>),
    /// The conjunction of a chain of operands.
    And(Seq<Tree>),
    /// The disjunction of a chain of operands.
    Or(Seq<Tree>),
}

impl Tree {
    /// Every chain in the tree has at least one operand.
    pub open spec fn well_formed(self) -> bool
        decreases self,
    {
        match self {
            Tree::Literal(_) => true,
            Tree::Not(t) => t.well_formed(),
            Tree::And(c) => c.len() >= 1 && forall|i: int|
                0 <= i < c.len() ==> (#[trigger] c[i]).well_formed(),
            Tree::Or(c) => c.len() >= 1 && forall|i: int|
                0 <= i < c.len() ==> (#[trigger] c[i]).well_formed(),
        }
    }

    /// The truth value of the tree: a conjunction holds when all of its
    /// operands hold, a disjunction when one of them does.
    pub open spec fn value(self) -> bool
        decreases self, 1int,
    {
        match self {
            Tree::Literal(b) => b,
            Tree::Not(t) => !t.value(),
            Tree::And(c) => all_true(operand_values(c)),
            Tree::Or(c) => any_true(operand_values(c)),
        }
    }
}

/// The truth values of the operands of a chain, in order.
pub open spec fn operand_values(c: Seq<Tree>) -> Seq<bool>
    decreases c, 0int,
{
    Seq::new(c.len(), |i: int| 0 <= i < c.len() && c[i].value())
}

/// Every entry is `true`.
pub open spec fn all_true(s: Seq<bool>) -> bool {
    forall|i: int| 0 <= i < s.len() ==> s[i]
}

/// Some entry is `true`.
pub open spec fn any_true(s: Seq<bool>) -> bool {
    exists|i: int| 0 <= i < s.len() && s[i]
}

/// A boolean expression.
#[derive(Debug, PartialEq, Eq)]
pub enum Expression {
    /// `TRUE` or `FALSE`.
    Literal(bool),
    /// `NOT` applied to one operand.
    Not(Box<Expression>),
    /// Operands joined by `AND`.
    And(Vec<Expression>),
    /// Operands joined by `OR`.
    Or(Vec<Expression>),
}

/// The trees of the expressions of a chain, in order.
pub open spec fn chain_trees(v: Vec<Expression>) -> Seq<Tree>
    decreases v, 0int,
{
    Seq::new(
        v.len() as nat,
        |i: int| if 0 <= i < v.len() { tree_of(v[i]) } else { Tree::Literal(false) },
    )
}

/// The tree that an expression stands for.
pub open spec fn tree_of(e: Expression) -> Tree
    decreases e, 1int,
{
    match e {
        Expression::Literal(b) => Tree::Literal(b),
        Expression::Not(inner) => Tree::Not(Box::new(tree_of(*inner))),
        Expression::And(v) => Tree::And(chain_trees(v)),
        Expression::Or(v) => Tree::Or(chain_trees(v)),
    }
}

impl View for Expression {
    type V = Tree;

    open spec fn view(&self) -> Tree {
        tree_of(*self)
    }
}

/// The one way evaluation fails: a chain without operands.
#[derive(Clone, Copy, Debug, PartialEq, Eq, Structural)]
pub struct InvalidTree;

/// The value of a chain of operands: whether all of them hold (a
/// conjunction) or one of them does (a disjunction).
pub open spec fn chain_value(c: Seq<Tree>, conjunction: bool) -> bool {
    if conjunction {
        all_true(operand_values(c))
    } else {
        any_true(operand_values(c))
    }
}

/// A chain of one operand has the value of that operand.
pub proof fn lemma_single_operand(t: Tree)
    ensures
        Tree::And(seq![t]).value() == t.value(),
        Tree::Or(seq![t]).value() == t.value(),
{
    let c = seq![t];
    let vals = operand_values(c);
    assert(vals.len() == 1 && vals[0] == t.value());
}

/// Grouping does not matter: a chain cut in two has the value of its two
/// parts joined by the same operator, wherever the cut is made.
pub proof fn lemma_chain_grouping(a: Seq<Tree>, b: Seq<Tree>)
    ensures
        Tree::And(a + b).value() == (Tree::And(a).value() && Tree::And(b).value()),
        Tree::Or(a + b).value() == (Tree::Or(a).value() || Tree::Or(b).value()),
{
    let va = operand_values(a);
    let vb = operand_values(b);
    let vc = operand_values(a + b);
    assert(vc =~= va + vb);
    assert forall|i: int| 0 <= i < va.len() implies va[i] == vc[i] by {}
    assert forall|i: int| 0 <= i < vb.len() implies vb[i] == #[trigger] vc[va.len() + i] by {}
    if all_true(va) && all_true(vb) {
        assert(all_true(vc));
    }
    if all_true(vc) {
        assert forall|i: int| 0 <= i < va.len() implies va[i] by {
            assert(vc[i]);
        }
        assert forall|i: int| 0 <= i < vb.len() implies vb[i] by {
            assert(vc[va.len() + i]);
        }
    }
    if any_true(va) {
        let i = choose|i: int| 0 <= i < va.len() && va[i];
        assert(vc[i]);
    }
    if any_true(vb) {
        let i = choose|i: int| 0 <= i < vb.len() && vb[i];
        assert(vc[va.len() + i]);
    }
    if any_true(vc) {
        let i = choose|i: int| 0 <= i < vc.len() && vc[i];
        if i < va.len() {
            assert(va[i]);
        } else {
            assert(vb[i - va.len()]);
        }
    }
}

/// A chain that stands as an operand in a chain of the same operator can be
/// taken apart into its own operands: parentheses round a part of a chain
/// do not change its value.
pub proof fn lemma_flatten(before: Seq<Tree>, inner: Seq<Tree>, after: Seq<Tree>)
    ensures
        Tree::And(before + seq![Tree::And(inner)] + after).value() == Tree::And(
            before + inner + after,
        ).value(),
        Tree::Or(before + seq![Tree::Or(inner)] + after).value() == Tree::Or(
            before + inner + after,
        ).value(),
{
    lemma_chain_grouping(before + seq![Tree::And(inner)], after);
    lemma_chain_grouping(before, seq![Tree::And(inner)]);
    lemma_single_operand(Tree::And(inner));
    lemma_chain_grouping(before + seq![Tree::Or(inner)], after);
    lemma_chain_grouping(before, seq![Tree::Or(inner)]);
    lemma_single_operand(Tree::Or(inner));
    lemma_chain_grouping(before + inner, after);
    lemma_chain_grouping(before, inner);
}

/// Reducing from the left: a chain with one more operand at its end has the
/// value of the chain before, joined with the value of that operand.
pub proof fn lemma_chain_step(c: Seq<Tree>, t: Tree)
    ensures
        Tree::And(c.push(t)).value() == (Tree::And(c).value() && t.value()),
        Tree::Or(c.push(t)).value() == (Tree::Or(c).value() || t.value()),
{
    lemma_chain_grouping(c, seq![t]);
    lemma_single_operand(t);
    assert(c.push(t) =~= c + seq![t]);
}

/// Reduces a chain from its first operand on, with `&&` for a conjunction and
/// `||` for a disjunction. Fails on an empty chain and on an operand that
/// fails.
fn evaluate_chain(v: &Vec<Expression>, conjunction: bool) -> (r: Result<bool, InvalidTree>)
    ensures
        Tree::And(chain_trees(*v)).well_formed() ==> r == Ok::<bool, InvalidTree>(
            chain_value(chain_trees(*v), conjunction),
        ),
        !Tree::And(chain_trees(*v)).well_formed() ==> r == Err::<bool, InvalidTree>(InvalidTree),
    decreases v, 0int,
{
    let ghost c = chain_trees(*v);
    let ghost vals = operand_values(c);
    if v.len() == 0 {
        return Err(InvalidTree);
    }
    let mut acc: bool = match evaluate(&v[0]) {
        Ok(b) => b,
        Err(x) => {
            assert(!c[0].well_formed());
            return Err(x);
        },
    };
    let mut i: usize = 1;
    assert(vals.take(1)[0] == vals[0] && c[0] == v[0]@);
    while i < v.len()
        invariant
            1 <= i <= v.len(),
            c == chain_trees(*v),
            vals == operand_values(c),
            c.len() == v.len(),
            forall|j: int| 0 <= j < i ==> (#[trigger] c[j]).well_formed(),
            conjunction ==> acc == all_true(vals.take(i as int)),
            !conjunction ==> acc == any_true(vals.take(i as int)),
        decreases v.len() - i,
    {
        let ghost before = vals.take(i as int);
        let ghost after = vals.take(i + 1);
        assert(c[i as int] == v[i as int]@);
        match evaluate(&v[i]) {
            Ok(b) => {
                proof {
                    assert(after[i as int] == b);
                    assert(forall|j: int| 0 <= j < i ==> before[j] == after[j]);
                    if !conjunction && acc {
                        let j = choose|j: int| 0 <= j < before.len() && before[j];
                        assert(after[j]);
                    }
                    if conjunction && !acc {
                        let j = choose|j: int| 0 <= j < before.len() && !before[j];
                        assert(!after[j]);
                    }
                }
                acc = if conjunction { acc && b } else { acc || b };
            },
            Err(x) => {
                return Err(x);
            },
        }
        i += 1;
    }
    assert(vals.take(i as int) =~= vals);
    Ok(acc)
}

/// Evaluates an expression: `Ok` with its truth value where every chain in
/// it has an operand, `Err` otherwise.
pub fn evaluate(e: &Expression) -> (r: Result<bool, InvalidTree>)
    ensures
        e@.well_formed() ==> r == Ok::<bool, InvalidTree>(e@.value()),
        !e@.well_formed() ==> r == Err::<bool, InvalidTree>(InvalidTree),
    decreases e, 1int,
{
    match e {
        Expression::Literal(b) => Ok(*b),
        Expression::Not(inner) => match evaluate(inner) {
            Ok(b) => Ok(!b),
            Err(x) => Err(x),
        },
        Expression::And(v) => evaluate_chain(v, true),
        Expression::Or(v) => evaluate_chain(v, false),
    }
}

} // verus!
