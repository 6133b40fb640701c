//! The normalisation engine: rule dispatch, the bottom-up pass and the
//! fixed-point driver.
use vstd::prelude::*;

use crate::syntax::{size, Expr, Term};
use simplify1::{
    add_rule, exp_rule, lemma_add_rule_shrinks, lemma_exp_rule_shrinks, lemma_mul_rule_shrinks,
    lemma_neg_rule_shrinks, lemma_sub_rule_shrinks, mul_rule, neg_rule, sub_rule,
};

pub mod simplify1;

verus! {

/// Why normalisation failed.
#[derive(Debug, Clone, Copy, PartialEq, Eq, Structural)]
pub enum Error {
    /// An exponent is a negated constant.
    NegativePower,
    /// The tree holds a placeholder.
    Metavar,
}

impl Error {
    /// A short description of the failure, for people.
    pub fn message(&self) -> (r: &'static str)
        ensures
            *self == Error::NegativePower ==> r@ == "cannot raise to a negative power"@,
            *self == Error::Metavar ==> r@ == "metavariable"@,
    {
        match self {
            Error::NegativePower => "cannot raise to a negative power",
            Error::Metavar => "metavariable",
        }
    }
}

/// The model of an outcome.
pub open spec fn model(r: &Result<Expr, Error>) -> Result<Term, Error> {
    match r {
        Ok(e) => Ok(e@),
        Err(x) => Err(*x),
    }
}

/// One rewrite step at the root of a term whose operands are already normal.
pub open spec fn rewrite(t: Term) -> Result<Term, Error> {
    match t {
        Term::Neg(a) => Ok(neg_rule(*a)),
        Term::Add(a, b) => Ok(add_rule(*a, *b)),
        Term::Sub(a, b) => Ok(sub_rule(*a, *b)),
        Term::Mul(a, b) => Ok(mul_rule(*a, *b)),
        Term::Exp(a, b) => exp_rule(*a, *b),
        Term::Metavar(_) => Err(Error::Metavar),
        _ => Ok(t),
    }
}

/// One full pass: operands first, left before right, then the node itself.
/// The first failure met in that order is the outcome.
pub open spec fn bottom_up(t: Term) -> Result<Term, Error>
    decreases t,
{
    match t {
        Term::Neg(a) => match bottom_up(*a) {
            Ok(x) => rewrite(Term::Neg(Box::new(x))),
            Err(e) => Err(e),
        },
        Term::Add(a, b) => match bottom_up(*a) {
            Ok(x) => match bottom_up(*b) {
                Ok(y) => rewrite(Term::Add(Box::new(x), Box::new(y))),
                Err(e) => Err(e),
            },
            Err(e) => Err(e),
        },
        Term::Sub(a, b) => match bottom_up(*a) {
            Ok(x) => match bottom_up(*b) {
                Ok(y) => rewrite(Term::Sub(Box::new(x), Box::new(y))),
                Err(e) => Err(e),
            },
            Err(e) => Err(e),
        },
        Term::Mul(a, b) => match bottom_up(*a) {
            Ok(x) => match bottom_up(*b) {
                Ok(y) => rewrite(Term::Mul(Box::new(x), Box::new(y))),
                Err(e) => Err(e),
            },
            Err(e) => Err(e),
        },
        Term::Exp(a, b) => match bottom_up(*a) {
            Ok(x) => match bottom_up(*b) {
                Ok(y) => rewrite(Term::Exp(Box::new(x), Box::new(y))),
                Err(e) => Err(e),
            },
            Err(e) => Err(e),
        },
        _ => rewrite(t),
    }
}

/// A pass either changes nothing or makes the tree strictly smaller.
pub proof fn lemma_bottom_up_shrinks(t: Term)
    ensures
        bottom_up(t) matches Ok(u) ==> (u == t || size(u) < size(t)),
    decreases t,
{
    match t {
        Term::Neg(a) => {
            lemma_bottom_up_shrinks(*a);
            if let Ok(x) = bottom_up(*a) {
                lemma_neg_rule_shrinks(x);
            }
        },
        Term::Add(a, b) => {
            lemma_bottom_up_shrinks(*a);
            lemma_bottom_up_shrinks(*b);
            if let (Ok(x), Ok(y)) = (bottom_up(*a), bottom_up(*b)) {
                lemma_add_rule_shrinks(x, y);
            }
        },
        Term::Sub(a, b) => {
            lemma_bottom_up_shrinks(*a);
            lemma_bottom_up_shrinks(*b);
            if let (Ok(x), Ok(y)) = (bottom_up(*a), bottom_up(*b)) {
                lemma_sub_rule_shrinks(x, y);
            }
        },
        Term::Mul(a, b) => {
            lemma_bottom_up_shrinks(*a);
            lemma_bottom_up_shrinks(*b);
            if let (Ok(x), Ok(y)) = (bottom_up(*a), bottom_up(*b)) {
                lemma_mul_rule_shrinks(x, y);
            }
        },
        Term::Exp(a, b) => {
            lemma_bottom_up_shrinks(*a);
            lemma_bottom_up_shrinks(*b);
            if let (Ok(x), Ok(y)) = (bottom_up(*a), bottom_up(*b)) {
                lemma_exp_rule_shrinks(x, y);
            }
        },
        _ => {},
    }
}

/// The outcome of repeating full passes until one changes nothing.
pub open spec fn normal_form(t: Term) -> Result<Term, Error>
    decreases size(t),
{
    match bottom_up(t) {
        Ok(u) => if u == t {
            Ok(t)
        } else {
            proof {
                lemma_bottom_up_shrinks(t);
            }
            normal_form(u)
        },
        Err(e) => Err(e),
    }
}

/// Applies the rule of the root node to a node whose operands are normal.
pub fn simplify1(expr: Expr) -> (r: Result<Expr, Error>)
    ensures
        model(&r) == rewrite(expr@),
{
    match expr {
        Expr::Add(a, b) => simplify1::add(*a, *b),
        Expr::Sub(a, b) => simplify1::sub(*a, *b),
        Expr::Mul(a, b) => simplify1::mul(*a, *b),
        Expr::Exp(a, b) => simplify1::exp(*a, *b),
        Expr::Neg(a) => simplify1::neg(*a),
        Expr::Metavar(_) => Err(Error::Metavar),
        expr => Ok(expr),
    }
}

/// A node waiting on the work list. An unvisited node still has to be
/// walked; a visited one waits for its operands' results.
struct Frame<'a> {
    expr: &'a Expr,
    visited: bool,
}

/// Number of operands of a node.
spec fn arity(t: Term) -> nat {
    match t {
        Term::Neg(_) => 1,
        Term::Add(_, _) | Term::Sub(_, _) | Term::Mul(_, _) | Term::Exp(_, _) => 2,
        _ => 0,
    }
}

/// The node `t` with its operands replaced by `x` and `y` (`y` unused by a
/// negation; a leaf stays as it is).
spec fn with_operands(t: Term, x: Term, y: Term) -> Term {
    match t {
        Term::Neg(_) => Term::Neg(Box::new(x)),
        Term::Add(_, _) => Term::Add(Box::new(x), Box::new(y)),
        Term::Sub(_, _) => Term::Sub(Box::new(x), Box::new(y)),
        Term::Mul(_, _) => Term::Mul(Box::new(x), Box::new(y)),
        Term::Exp(_, _) => Term::Exp(Box::new(x), Box::new(y)),
        _ => t,
    }
}

/// Completes a visited node against the result list: its operands' results
/// are the last entries, and are replaced by the node's own result. `None`
/// when the list is too short.
spec fn finish(t: Term, res: Seq<Term>) -> Option<Result<Seq<Term>, Error>> {
    let n = res.len();
    let k = arity(t);
    if n < k {
        None
    } else {
        let node = if k == 2 {
            with_operands(t, res[n - 2], res[n - 1])
        } else if k == 1 {
            with_operands(t, res[n - 1], res[n - 1])
        } else {
            t
        };
        match rewrite(node) {
            Ok(x) => Some(Ok(res.subrange(0, n - k).push(x))),
            Err(e) => Some(Err(e)),
        }
    }
}

/// What the rest of the walk yields from a work list (its top is the last
/// entry) and a result list.
spec fn run(tasks: Seq<(Term, bool)>, res: Seq<Term>) -> Option<Result<Seq<Term>, Error>>
    decreases tasks.len(),
{
    if tasks.len() == 0 {
        Some(Ok(res))
    } else {
        let (t, visited) = tasks.last();
        let rest = tasks.drop_last();
        if visited {
            match finish(t, res) {
                Some(Ok(r2)) => run(rest, r2),
                other => other,
            }
        } else {
            match bottom_up(t) {
                Ok(x) => run(rest, res.push(x)),
                Err(e) => Some(Err(e)),
            }
        }
    }
}

/// Work left on a work list: walking a node costs two units per node below
/// it, finishing one costs one.
spec fn weight(tasks: Seq<(Term, bool)>) -> nat
    decreases tasks.len(),
{
    if tasks.len() == 0 {
        0
    } else {
        weight(tasks.drop_last()) + if tasks.last().1 {
            1
        } else {
            2 * size(tasks.last().0)
        }
    }
}

spec fn tasks_of(s: Seq<Frame>) -> Seq<(Term, bool)> {
    s.map_values(|f: Frame| (f.expr@, f.visited))
}

spec fn terms_of(s: Seq<Expr>) -> Seq<Term> {
    s.map_values(|e: Expr| e@)
}

spec fn expected(t: Term) -> Option<Result<Seq<Term>, Error>> {
    match bottom_up(t) {
        Ok(x) => Some(Ok(seq![x])),
        Err(e) => Some(Err(e)),
    }
}

/// Walking a node with operands is the same as walking its operands and
/// then finishing the node.
proof fn lemma_expand(rest: Seq<(Term, bool)>, t: Term, res: Seq<Term>)
    requires
        arity(t) > 0,
    ensures
        arity(t) == 2 ==> run(
            rest.push((t, true)).push((right_of(t), false)).push((left_of(t), false)),
            res,
        ) == run(rest.push((t, false)), res),
        arity(t) == 1 ==> run(rest.push((t, true)).push((left_of(t), false)), res) == run(
            rest.push((t, false)),
            res,
        ),
        arity(t) == 2 ==> weight(
            rest.push((t, true)).push((right_of(t), false)).push((left_of(t), false)),
        ) < weight(rest.push((t, false))),
        arity(t) == 1 ==> weight(rest.push((t, true)).push((left_of(t), false))) < weight(
            rest.push((t, false)),
        ),
{
    let s1 = rest.push((t, true));
    let s0 = rest.push((t, false));
    assert(s0.drop_last() =~= rest);
    assert(s1.drop_last() =~= rest);
    assert(weight(s1) == weight(rest) + 1);
    assert(weight(s0) == weight(rest) + 2 * size(t));
    if arity(t) == 2 {
        let s2 = s1.push((right_of(t), false));
        let s3 = s2.push((left_of(t), false));
        assert(s3.drop_last() =~= s2);
        assert(s2.drop_last() =~= s1);
        assert(size(t) == 1 + size(left_of(t)) + size(right_of(t)));
        assert(weight(s2) == weight(s1) + 2 * size(right_of(t)));
        assert(weight(s3) == weight(s2) + 2 * size(left_of(t)));
        match bottom_up(left_of(t)) {
            Ok(x) => {
                let r1 = res.push(x);
                assert(run(s3, res) == run(s2, r1));
                match bottom_up(right_of(t)) {
                    Ok(y) => {
                        let r2 = r1.push(y);
                        assert(run(s2, r1) == run(s1, r2));
                        assert(r2.subrange(0, r2.len() - 2) =~= res);
                        assert(r2[r2.len() - 2] == x);
                        assert(r2[r2.len() - 1] == y);
                        assert(finish(t, r2) == match rewrite(with_operands(t, x, y)) {
                            Ok(z) => Some(Ok(res.push(z))),
                            Err(e) => Some(Err(e)),
                        });
                        assert(bottom_up(t) == rewrite(with_operands(t, x, y)));
                    },
                    Err(e) => {
                        assert(run(s2, r1) == Some(Err::<Seq<Term>, Error>(e)));
                    },
                }
            },
            Err(e) => {},
        }
    } else {
        let s2 = s1.push((left_of(t), false));
        assert(s2.drop_last() =~= s1);
        assert(size(t) == 1 + size(left_of(t)));
        assert(weight(s2) == weight(s1) + 2 * size(left_of(t)));
        match bottom_up(left_of(t)) {
            Ok(x) => {
                let r1 = res.push(x);
                assert(run(s2, res) == run(s1, r1));
                assert(r1.subrange(0, r1.len() - 1) =~= res);
                assert(bottom_up(t) == rewrite(with_operands(t, x, x)));
            },
            Err(e) => {},
        }
    }
}

/// The left (or only) operand of a node.
spec fn left_of(t: Term) -> Term {
    match t {
        Term::Neg(a) => *a,
        Term::Add(a, _) => *a,
        Term::Sub(a, _) => *a,
        Term::Mul(a, _) => *a,
        Term::Exp(a, _) => *a,
        _ => t,
    }
}

/// The right operand of a binary node.
spec fn right_of(t: Term) -> Term {
    match t {
        Term::Add(_, b) => *b,
        Term::Sub(_, b) => *b,
        Term::Mul(_, b) => *b,
        Term::Exp(_, b) => *b,
        _ => t,
    }
}

/// One full bottom-up pass over the tree, driven by an explicit work list
/// and result list rather than by recursion, so that the depth of the tree
/// is not bounded by the call stack. The first failure ends the pass.
pub fn apply_one_pass(expr: &Expr) -> (r: Result<Expr, Error>)
    ensures
        model(&r) == bottom_up(expr@),
{
    let mut stack: Vec<Frame> = Vec::new();
    stack.push(Frame { expr, visited: false });
    let mut results: Vec<Expr> = Vec::new();
    proof {
        let t0 = seq![(expr@, false)];
        assert(tasks_of(stack@) =~= t0);
        assert(terms_of(results@) =~= Seq::<Term>::empty());
        assert(t0.drop_last() =~= Seq::<(Term, bool)>::empty());
        if let Ok(x) = bottom_up(expr@) {
            assert(Seq::<Term>::empty().push(x) =~= seq![x]);
            assert(run(Seq::<(Term, bool)>::empty(), seq![x]) == Some(Ok::<Seq<Term>, Error>(seq![x])));
        }
    }
    while stack.len() > 0
        invariant
            run(tasks_of(stack@), terms_of(results@)) == expected(expr@),
        decreases weight(tasks_of(stack@)),
    {
        let ghost tasks0 = tasks_of(stack@);
        let ghost res0 = terms_of(results@);
        let item = stack.pop().unwrap();
        let ghost t = item.expr@;
        let ghost rest = tasks_of(stack@);
        proof {
            assert(rest =~= tasks0.drop_last());
            assert(tasks0.last() == (t, item.visited));
            assert(tasks0 =~= rest.push((t, item.visited)));
            assert(weight(tasks0) == weight(rest) + if item.visited {
                1
            } else {
                2 * size(t)
            });
        }
        if item.visited {
            let ghost n = res0.len();
            let node = match item.expr {
                Expr::Neg(_) => {
                    let a = results.pop().unwrap();
                    Expr::neg(a)
                },
                Expr::Add(_, _) => {
                    let b = results.pop().unwrap();
                    let a = results.pop().unwrap();
                    Expr::add(a, b)
                },
                Expr::Sub(_, _) => {
                    let b = results.pop().unwrap();
                    let a = results.pop().unwrap();
                    Expr::sub(a, b)
                },
                Expr::Mul(_, _) => {
                    let b = results.pop().unwrap();
                    let a = results.pop().unwrap();
                    Expr::mul(a, b)
                },
                Expr::Exp(_, _) => {
                    let b = results.pop().unwrap();
                    let a = results.pop().unwrap();
                    Expr::exp(a, b)
                },
                leaf => leaf.clone(),
            };
            proof {
                let k = arity(t);
                assert(terms_of(results@) =~= res0.subrange(0, n - k));
                if k == 2 {
                    assert(node@ == with_operands(t, res0[n - 2], res0[n - 1]));
                } else if k == 1 {
                    assert(node@ == with_operands(t, res0[n - 1], res0[n - 1]));
                }
            }
            match simplify1(node) {
                Ok(x) => {
                    let ghost before = terms_of(results@);
                    results.push(x);
                    proof {
                        assert(terms_of(results@) =~= before.push(x@));
                        assert(finish(t, res0) == Some(Ok::<Seq<Term>, Error>(before.push(x@))));
                        assert(run(tasks0, res0) == run(rest, before.push(x@)));
                    }
                },
                Err(e) => {
                    proof {
                        assert(finish(t, res0) == Some(Err::<Seq<Term>, Error>(e)));
                        assert(run(tasks0, res0) == Some(Err::<Seq<Term>, Error>(e)));
                    }
                    return Err(e);
                },
            }
        } else {
            match item.expr {
                Expr::Neg(a) => {
                    stack.push(Frame { expr: item.expr, visited: true });
                    stack.push(Frame { expr: a, visited: false });
                    proof {
                        lemma_expand(rest, t, res0);
                        assert(tasks_of(stack@) =~= rest.push((t, true)).push((left_of(t), false)));
                    }
                },
                Expr::Add(a, b) | Expr::Sub(a, b) | Expr::Mul(a, b) | Expr::Exp(a, b) => {
                    stack.push(Frame { expr: item.expr, visited: true });
                    stack.push(Frame { expr: b, visited: false });
                    stack.push(Frame { expr: a, visited: false });
                    proof {
                        lemma_expand(rest, t, res0);
                        assert(tasks_of(stack@) =~= rest.push((t, true)).push(
                            (right_of(t), false),
                        ).push((left_of(t), false)));
                    }
                },
                leaf => match simplify1(leaf.clone()) {
                    Ok(x) => {
                        results.push(x);
                        proof {
                            assert(terms_of(results@) =~= res0.push(x@));
                            assert(bottom_up(t) == Ok::<Term, Error>(x@));
                            assert(run(tasks0, res0) == run(rest, res0.push(x@)));
                        }
                    },
                    Err(e) => {
                        proof {
                            assert(bottom_up(t) == Err::<Term, Error>(e));
                        }
                        return Err(e);
                    },
                },
            }
        }
    }
    proof {
        assert(tasks_of(stack@) =~= Seq::<(Term, bool)>::empty());
    }
    let r = results.pop().unwrap();
    Ok(r)
}

/// Normalises a tree: repeats full passes until one leaves the tree as it
/// was, and returns that tree, or the first failure. The input is left
/// untouched.
pub fn simplify(expr: &Expr) -> (r: Result<Expr, Error>)
    ensures
        model(&r) == normal_form(expr@),
{
    let mut cur = match apply_one_pass(expr) {
        Ok(x) => x,
        Err(e) => {
            return Err(e);
        },
    };
    if cur.same_as(expr) {
        return Ok(cur);
    }
    proof {
        lemma_bottom_up_shrinks(expr@);
    }
    loop
        invariant
            normal_form(cur@) == normal_form(expr@),
        decreases size(cur@),
    {
        let next = match apply_one_pass(&cur) {
            Ok(x) => x,
            Err(e) => {
                return Err(e);
            },
        };
        if next.same_as(&cur) {
            return Ok(cur);
        }
        proof {
            lemma_bottom_up_shrinks(cur@);
        }
        cur = next;
    }
}

} // verus!
