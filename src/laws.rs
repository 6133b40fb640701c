//! Properties of normalisation, stated over the model and proved.
use vstd::arithmetic::power::{lemma0_pow, lemma1_pow, lemma_pow0, lemma_pow1, pow};
use vstd::prelude::*;
use vstd::wrapping::i32_specs;

use crate::semantics::simplify1::{
    add_rule, exp_rule, lemma_add_rule_shrinks, lemma_crop_in_range, lemma_exp_rule_shrinks,
    lemma_mul_rule_shrinks, lemma_neg_rule_shrinks, lemma_sub_rule_shrinks, mul_rule, neg_rule,
    negative_constant, sub_rule,
};
use crate::semantics::{bottom_up, lemma_bottom_up_shrinks, normal_form, rewrite, Error};
use crate::syntax::{has_placeholder, size, Term};

verus! {

/// Normalising a normal form gives it back unchanged, and a normal form is
/// left as it is by one more pass.
pub proof fn lemma_simplify_idempotent(e: Term)
    requires
        normal_form(e) is Ok,
    ensures
        bottom_up(normal_form(e)->Ok_0) == normal_form(e),
        normal_form(normal_form(e)->Ok_0) == normal_form(e),
    decreases size(e),
{
    if let Ok(u) = bottom_up(e) {
        if u != e {
            lemma_bottom_up_shrinks(e);
            lemma_simplify_idempotent(u);
        }
    }
}

/// The rules never bring a placeholder in.
proof fn lemma_rules_keep_out_placeholders(t: Term)
    requires
        !has_placeholder(t),
    ensures
        rewrite(t) matches Ok(u) ==> !has_placeholder(u),
        rewrite(t) != Err::<Term, Error>(Error::Metavar),
{
    reveal_with_fuel(has_placeholder, 3);
}

/// Within one pass: a placeholder makes the pass fail, a `Metavar` failure
/// comes only from a placeholder, and what a pass returns holds none.
proof fn lemma_pass_placeholders(t: Term)
    ensures
        has_placeholder(t) ==> bottom_up(t) is Err,
        bottom_up(t) == Err::<Term, Error>(Error::Metavar) ==> has_placeholder(t),
        bottom_up(t) matches Ok(u) ==> !has_placeholder(u),
    decreases t,
{
    match t {
        Term::Neg(a) => {
            lemma_pass_placeholders(*a);
            if let Ok(x) = bottom_up(*a) {
                lemma_rules_keep_out_placeholders(Term::Neg(Box::new(x)));
            }
        },
        Term::Add(a, b) | Term::Sub(a, b) | Term::Mul(a, b) | Term::Exp(a, b) => {
            lemma_pass_placeholders(*a);
            lemma_pass_placeholders(*b);
            if let (Ok(x), Ok(y)) = (bottom_up(*a), bottom_up(*b)) {
                lemma_rules_keep_out_placeholders(
                    match t {
                        Term::Add(_, _) => Term::Add(Box::new(x), Box::new(y)),
                        Term::Sub(_, _) => Term::Sub(Box::new(x), Box::new(y)),
                        Term::Mul(_, _) => Term::Mul(Box::new(x), Box::new(y)),
                        _ => Term::Exp(Box::new(x), Box::new(y)),
                    },
                );
            }
        },
        _ => {},
    }
}

proof fn lemma_no_placeholder_no_metavar(t: Term)
    requires
        !has_placeholder(t),
    ensures
        normal_form(t) != Err::<Term, Error>(Error::Metavar),
    decreases size(t),
{
    lemma_pass_placeholders(t);
    if let Ok(u) = bottom_up(t) {
        if u != t {
            lemma_bottom_up_shrinks(t);
            lemma_no_placeholder_no_metavar(u);
        }
    }
}

/// Normalisation fails with `Metavar` exactly when the tree holds a
/// placeholder, at any depth.
pub proof fn lemma_placeholder_fails(e: Term)
    ensures
        (normal_form(e) == Err::<Term, Error>(Error::Metavar)) == has_placeholder(e),
        has_placeholder(e) ==> normal_form(e) is Err,
{
    lemma_pass_placeholders(e);
    lemma_never_negative_power(e);
    if !has_placeholder(e) {
        lemma_no_placeholder_no_metavar(e);
    }
}

/// Whether the tree is built from constants and operators alone.
pub open spec fn is_closed(t: Term) -> bool
    decreases t,
{
    match t {
        Term::Const(_) => true,
        Term::Neg(a) => is_closed(*a),
        Term::Add(a, b) => is_closed(*a) && is_closed(*b),
        Term::Sub(a, b) => is_closed(*a) && is_closed(*b),
        Term::Mul(a, b) => is_closed(*a) && is_closed(*b),
        Term::Exp(a, b) => is_closed(*a) && is_closed(*b),
        _ => false,
    }
}

/// The value of a closed tree in two's-complement 32-bit arithmetic, with
/// `0 ^ 0 == 1`. An exponent below zero has no value (see
/// `exponents_non_negative`).
pub open spec fn value(t: Term) -> i32
    decreases t,
{
    match t {
        Term::Const(n) => n,
        Term::Neg(a) => i32_specs::wrapping_sub(0, value(*a)),
        Term::Add(a, b) => i32_specs::wrapping_add(value(*a), value(*b)),
        Term::Sub(a, b) => i32_specs::wrapping_sub(value(*a), value(*b)),
        Term::Mul(a, b) => i32_specs::wrapping_mul(value(*a), value(*b)),
        Term::Exp(a, b) => i32_specs::signed_crop(pow(value(*a) as int, value(*b) as nat)),
        _ => 0,
    }
}

/// Whether every exponent in the tree has a value of zero or more.
pub open spec fn exponents_non_negative(t: Term) -> bool
    decreases t,
{
    match t {
        Term::Neg(a) => exponents_non_negative(*a),
        Term::Add(a, b) => exponents_non_negative(*a) && exponents_non_negative(*b),
        Term::Sub(a, b) => exponents_non_negative(*a) && exponents_non_negative(*b),
        Term::Mul(a, b) => exponents_non_negative(*a) && exponents_non_negative(*b),
        Term::Exp(a, b) => exponents_non_negative(*a) && exponents_non_negative(*b) && value(*b)
            >= 0,
        _ => true,
    }
}

/// The rules fold two constants to the value of the operation.
proof fn lemma_rules_on_constants(m: i32, n: i32)
    ensures
        add_rule(Term::Const(m), Term::Const(n)) == Term::Const(i32_specs::wrapping_add(m, n)),
        sub_rule(Term::Const(m), Term::Const(n)) == Term::Const(i32_specs::wrapping_sub(m, n)),
        mul_rule(Term::Const(m), Term::Const(n)) == Term::Const(i32_specs::wrapping_mul(m, n)),
        neg_rule(Term::Const(m)) == Term::Const(i32_specs::wrapping_sub(0, m)),
        n >= 0 ==> exp_rule(Term::Const(m), Term::Const(n)) == Ok::<Term, Error>(
            Term::Const(i32_specs::signed_crop(pow(m as int, n as nat))),
        ),
{
    lemma_crop_in_range(m);
    lemma_crop_in_range(n);
    lemma_pow0(m as int);
    lemma_pow1(m as int);
    if n > 0 {
        lemma0_pow(n as nat);
    }
    if n >= 0 {
        lemma1_pow(n as nat);
    }
    assert(i32_specs::signed_crop(0) == 0);
    assert(i32_specs::signed_crop(1) == 1);
    if m == 0 || n == 0 {
        assert(m as int * n as int == 0) by (nonlinear_arith)
            requires
                m == 0 || n == 0,
        ;
    } else if m == 1 {
        assert(m as int * n as int == n as int) by (nonlinear_arith)
            requires
                m == 1,
        ;
    } else if n == 1 {
        assert(m as int * n as int == m as int) by (nonlinear_arith)
            requires
                n == 1,
        ;
    }
}

/// One pass folds a closed tree to its value.
proof fn lemma_pass_folds_constants(t: Term)
    requires
        is_closed(t),
        exponents_non_negative(t),
    ensures
        bottom_up(t) == Ok::<Term, Error>(Term::Const(value(t))),
    decreases t,
{
    match t {
        Term::Neg(a) => {
            lemma_pass_folds_constants(*a);
            lemma_rules_on_constants(value(*a), 0);
        },
        Term::Add(a, b) | Term::Sub(a, b) | Term::Mul(a, b) | Term::Exp(a, b) => {
            lemma_pass_folds_constants(*a);
            lemma_pass_folds_constants(*b);
            lemma_rules_on_constants(value(*a), value(*b));
        },
        _ => {},
    }
}

/// A tree of constants and operators, whose exponents are not negative,
/// normalises to the constant that evaluating it gives.
pub proof fn lemma_constant_evaluation(e: Term)
    requires
        is_closed(e),
        exponents_non_negative(e),
    ensures
        normal_form(e) == Ok::<Term, Error>(Term::Const(value(e))),
{
    lemma_pass_folds_constants(e);
    let c = Term::Const(value(e));
    if c != e {
        assert(bottom_up(c) == Ok::<Term, Error>(c));
        assert(normal_form(c) == Ok::<Term, Error>(c));
    }
}

/// Whether a pass over the tree meets an exponentiation whose exponent
/// normalises to a negated constant while its base normalises to neither
/// `0` nor `1` (those two bases win over the exponent).
pub open spec fn meets_negative_exponent(t: Term) -> bool
    decreases t,
{
    match t {
        Term::Neg(a) => meets_negative_exponent(*a),
        Term::Add(a, b) => meets_negative_exponent(*a) || meets_negative_exponent(*b),
        Term::Sub(a, b) => meets_negative_exponent(*a) || meets_negative_exponent(*b),
        Term::Mul(a, b) => meets_negative_exponent(*a) || meets_negative_exponent(*b),
        Term::Exp(a, b) => {
            ||| meets_negative_exponent(*a)
            ||| meets_negative_exponent(*b)
            ||| {
                &&& bottom_up(*a) matches Ok(x)
                &&& bottom_up(*b) matches Ok(y)
                &&& x != Term::Const(0)
                &&& x != Term::Const(1)
                &&& negative_constant(y)
            }
        },
        _ => false,
    }
}

/// The outcome of `k` full passes, stopping at the first failure.
pub open spec fn passes(t: Term, k: nat) -> Result<Term, Error>
    decreases k,
{
    if k == 0 {
        Ok(t)
    } else {
        match bottom_up(t) {
            Ok(u) => passes(u, (k - 1) as nat),
            Err(e) => Err(e),
        }
    }
}

/// Whether no negation over a constant and no sum of two constants stands
/// anywhere in the tree. Every tree that a pass returns is like this.
spec fn settled(t: Term) -> bool
    decreases t,
{
    match t {
        Term::Neg(a) => !(*a is Const) && settled(*a),
        Term::Add(a, b) => !(*a is Const && *b is Const) && settled(*a) && settled(*b),
        Term::Sub(a, b) => settled(*a) && settled(*b),
        Term::Mul(a, b) => settled(*a) && settled(*b),
        Term::Exp(a, b) => settled(*a) && settled(*b),
        _ => true,
    }
}

/// On settled operands the rules give a settled tree and never fail with
/// `NegativePower`.
proof fn lemma_rules_keep_settled(t: Term)
    requires
        match t {
            Term::Neg(a) => settled(*a),
            Term::Add(a, b) | Term::Sub(a, b) | Term::Mul(a, b) | Term::Exp(a, b) => settled(*a)
                && settled(*b),
            _ => true,
        },
    ensures
        rewrite(t) matches Ok(u) ==> settled(u),
        rewrite(t) != Err::<Term, Error>(Error::NegativePower),
{
    reveal_with_fuel(settled, 3);
}

/// What a pass returns is settled, and a pass never fails with
/// `NegativePower`.
proof fn lemma_pass_settled(t: Term)
    ensures
        bottom_up(t) matches Ok(u) ==> settled(u),
        bottom_up(t) != Err::<Term, Error>(Error::NegativePower),
    decreases t,
{
    match t {
        Term::Neg(a) => {
            lemma_pass_settled(*a);
            if let Ok(x) = bottom_up(*a) {
                lemma_rules_keep_settled(Term::Neg(Box::new(x)));
            }
        },
        Term::Add(a, b) | Term::Sub(a, b) | Term::Mul(a, b) | Term::Exp(a, b) => {
            lemma_pass_settled(*a);
            lemma_pass_settled(*b);
            if let (Ok(x), Ok(y)) = (bottom_up(*a), bottom_up(*b)) {
                lemma_rules_keep_settled(
                    match t {
                        Term::Add(_, _) => Term::Add(Box::new(x), Box::new(y)),
                        Term::Sub(_, _) => Term::Sub(Box::new(x), Box::new(y)),
                        Term::Mul(_, _) => Term::Mul(Box::new(x), Box::new(y)),
                        _ => Term::Exp(Box::new(x), Box::new(y)),
                    },
                );
            }
        },
        _ => {
            lemma_rules_keep_settled(t);
        },
    }
}

proof fn lemma_never_meets_negative_exponent(t: Term)
    ensures
        !meets_negative_exponent(t),
    decreases t,
{
    match t {
        Term::Neg(a) => lemma_never_meets_negative_exponent(*a),
        Term::Add(a, b) | Term::Sub(a, b) | Term::Mul(a, b) | Term::Exp(a, b) => {
            lemma_never_meets_negative_exponent(*a);
            lemma_never_meets_negative_exponent(*b);
            lemma_pass_settled(*b);
        },
        _ => {},
    }
}

proof fn lemma_never_negative_power(e: Term)
    ensures
        normal_form(e) != Err::<Term, Error>(Error::NegativePower),
    decreases size(e),
{
    lemma_pass_settled(e);
    if let Ok(u) = bottom_up(e) {
        if u != e {
            lemma_bottom_up_shrinks(e);
            lemma_never_negative_power(u);
        }
    }
}

/// Within one pass: the pass fails with `NegativePower` exactly when it
/// meets a negative exponent, which it never does, since a negation over a
/// constant is folded before its parent sees it.
pub proof fn lemma_pass_negative_power(t: Term)
    ensures
        (bottom_up(t) == Err::<Term, Error>(Error::NegativePower)) == meets_negative_exponent(t),
        !meets_negative_exponent(t),
{
    lemma_pass_settled(t);
    lemma_never_meets_negative_exponent(t);
}

/// Normalisation fails with `NegativePower` exactly when one of its passes
/// meets an exponentiation whose exponent normalises to a negated constant
/// while its base normalises to neither `0` nor `1`. No pass yields a
/// negated constant, so normalisation never fails with `NegativePower`.
pub proof fn lemma_negative_power(e: Term)
    ensures
        (normal_form(e) == Err::<Term, Error>(Error::NegativePower)) <==> exists|k: nat|
            #[trigger] passes(e, k) matches Ok(x) && meets_negative_exponent(x),
        normal_form(e) != Err::<Term, Error>(Error::NegativePower),
{
    lemma_never_negative_power(e);
    assert forall|k: nat| !(#[trigger] passes(e, k) matches Ok(x) && meets_negative_exponent(x)) by {
        if let Ok(x) = passes(e, k) {
            lemma_never_meets_negative_exponent(x);
        }
    }
}

/// The right-nested sum `cs[0] + (cs[1] + (... + cs[n - 1]))`, of
/// `cs.len() - 1` additions.
pub open spec fn add_chain(cs: Seq<i32>) -> Term
    decreases cs.len(),
{
    if cs.len() <= 1 {
        Term::Const(if cs.len() == 1 { cs[0] } else { 0 })
    } else {
        Term::Add(Box::new(Term::Const(cs[0])), Box::new(add_chain(cs.drop_first())))
    }
}

/// The two's-complement sum of the constants.
pub open spec fn chain_sum(cs: Seq<i32>) -> i32
    decreases cs.len(),
{
    if cs.len() == 0 {
        0
    } else if cs.len() == 1 {
        cs[0]
    } else {
        i32_specs::wrapping_add(cs[0], chain_sum(cs.drop_first()))
    }
}

/// Number of full passes that normalisation runs, the last one being the
/// pass that changes nothing or fails.
pub open spec fn pass_count(t: Term) -> nat
    decreases size(t),
{
    match bottom_up(t) {
        Ok(u) => if u == t {
            1
        } else {
            proof {
                lemma_bottom_up_shrinks(t);
            }
            1 + pass_count(u)
        },
        Err(_) => 1,
    }
}

proof fn lemma_add_chain_closed(cs: Seq<i32>)
    ensures
        is_closed(add_chain(cs)),
        exponents_non_negative(add_chain(cs)),
        value(add_chain(cs)) == chain_sum(cs),
    decreases cs.len(),
{
    reveal_with_fuel(is_closed, 2);
    reveal_with_fuel(exponents_non_negative, 2);
    reveal_with_fuel(value, 2);
    if cs.len() > 1 {
        lemma_add_chain_closed(cs.drop_first());
    }
}

/// A right-nested chain of additions of constants normalises to the sum
/// of the constants; the first pass folds the whole chain, so at most two
/// passes run, which is never more than the number of constants.
pub proof fn lemma_add_chain(cs: Seq<i32>)
    requires
        cs.len() >= 1,
    ensures
        passes(add_chain(cs), 1) == Ok::<Term, Error>(Term::Const(chain_sum(cs))),
        normal_form(add_chain(cs)) == Ok::<Term, Error>(Term::Const(chain_sum(cs))),
        pass_count(add_chain(cs)) == if cs.len() == 1 { 1nat } else { 2nat },
        pass_count(add_chain(cs)) <= cs.len(),
{
    let e = add_chain(cs);
    lemma_add_chain_closed(cs);
    lemma_pass_folds_constants(e);
    lemma_constant_evaluation(e);
    let c = Term::Const(chain_sum(cs));
    assert(passes(c, 0) == Ok::<Term, Error>(c));
    assert(bottom_up(c) == Ok::<Term, Error>(c));
    assert(pass_count(c) == 1);
}

/// Whether some exponentiation in the tree has a negated constant as its
/// exponent.
pub open spec fn has_negative_exponent(t: Term) -> bool
    decreases t,
{
    match t {
        Term::Neg(a) => has_negative_exponent(*a),
        Term::Add(a, b) => has_negative_exponent(*a) || has_negative_exponent(*b),
        Term::Sub(a, b) => has_negative_exponent(*a) || has_negative_exponent(*b),
        Term::Mul(a, b) => has_negative_exponent(*a) || has_negative_exponent(*b),
        Term::Exp(a, b) => has_negative_exponent(*a) || has_negative_exponent(*b)
            || negative_constant(*b),
        _ => false,
    }
}

/// A tree that a pass leaves as it is has no negative exponent.
proof fn lemma_fixed_point_shape(t: Term)
    requires
        bottom_up(t) == Ok::<Term, Error>(t),
    ensures
        !has_negative_exponent(t),
    decreases t,
{
    match t {
        Term::Neg(a) => {
            lemma_bottom_up_shrinks(*a);
            if let Ok(x) = bottom_up(*a) {
                lemma_neg_rule_shrinks(x);
                lemma_fixed_point_shape(*a);
            }
        },
        Term::Add(a, b) | Term::Sub(a, b) | Term::Mul(a, b) | Term::Exp(a, b) => {
            lemma_bottom_up_shrinks(*a);
            lemma_bottom_up_shrinks(*b);
            if let (Ok(x), Ok(y)) = (bottom_up(*a), bottom_up(*b)) {
                lemma_add_rule_shrinks(x, y);
                lemma_sub_rule_shrinks(x, y);
                lemma_mul_rule_shrinks(x, y);
                lemma_exp_rule_shrinks(x, y);
                lemma_fixed_point_shape(*a);
                lemma_fixed_point_shape(*b);
            }
        },
        _ => {},
    }
}

/// A successful normalisation yields a tree with no placeholder and no
/// exponentiation by a negated constant.
pub proof fn lemma_normal_form_shape(e: Term)
    requires
        normal_form(e) is Ok,
    ensures
        !has_placeholder(normal_form(e)->Ok_0),
        !has_negative_exponent(normal_form(e)->Ok_0),
{
    let r = normal_form(e)->Ok_0;
    lemma_simplify_idempotent(e);
    lemma_pass_placeholders(r);
    lemma_fixed_point_shape(r);
}

} // verus!
