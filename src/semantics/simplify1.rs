//! One-step rewrite rules, one function per operator. Each takes operands
//! that are already in normal form and never looks below them.
use vstd::arithmetic::div_mod::{lemma_mod_add_multiples_vanish, lemma_mul_mod_noop, lemma_small_mod};
use vstd::arithmetic::mul::lemma_mul_basics;
use vstd::arithmetic::power::{lemma_pow0, lemma_pow_mod_noop, lemma_pow_multiplies, lemma_square_is_pow2, pow};
use vstd::prelude::*;
use vstd::wrapping::i32_specs;

use super::{model, Error};
use crate::syntax::{size, Expr, Term};

verus! {

/// Whether an exponent is a negated constant: a negation node over a
/// constant. A constant whose value is below zero is not one.
pub open spec fn negative_constant(t: Term) -> bool {
    t matches Term::Neg(x) && *x is Const
}

/// The addition rules, in priority order.
pub open spec fn add_rule(a: Term, b: Term) -> Term {
    if a == Term::Const(0) {
        b
    } else if b == Term::Const(0) {
        a
    } else {
        let same = Term::Add(Box::new(a), Box::new(b));
        match (a, b) {
            (Term::Const(m), Term::Const(n)) => Term::Const(i32_specs::wrapping_add(m, n)),
            (Term::Sub(x, c), Term::Const(m)) => if *c == Term::Const(m) { *x } else { same },
            (Term::Const(m), Term::Sub(x, c)) => if *c == Term::Const(m) { *x } else { same },
            (Term::Add(x, c), Term::Const(m)) => match *c {
                Term::Const(n) => Term::Add(x, Box::new(Term::Const(i32_specs::wrapping_add(n, m)))),
                _ => same,
            },
            (Term::Const(m), Term::Add(x, c)) => match *c {
                Term::Const(n) => Term::Add(x, Box::new(Term::Const(i32_specs::wrapping_add(m, n)))),
                _ => same,
            },
            _ => same,
        }
    }
}

/// The subtraction rules, in priority order.
pub open spec fn sub_rule(a: Term, b: Term) -> Term {
    let same = Term::Sub(Box::new(a), Box::new(b));
    if b == Term::Const(0) {
        a
    } else if a is Const && b is Const {
        Term::Const(i32_specs::wrapping_sub(a->Const_0, b->Const_0))
    } else if a == b {
        Term::Const(0)
    } else {
        match (a, b) {
            (Term::Add(x, c), Term::Const(m)) => if *c == Term::Const(m) { *x } else { same },
            (Term::Const(m), Term::Add(x, c)) => if *c == Term::Const(m) {
                Term::Neg(x)
            } else {
                same
            },
            (Term::Sub(x, c), Term::Const(n)) => match *c {
                Term::Const(m) => Term::Sub(x, Box::new(Term::Const(i32_specs::wrapping_add(m, n)))),
                _ => same,
            },
            _ => same,
        }
    }
}

/// The multiplication rules, in priority order.
pub open spec fn mul_rule(a: Term, b: Term) -> Term {
    if a == Term::Const(0) || b == Term::Const(0) {
        Term::Const(0)
    } else if a == Term::Const(1) {
        b
    } else if b == Term::Const(1) {
        a
    } else if a is Const && b is Const {
        Term::Const(i32_specs::wrapping_mul(a->Const_0, b->Const_0))
    } else {
        Term::Mul(Box::new(a), Box::new(b))
    }
}

/// The exponentiation rules, in priority order; `x ^ 0` comes before `0 ^ x`.
/// Two constants fold only where the exponent is not below zero; otherwise
/// the node stays as it is.
pub open spec fn exp_rule(a: Term, b: Term) -> Result<Term, Error> {
    if b == Term::Const(0) {
        Ok(Term::Const(1))
    } else if a == Term::Const(0) {
        Ok(Term::Const(0))
    } else if a == Term::Const(1) {
        Ok(Term::Const(1))
    } else if b == Term::Const(1) {
        Ok(a)
    } else if negative_constant(b) {
        Err(Error::NegativePower)
    } else if a is Const && b is Const && b->Const_0 >= 0 {
        Ok(Term::Const(i32_specs::signed_crop(pow(a->Const_0 as int, b->Const_0 as nat))))
    } else {
        Ok(Term::Exp(Box::new(a), Box::new(b)))
    }
}

/// The negation rules, in priority order.
pub open spec fn neg_rule(a: Term) -> Term {
    match a {
        Term::Neg(x) => *x,
        Term::Const(m) => Term::Const(i32_specs::wrapping_sub(0, m)),
        _ => Term::Neg(Box::new(a)),
    }
}

/// Reducing an `i32` modulo 2^32 into the range of `i32` gives it back.
pub proof fn lemma_crop_in_range(x: i32)
    ensures
        i32_specs::signed_crop(x as int) == x,
{
    if x < 0 {
        assert((x as int) % 0x1_0000_0000 == x + 0x1_0000_0000);
    } else {
        assert((x as int) % 0x1_0000_0000 == x);
    }
}

/// Reducing modulo 2^32 into the range of `i32` keeps the residue.
proof fn lemma_crop_residue(z: int)
    ensures
        (i32_specs::signed_crop(z) as int) % 0x1_0000_0000 == z % 0x1_0000_0000,
{
    let m: int = 0x1_0000_0000;
    let r = z % m;
    lemma_small_mod(r as nat, m as nat);
    lemma_mod_add_multiples_vanish(r - m, m);
}

/// One round of square-and-multiply keeps `acc * b^k` modulo 2^32.
proof fn lemma_pow_round(acc: int, b: int, k: nat, acc2: int, b2: int)
    requires
        acc2 % 0x1_0000_0000 == (if k % 2 == 1 { acc * b } else { acc }) % 0x1_0000_0000,
        b2 % 0x1_0000_0000 == (b * b) % 0x1_0000_0000,
    ensures
        (acc2 * pow(b2, k / 2)) % 0x1_0000_0000 == (acc * pow(b, k)) % 0x1_0000_0000,
{
    let m: int = 0x1_0000_0000;
    let h = k / 2;
    let a1: int = if k % 2 == 1 { acc * b } else { acc };
    lemma_pow_mod_noop(b2, h, m);
    lemma_pow_mod_noop(b * b, h, m);
    assert(pow(b2, h) % m == pow(b * b, h) % m);
    lemma_square_is_pow2(b);
    lemma_pow_multiplies(b, 2, h);
    assert(pow(b * b, h) == pow(b, 2 * h));
    lemma_mul_mod_noop(acc2, pow(b2, h), m);
    lemma_mul_mod_noop(a1, pow(b, 2 * h), m);
    assert((acc2 * pow(b2, h)) % m == (a1 * pow(b, 2 * h)) % m);
    if k % 2 == 1 {
        reveal(pow);
        assert(pow(b, k) == b * pow(b, 2 * h));
        assert(a1 * pow(b, 2 * h) == acc * pow(b, k)) by (nonlinear_arith)
            requires
                a1 == acc * b,
                pow(b, k) == b * pow(b, 2 * h),
        ;
    } else {
        assert(k == 2 * h);
    }
}

/// `base` raised to `exp` in two's-complement 32-bit arithmetic: the power
/// reduced modulo 2^32 into the range of `i32`.
fn wrapping_pow(base: i32, exp: u32) -> (r: i32)
    ensures
        r == i32_specs::signed_crop(pow(base as int, exp as nat)),
{
    let mut acc: i32 = 1;
    let mut b: i32 = base;
    let mut k: u32 = exp;
    proof {
        lemma_mul_basics(pow(base as int, exp as nat));
    }
    while k > 0
        invariant
            (acc * pow(b as int, k as nat)) % 0x1_0000_0000 == pow(base as int, exp as nat)
                % 0x1_0000_0000,
        decreases k,
    {
        let ghost (acc0, b0, k0) = (acc, b, k);
        if k % 2 == 1 {
            acc = acc.wrapping_mul(b);
            proof {
                lemma_crop_residue(acc0 * b0);
            }
        }
        b = b.wrapping_mul(b);
        k = k / 2;
        proof {
            lemma_crop_residue(b0 * b0);
            lemma_pow_round(acc0 as int, b0 as int, k0 as nat, acc as int, b as int);
        }
    }
    proof {
        lemma_pow0(b as int);
        lemma_mul_basics(acc as int);
        lemma_crop_in_range(acc);
    }
    acc
}

fn is_const(e: &Expr, n: i32) -> (r: bool)
    ensures
        r == (e@ == Term::Const(n)),
{
    match e {
        Expr::Const(m) => *m == n,
        _ => false,
    }
}

fn const_of(e: &Expr) -> (r: Option<i32>)
    ensures
        r matches Some(n) ==> e@ == Term::Const(n),
        r is None ==> !(e@ is Const),
{
    match e {
        Expr::Const(m) => Some(*m),
        _ => None,
    }
}

/// `a + b` after one rewrite step. Constants fold in two's-complement
/// 32-bit arithmetic, wrapping on overflow.
pub fn add(a: Expr, b: Expr) -> (r: Result<Expr, Error>)
    ensures
        r matches Ok(e) && e@ == add_rule(a@, b@),
{
    if is_const(&a, 0) {
        return Ok(b);
    }
    if is_const(&b, 0) {
        return Ok(a);
    }
    match (a, b) {
        (Expr::Const(m), Expr::Const(n)) => Ok(Expr::Const(m.wrapping_add(n))),
        (Expr::Sub(x, c), Expr::Const(m)) => {
            if is_const(&c, m) {
                Ok(*x)
            } else {
                Ok(Expr::add(Expr::Sub(x, c), Expr::Const(m)))
            }
        },
        (Expr::Const(m), Expr::Sub(x, c)) => {
            if is_const(&c, m) {
                Ok(*x)
            } else {
                Ok(Expr::add(Expr::Const(m), Expr::Sub(x, c)))
            }
        },
        (Expr::Add(x, c), Expr::Const(m)) => match const_of(&c) {
            Some(n) => Ok(Expr::add(*x, Expr::Const(n.wrapping_add(m)))),
            None => Ok(Expr::add(Expr::Add(x, c), Expr::Const(m))),
        },
        (Expr::Const(m), Expr::Add(x, c)) => match const_of(&c) {
            Some(n) => Ok(Expr::add(*x, Expr::Const(m.wrapping_add(n)))),
            None => Ok(Expr::add(Expr::Const(m), Expr::Add(x, c))),
        },
        (a, b) => Ok(Expr::add(a, b)),
    }
}

/// `a - b` after one rewrite step. Constants fold in two's-complement
/// 32-bit arithmetic, wrapping on overflow.
pub fn sub(a: Expr, b: Expr) -> (r: Result<Expr, Error>)
    ensures
        r matches Ok(e) && e@ == sub_rule(a@, b@),
{
    if is_const(&b, 0) {
        return Ok(a);
    }
    if let (Some(m), Some(n)) = (const_of(&a), const_of(&b)) {
        return Ok(Expr::Const(m.wrapping_sub(n)));
    }
    if a.same_as(&b) {
        return Ok(Expr::Const(0));
    }
    match (a, b) {
        (Expr::Add(x, c), Expr::Const(m)) => {
            if is_const(&c, m) {
                Ok(*x)
            } else {
                Ok(Expr::sub(Expr::Add(x, c), Expr::Const(m)))
            }
        },
        (Expr::Const(m), Expr::Add(x, c)) => {
            if is_const(&c, m) {
                Ok(Expr::Neg(x))
            } else {
                Ok(Expr::sub(Expr::Const(m), Expr::Add(x, c)))
            }
        },
        (Expr::Sub(x, c), Expr::Const(n)) => match const_of(&c) {
            Some(m) => Ok(Expr::sub(*x, Expr::Const(m.wrapping_add(n)))),
            None => Ok(Expr::sub(Expr::Sub(x, c), Expr::Const(n))),
        },
        (a, b) => Ok(Expr::sub(a, b)),
    }
}

/// `a * b` after one rewrite step. Constants fold in two's-complement
/// 32-bit arithmetic, wrapping on overflow.
pub fn mul(a: Expr, b: Expr) -> (r: Result<Expr, Error>)
    ensures
        r matches Ok(e) && e@ == mul_rule(a@, b@),
{
    if is_const(&a, 0) || is_const(&b, 0) {
        return Ok(Expr::Const(0));
    }
    if is_const(&a, 1) {
        return Ok(b);
    }
    if is_const(&b, 1) {
        return Ok(a);
    }
    match (const_of(&a), const_of(&b)) {
        (Some(m), Some(n)) => Ok(Expr::Const(m.wrapping_mul(n))),
        _ => Ok(Expr::mul(a, b)),
    }
}

fn is_negative_constant(e: &Expr) -> (r: bool)
    ensures
        r == negative_constant(e@),
{
    match e {
        Expr::Neg(x) => const_of(x).is_some(),
        _ => false,
    }
}

/// `a ^ b` after one rewrite step; fails where the exponent is a negated
/// constant `-c` and the base is neither `0` nor `1`. Constants fold in
/// two's-complement 32-bit arithmetic (wrapping on overflow); a constant
/// exponent below zero leaves the node unchanged.
pub fn exp(a: Expr, b: Expr) -> (r: Result<Expr, Error>)
    ensures
        model(&r) == exp_rule(a@, b@),
{
    if is_const(&b, 0) {
        return Ok(Expr::Const(1));
    }
    if is_const(&a, 0) {
        return Ok(Expr::Const(0));
    }
    if is_const(&a, 1) {
        return Ok(Expr::Const(1));
    }
    if is_const(&b, 1) {
        return Ok(a);
    }
    if is_negative_constant(&b) {
        return Err(Error::NegativePower);
    }
    match (const_of(&a), const_of(&b)) {
        (Some(m), Some(n)) => {
            if n >= 0 {
                Ok(Expr::Const(wrapping_pow(m, n as u32)))
            } else {
                Ok(Expr::exp(a, b))
            }
        },
        _ => Ok(Expr::exp(a, b)),
    }
}

/// `-a` after one rewrite step. Negating a constant wraps on overflow
/// (`-i32::MIN` is `i32::MIN`).
pub fn neg(a: Expr) -> (r: Result<Expr, Error>)
    ensures
        r matches Ok(e) && e@ == neg_rule(a@),
{
    match a {
        Expr::Neg(x) => Ok(*x),
        Expr::Const(m) => Ok(Expr::Const(0i32.wrapping_sub(m))),
        a => Ok(Expr::neg(a)),
    }
}

/// A rewrite either leaves the node as it was or makes the tree smaller.
pub proof fn lemma_add_rule_shrinks(a: Term, b: Term)
    ensures
        add_rule(a, b) == Term::Add(Box::new(a), Box::new(b)) || size(add_rule(a, b)) < 1
            + size(a) + size(b),
{
    reveal_with_fuel(size, 3);
}

/// A rewrite either leaves the node as it was or makes the tree smaller.
pub proof fn lemma_sub_rule_shrinks(a: Term, b: Term)
    ensures
        sub_rule(a, b) == Term::Sub(Box::new(a), Box::new(b)) || size(sub_rule(a, b)) < 1
            + size(a) + size(b),
{
    reveal_with_fuel(size, 3);
}

/// A rewrite either leaves the node as it was or makes the tree smaller.
pub proof fn lemma_mul_rule_shrinks(a: Term, b: Term)
    ensures
        mul_rule(a, b) == Term::Mul(Box::new(a), Box::new(b)) || size(mul_rule(a, b)) < 1
            + size(a) + size(b),
{
}

/// A rewrite either leaves the node as it was or makes the tree smaller.
pub proof fn lemma_exp_rule_shrinks(a: Term, b: Term)
    ensures
        exp_rule(a, b) matches Ok(u) ==> (u == Term::Exp(Box::new(a), Box::new(b)) || size(u)
            < 1 + size(a) + size(b)),
{
}

/// A rewrite either leaves the node as it was or makes the tree smaller.
pub proof fn lemma_neg_rule_shrinks(a: Term)
    ensures
        neg_rule(a) == Term::Neg(Box::new(a)) || size(neg_rule(a)) < 1 + size(a),
{
}

} // verus!
