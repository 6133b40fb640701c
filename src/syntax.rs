use vstd::prelude::*;

verus! {

/// The mathematical model of an expression: names are character sequences,
/// constants are 32-bit integers, operands are owned subtrees.
pub enum Term {
    Var(Seq<char>),
    Const(i32),
    Neg(Box<Term>),
    Add(Box<Term>, Box<Term>),
    Sub(Box<Term>, Box<Term>),
    Mul(Box<Term>, Box<Term>),
    Exp(Box<Term>, Box<Term>),
    Metavar(Seq<char>),
}

/// An arithmetic expression tree. Each node owns its operands.
#[derive(Debug)]
pub enum Expr {
    Var(String),
    Const(i32),
    Neg(Box<Expr>),
    Add(Box<Expr>, Box<Expr>),
    Sub(Box<Expr>, Box<Expr>),
    Mul(Box<Expr>, Box<Expr>),
    Exp(Box<Expr>, Box<Expr>),
    Metavar(String),
}

/// Number of nodes in a term.
pub open spec fn size(t: Term) -> nat
    decreases t,
{
    match t {
        Term::Neg(a) => 1 + size(*a),
        Term::Add(a, b) => 1 + size(*a) + size(*b),
        Term::Sub(a, b) => 1 + size(*a) + size(*b),
        Term::Mul(a, b) => 1 + size(*a) + size(*b),
        Term::Exp(a, b) => 1 + size(*a) + size(*b),
        _ => 1,
    }
}

/// Whether a placeholder occurs anywhere in the term.
pub open spec fn has_placeholder(t: Term) -> bool
    decreases t,
{
    match t {
        Term::Metavar(_) => true,
        Term::Neg(a) => has_placeholder(*a),
        Term::Add(a, b) => has_placeholder(*a) || has_placeholder(*b),
        Term::Sub(a, b) => has_placeholder(*a) || has_placeholder(*b),
        Term::Mul(a, b) => has_placeholder(*a) || has_placeholder(*b),
        Term::Exp(a, b) => has_placeholder(*a) || has_placeholder(*b),
        _ => false,
    }
}

impl Expr {
    /// The model of this tree.
    pub open spec fn term(&self) -> Term
        decreases self,
    {
        match self {
            Expr::Var(s) => Term::Var(s@),
            Expr::Const(n) => Term::Const(*n),
            Expr::Neg(a) => Term::Neg(Box::new(a.term())),
            Expr::Add(a, b) => Term::Add(Box::new(a.term()), Box::new(b.term())),
            Expr::Sub(a, b) => Term::Sub(Box::new(a.term()), Box::new(b.term())),
            Expr::Mul(a, b) => Term::Mul(Box::new(a.term()), Box::new(b.term())),
            Expr::Exp(a, b) => Term::Exp(Box::new(a.term()), Box::new(b.term())),
            Expr::Metavar(s) => Term::Metavar(s@),
        }
    }

    pub fn var(s: &str) -> (r: Expr)
        ensures
            r@ == Term::Var(s@),
    {
        Expr::Var(s.to_owned())
    }

    pub fn neg(e: Expr) -> (r: Expr)
        ensures
            r@ == Term::Neg(Box::new(e@)),
    {
        Expr::Neg(Box::new(e))
    }

    pub fn add(a: Expr, b: Expr) -> (r: Expr)
        ensures
            r@ == Term::Add(Box::new(a@), Box::new(b@)),
    {
        Expr::Add(Box::new(a), Box::new(b))
    }

    pub fn sub(a: Expr, b: Expr) -> (r: Expr)
        ensures
            r@ == Term::Sub(Box::new(a@), Box::new(b@)),
    {
        Expr::Sub(Box::new(a), Box::new(b))
    }

    pub fn mul(a: Expr, b: Expr) -> (r: Expr)
        ensures
            r@ == Term::Mul(Box::new(a@), Box::new(b@)),
    {
        Expr::Mul(Box::new(a), Box::new(b))
    }

    pub fn exp(a: Expr, b: Expr) -> (r: Expr)
        ensures
            r@ == Term::Exp(Box::new(a@), Box::new(b@)),
    {
        Expr::Exp(Box::new(a), Box::new(b))
    }

    pub fn metavar(s: &str) -> (r: Expr)
        ensures
            r@ == Term::Metavar(s@),
    {
        Expr::Metavar(s.to_owned())
    }

    /// Structural equality, compared node by node with an explicit list of
    /// pairs still to compare, so that deep trees need no deep call stack.
    pub fn same_as(&self, other: &Expr) -> (r: bool)
        ensures
            r == (self@ == other@),
    {
        let mut pending: Vec<(&Expr, &Expr)> = Vec::new();
        pending.push((self, other));
        proof {
            let s = pairs_of(pending@);
            assert(s =~= seq![(self@, other@)]);
            assert(s.drop_last() =~= Seq::<(Term, Term)>::empty());
            assert(all_equal(Seq::<(Term, Term)>::empty()));
            assert(s.last() == (self@, other@));
            assert(all_equal(s) == (self@ == other@));
        }
        while pending.len() > 0
            invariant
                (self@ == other@) == all_equal(pairs_of(pending@)),
            decreases pair_weight(pairs_of(pending@)),
        {
            let ghost before = pairs_of(pending@);
            let (x, y) = pending.pop().unwrap();
            let ghost rest = pairs_of(pending@);
            proof {
                assert(rest =~= before.drop_last());
                assert(before.last() == (x@, y@));
                assert(all_equal(before) == (all_equal(rest) && x@ == y@));
                assert(pair_weight(before) == pair_weight(rest) + size(x@));
            }
            match (x, y) {
                (Expr::Var(a), Expr::Var(b)) => {
                    if !a.eq(b) {
                        return false;
                    }
                },
                (Expr::Const(m), Expr::Const(n)) => {
                    if *m != *n {
                        return false;
                    }
                },
                (Expr::Metavar(a), Expr::Metavar(b)) => {
                    if !a.eq(b) {
                        return false;
                    }
                },
                (Expr::Neg(a), Expr::Neg(b)) => {
                    pending.push((&**a, &**b));
                    proof {
                        let now = pairs_of(pending@);
                        assert(now =~= rest.push((a@, b@)));
                        assert(now.drop_last() =~= rest);
                        assert(all_equal(now) == (all_equal(rest) && a@ == b@));
                        assert(pair_weight(now) == pair_weight(rest) + size(a@));
                    }
                },
                (Expr::Add(a1, b1), Expr::Add(a2, b2))
                | (Expr::Sub(a1, b1), Expr::Sub(a2, b2))
                | (Expr::Mul(a1, b1), Expr::Mul(a2, b2))
                | (Expr::Exp(a1, b1), Expr::Exp(a2, b2)) => {
                    pending.push((&**b1, &**b2));
                    pending.push((&**a1, &**a2));
                    proof {
                        let mid = rest.push((b1@, b2@));
                        assert(pairs_of(pending@) =~= mid.push((a1@, a2@)));
                        let now = pairs_of(pending@);
                        assert(now.drop_last() =~= mid);
                        assert(mid.drop_last() =~= rest);
                        assert(mid.last() == (b1@, b2@));
                        assert(now.last() == (a1@, a2@));
                        assert(all_equal(mid) == (all_equal(rest) && b1@ == b2@));
                        assert(pair_weight(mid) == pair_weight(rest) + size(b1@));
                        assert(all_equal(now) == (all_equal(rest) && b1@ == b2@ && a1@ == a2@));
                        assert(pair_weight(now) == pair_weight(rest) + size(b1@) + size(a1@));
                    }
                },
                _ => {
                    return false;
                },
            }
        }
        true
    }
}

/// The models of a list of pairs of trees.
spec fn pairs_of(s: Seq<(&Expr, &Expr)>) -> Seq<(Term, Term)> {
    s.map_values(|p: (&Expr, &Expr)| (p.0@, p.1@))
}

/// Whether the two sides of every pair are equal.
spec fn all_equal(s: Seq<(Term, Term)>) -> bool
    decreases s.len(),
{
    s.len() == 0 || (all_equal(s.drop_last()) && s.last().0 == s.last().1)
}

/// Nodes left to compare, counted on the left sides.
spec fn pair_weight(s: Seq<(Term, Term)>) -> nat
    decreases s.len(),
{
    if s.len() == 0 {
        0
    } else {
        pair_weight(s.drop_last()) + size(s.last().0)
    }
}

impl View for Expr {
    type V = Term;

    open spec fn view(&self) -> Term {
        self.term()
    }
}

impl PartialEq for Expr {
    fn eq(&self, other: &Expr) -> (r: bool) {
        self.same_as(other)
    }
}

impl vstd::std_specs::cmp::PartialEqSpecImpl for Expr {
    open spec fn obeys_eq_spec() -> bool {
        true
    }

    open spec fn eq_spec(&self, other: &Expr) -> bool {
        self@ == other@
    }
}

impl Eq for Expr {
}

impl Clone for Expr {
    /// A deep copy.
    fn clone(&self) -> (r: Expr)
        ensures
            r@ == self@,
        decreases self,
    {
        match self {
            Expr::Var(s) => Expr::Var(s.clone()),
            Expr::Const(n) => Expr::Const(*n),
            Expr::Neg(a) => Expr::neg((**a).clone()),
            Expr::Add(a, b) => Expr::add((**a).clone(), (**b).clone()),
            Expr::Sub(a, b) => Expr::sub((**a).clone(), (**b).clone()),
            Expr::Mul(a, b) => Expr::mul((**a).clone(), (**b).clone()),
            Expr::Exp(a, b) => Expr::exp((**a).clone(), (**b).clone()),
            Expr::Metavar(s) => Expr::Metavar(s.clone()),
        }
    }
}

} // verus!
