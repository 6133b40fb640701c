//! Infix text to expression trees.
//!
//! Grammar, loosest binding first; spaces, tabs and line breaks may stand
//! between tokens:
//!
//! ```text
//! sum     := product (('+' | '-') product)*      left-associative
//! product := power ('*' power)*                  left-associative
//! power   := unary ('^' power)?                  right-associative
//! unary   := '-' unary | atom
//! atom    := digits | name | '$' name | '(' sum ')'
//! name    := (letter | '_') (letter | digit | '_')*
//! ```
//!
//! A number must fit in `i32`; there are no negative literals (`-5` is a
//! negation of `5`).
use vstd::prelude::*;

use crate::syntax::{Expr, Term};

verus! {

pub open spec fn is_space(c: char) -> bool {
    c == ' ' || c == '\t' || c == '\n' || c == '\r'
}

pub open spec fn is_digit(c: char) -> bool {
    '0' <= c && c <= '9'
}

pub open spec fn is_name_start(c: char) -> bool {
    ('a' <= c && c <= 'z') || ('A' <= c && c <= 'Z') || c == '_'
}

pub open spec fn is_name_char(c: char) -> bool {
    is_name_start(c) || is_digit(c)
}

/// The first position at or after `i` that is not a space.
pub open spec fn skip(s: Seq<char>, i: int) -> int
    decreases s.len() - i,
{
    if 0 <= i < s.len() && is_space(s[i]) {
        skip(s, i + 1)
    } else {
        i
    }
}

/// The first position at or after `i` that does not hold a name character.
pub open spec fn name_end(s: Seq<char>, i: int) -> int
    decreases s.len() - i,
{
    if 0 <= i < s.len() && is_name_char(s[i]) {
        name_end(s, i + 1)
    } else {
        i
    }
}

/// The first position at or after `i` that does not hold a digit.
pub open spec fn digits_end(s: Seq<char>, i: int) -> int
    decreases s.len() - i,
{
    if 0 <= i < s.len() && is_digit(s[i]) {
        digits_end(s, i + 1)
    } else {
        i
    }
}

/// The decimal value of a run of digits.
pub open spec fn decimal(d: Seq<char>) -> int
    decreases d.len(),
{
    if d.len() == 0 {
        0
    } else {
        10 * decimal(d.drop_last()) + (d.last() as int - '0' as int)
    }
}

pub proof fn lemma_scan_bounds(s: Seq<char>, i: int)
    requires
        0 <= i <= s.len(),
    ensures
        i <= skip(s, i) <= s.len(),
        i <= name_end(s, i) <= s.len(),
        i <= digits_end(s, i) <= s.len(),
    decreases s.len() - i,
{
    if i < s.len() {
        lemma_scan_bounds(s, i + 1);
    }
}

/// `atom` at position `i`: the tree and the position after it.
pub open spec fn atom(s: Seq<char>, i: int) -> Option<(Term, int)>
    decreases s.len() - i, 0nat,
{
    if !(0 <= i <= s.len()) {
        None
    } else {
        let j = skip(s, i);
        proof {
            lemma_scan_bounds(s, i);
        }
        if j >= s.len() {
            None
        } else if is_digit(s[j]) {
            let k = digits_end(s, j);
            let v = decimal(s.subrange(j, k));
            if v <= i32::MAX {
                Some((Term::Const(v as i32), k))
            } else {
                None
            }
        } else if is_name_start(s[j]) {
            let k = name_end(s, j + 1);
            Some((Term::Var(s.subrange(j, k)), k))
        } else if s[j] == '$' && j + 1 < s.len() && is_name_start(s[j + 1]) {
            let k = name_end(s, j + 2);
            Some((Term::Metavar(s.subrange(j + 1, k)), k))
        } else if s[j] == '(' {
            match sum(s, j + 1) {
                Some((t, k)) => {
                    let m = skip(s, k);
                    if 0 <= m < s.len() && s[m] == ')' {
                        Some((t, m + 1))
                    } else {
                        None
                    }
                },
                None => None,
            }
        } else {
            None
        }
    }
}

/// `unary` at position `i`.
pub open spec fn unary(s: Seq<char>, i: int) -> Option<(Term, int)>
    decreases s.len() - i, 1nat,
{
    if !(0 <= i <= s.len()) {
        None
    } else {
        let j = skip(s, i);
        proof {
            lemma_scan_bounds(s, i);
        }
        if j < s.len() && s[j] == '-' {
            match unary(s, j + 1) {
                Some((t, k)) => Some((Term::Neg(Box::new(t)), k)),
                None => None,
            }
        } else {
            atom(s, i)
        }
    }
}

// Each rule below goes on only where the operand just read moved past its
// start. Every operand takes at least one character, so this never stops a
// parse; it is what makes the recursion visibly well-founded.

/// `power` at position `i`.
pub open spec fn power(s: Seq<char>, i: int) -> Option<(Term, int)>
    decreases s.len() - i, 2nat,
{
    match unary(s, i) {
        Some((b, k)) => if !(0 <= i < k <= s.len()) {
            None
        } else {
            let j = skip(s, k);
            proof {
                lemma_scan_bounds(s, k);
            }
            if j < s.len() && s[j] == '^' {
                match power(s, j + 1) {
                    Some((e, m)) => Some((Term::Exp(Box::new(b), Box::new(e)), m)),
                    None => None,
                }
            } else {
                Some((b, k))
            }
        },
        None => None,
    }
}

/// The rest of a `product` after `acc`, which ends at `k`.
pub open spec fn product_rest(s: Seq<char>, acc: Term, k: int) -> Option<(Term, int)>
    decreases s.len() - k, 3nat,
{
    if !(0 <= k <= s.len()) {
        None
    } else {
        let j = skip(s, k);
        proof {
            lemma_scan_bounds(s, k);
        }
        if j < s.len() && s[j] == '*' {
            match power(s, j + 1) {
                Some((t, m)) => if k < m <= s.len() {
                    product_rest(s, Term::Mul(Box::new(acc), Box::new(t)), m)
                } else {
                    None
                },
                None => None,
            }
        } else {
            Some((acc, k))
        }
    }
}

/// `product` at position `i`.
pub open spec fn product(s: Seq<char>, i: int) -> Option<(Term, int)>
    decreases s.len() - i, 3nat,
{
    match power(s, i) {
        Some((t, k)) => if i < k <= s.len() {
            product_rest(s, t, k)
        } else {
            None
        },
        None => None,
    }
}

/// The rest of a `sum` after `acc`, which ends at `k`.
pub open spec fn sum_rest(s: Seq<char>, acc: Term, k: int) -> Option<(Term, int)>
    decreases s.len() - k, 4nat,
{
    if !(0 <= k <= s.len()) {
        None
    } else {
        let j = skip(s, k);
        proof {
            lemma_scan_bounds(s, k);
        }
        if j < s.len() && (s[j] == '+' || s[j] == '-') {
            match product(s, j + 1) {
                Some((t, m)) => if k < m <= s.len() {
                    sum_rest(
                        s,
                        if s[j] == '+' {
                            Term::Add(Box::new(acc), Box::new(t))
                        } else {
                            Term::Sub(Box::new(acc), Box::new(t))
                        },
                        m,
                    )
                } else {
                    None
                },
                None => None,
            }
        } else {
            Some((acc, k))
        }
    }
}

/// `sum` at position `i`.
pub open spec fn sum(s: Seq<char>, i: int) -> Option<(Term, int)>
    decreases s.len() - i, 4nat,
{
    match product(s, i) {
        Some((t, k)) => if i < k <= s.len() {
            sum_rest(s, t, k)
        } else {
            None
        },
        None => None,
    }
}

/// The tree that the whole text denotes, if it is one `sum` with nothing
/// but spaces after it.
pub open spec fn parse(s: Seq<char>) -> Option<Term> {
    match sum(s, 0) {
        Some((t, k)) => if skip(s, k) == s.len() {
            Some(t)
        } else {
            None
        },
        None => None,
    }
}

pub open spec fn found(r: Option<(Expr, usize)>) -> Option<(Term, int)> {
    match r {
        Some((e, k)) => Some((e@, k as int)),
        None => None,
    }
}

/// Relies on str::chars: the characters of the text, in order.
#[verifier::external_body]
fn chars_of(s: &str) -> (r: Vec<char>)
    ensures
        r@ == s@,
{
    s.chars().collect()
}

proof fn lemma_decimal_step(s: Seq<char>, j: int, m: int)
    requires
        0 <= j <= m < s.len(),
    ensures
        decimal(s.subrange(j, m + 1)) == 10 * decimal(s.subrange(j, m)) + (s[m] as int - '0' as int),
{
    assert(s.subrange(j, m + 1).drop_last() =~= s.subrange(j, m));
}

proof fn lemma_decimal_grows(s: Seq<char>, j: int, a: int, b: int)
    requires
        0 <= j <= a <= b <= s.len(),
        forall|m: int| j <= m < b ==> is_digit(#[trigger] s[m]),
    ensures
        0 <= decimal(s.subrange(j, a)) <= decimal(s.subrange(j, b)),
    decreases b - a,
{
    if a < b {
        lemma_decimal_grows(s, j, a, b - 1);
        lemma_decimal_step(s, j, b - 1);
    } else {
        lemma_decimal_non_negative(s, j, a);
    }
}

proof fn lemma_decimal_non_negative(s: Seq<char>, j: int, a: int)
    requires
        0 <= j <= a <= s.len(),
        forall|m: int| j <= m < a ==> is_digit(#[trigger] s[m]),
    ensures
        0 <= decimal(s.subrange(j, a)),
    decreases a - j,
{
    if a > j {
        lemma_decimal_non_negative(s, j, a - 1);
        lemma_decimal_step(s, j, a - 1);
    } else {
        assert(s.subrange(j, a).len() == 0);
    }
}

proof fn lemma_digits_run(s: Seq<char>, i: int)
    requires
        0 <= i <= s.len(),
    ensures
        forall|m: int| i <= m < digits_end(s, i) ==> is_digit(#[trigger] s[m]),
    decreases s.len() - i,
{
    lemma_scan_bounds(s, i);
    if i < s.len() && is_digit(s[i]) {
        lemma_digits_run(s, i + 1);
    }
}

fn space(c: char) -> (r: bool)
    ensures
        r == is_space(c),
{
    c == ' ' || c == '\t' || c == '\n' || c == '\r'
}

fn digit(c: char) -> (r: bool)
    ensures
        r == is_digit(c),
{
    '0' <= c && c <= '9'
}

fn name_start(c: char) -> (r: bool)
    ensures
        r == is_name_start(c),
{
    ('a' <= c && c <= 'z') || ('A' <= c && c <= 'Z') || c == '_'
}

fn name_char(c: char) -> (r: bool)
    ensures
        r == is_name_char(c),
{
    name_start(c) || digit(c)
}

/// The text being read, both as it was given and as characters.
struct Text<'a> {
    src: &'a str,
    chars: Vec<char>,
}

impl<'a> Text<'a> {
    spec fn wf(&self) -> bool {
        self.chars@ == self.src@
    }

    spec fn s(&self) -> Seq<char> {
        self.chars@
    }

    fn skip(&self, i: usize) -> (j: usize)
        requires
            i <= self.s().len(),
        ensures
            j == skip(self.s(), i as int),
    {
        let mut j = i;
        while j < self.chars.len() && space(self.chars[j])
            invariant
                i <= j <= self.s().len(),
                skip(self.s(), j as int) == skip(self.s(), i as int),
            decreases self.s().len() - j,
        {
            j += 1;
        }
        j
    }

    fn name_end(&self, i: usize) -> (j: usize)
        requires
            i <= self.s().len(),
        ensures
            j == name_end(self.s(), i as int),
    {
        let mut j = i;
        while j < self.chars.len() && name_char(self.chars[j])
            invariant
                i <= j <= self.s().len(),
                name_end(self.s(), j as int) == name_end(self.s(), i as int),
            decreases self.s().len() - j,
        {
            j += 1;
        }
        j
    }

    fn digits_end(&self, i: usize) -> (j: usize)
        requires
            i <= self.s().len(),
        ensures
            j == digits_end(self.s(), i as int),
    {
        let mut j = i;
        while j < self.chars.len() && digit(self.chars[j])
            invariant
                i <= j <= self.s().len(),
                digits_end(self.s(), j as int) == digits_end(self.s(), i as int),
            decreases self.s().len() - j,
        {
            j += 1;
        }
        j
    }

    /// The value of the digits in `[j, k)`, if it fits in `i32`.
    fn number(&self, j: usize, k: usize) -> (r: Option<i32>)
        requires
            j <= k <= self.s().len(),
            forall|m: int| j <= m < k ==> is_digit(#[trigger] self.s()[m]),
        ensures
            r matches Some(v) ==> v as int == decimal(self.s().subrange(j as int, k as int)),
            r is None ==> decimal(self.s().subrange(j as int, k as int)) > i32::MAX,
    {
        let mut v: u64 = 0;
        let mut m = j;
        proof {
            assert(self.s().subrange(j as int, j as int).len() == 0);
        }
        while m < k
            invariant
                j <= m <= k <= self.s().len(),
                forall|x: int| j <= x < k ==> is_digit(#[trigger] self.s()[x]),
                v as int == decimal(self.s().subrange(j as int, m as int)),
                v <= i32::MAX,
            decreases k - m,
        {
            let d = (self.chars[m] as u32 - '0' as u32) as u64;
            proof {
                lemma_decimal_step(self.s(), j as int, m as int);
            }
            v = v * 10 + d;
            m += 1;
            if v > i32::MAX as u64 {
                proof {
                    lemma_decimal_grows(self.s(), j as int, m as int, k as int);
                }
                return None;
            }
        }
        Some(v as i32)
    }

    fn atom(&self, i: usize) -> (r: Option<(Expr, usize)>)
        requires
            self.wf(),
            i <= self.s().len(),
        ensures
            found(r) == atom(self.s(), i as int),
        decreases self.s().len() - i, 0nat,
    {
        let n = self.chars.len();
        let j = self.skip(i);
        proof {
            lemma_scan_bounds(self.s(), i as int);
        }
        if j >= n {
            return None;
        }
        let c = self.chars[j];
        if digit(c) {
            let k = self.digits_end(j);
            proof {
                lemma_scan_bounds(self.s(), j as int);
                lemma_digits_run(self.s(), j as int);
            }
            match self.number(j, k) {
                Some(v) => Some((Expr::Const(v), k)),
                None => None,
            }
        } else if name_start(c) {
            proof {
                lemma_scan_bounds(self.s(), j + 1);
            }
            let k = self.name_end(j + 1);
            let name = self.src.substring_char(j, k).to_owned();
            Some((Expr::Var(name), k))
        } else if c == '$' && j + 1 < n && name_start(self.chars[j + 1]) {
            proof {
                lemma_scan_bounds(self.s(), j + 2);
            }
            let k = self.name_end(j + 2);
            let name = self.src.substring_char(j + 1, k).to_owned();
            Some((Expr::Metavar(name), k))
        } else if c == '(' {
            match self.sum(j + 1) {
                Some((t, k)) => {
                    if k > n {
                        return None;
                    }
                    let m = self.skip(k);
                    if m < n && self.chars[m] == ')' {
                        Some((t, m + 1))
                    } else {
                        None
                    }
                },
                None => None,
            }
        } else {
            None
        }
    }

    fn unary(&self, i: usize) -> (r: Option<(Expr, usize)>)
        requires
            self.wf(),
            i <= self.s().len(),
        ensures
            found(r) == unary(self.s(), i as int),
        decreases self.s().len() - i, 1nat,
    {
        let j = self.skip(i);
        proof {
            lemma_scan_bounds(self.s(), i as int);
        }
        if j < self.chars.len() && self.chars[j] == '-' {
            match self.unary(j + 1) {
                Some((t, k)) => Some((Expr::neg(t), k)),
                None => None,
            }
        } else {
            self.atom(i)
        }
    }

    fn power(&self, i: usize) -> (r: Option<(Expr, usize)>)
        requires
            self.wf(),
            i <= self.s().len(),
        ensures
            found(r) == power(self.s(), i as int),
        decreases self.s().len() - i, 2nat,
    {
        let (b, k) = match self.unary(i) {
            Some(p) => p,
            None => {
                return None;
            },
        };
        if !(i < k && k <= self.chars.len()) {
            return None;
        }
        let j = self.skip(k);
        proof {
            lemma_scan_bounds(self.s(), k as int);
        }
        if j < self.chars.len() && self.chars[j] == '^' {
            match self.power(j + 1) {
                Some((e, m)) => Some((Expr::exp(b, e), m)),
                None => None,
            }
        } else {
            Some((b, k))
        }
    }

    fn product(&self, i: usize) -> (r: Option<(Expr, usize)>)
        requires
            self.wf(),
            i <= self.s().len(),
        ensures
            found(r) == product(self.s(), i as int),
        decreases self.s().len() - i, 3nat,
    {
        let n = self.chars.len();
        let (mut acc, mut k) = match self.power(i) {
            Some(p) => p,
            None => {
                return None;
            },
        };
        if !(i < k && k <= n) {
            return None;
        }
        loop
            invariant
                self.wf(),
                n == self.s().len(),
                i < k <= n,
                product_rest(self.s(), acc@, k as int) == product(self.s(), i as int),
            decreases n - k,
        {
            let j = self.skip(k);
            proof {
                lemma_scan_bounds(self.s(), k as int);
            }
            if j < n && self.chars[j] == '*' {
                match self.power(j + 1) {
                    Some((t, m)) => {
                        if k < m && m <= n {
                            acc = Expr::mul(acc, t);
                            k = m;
                        } else {
                            return None;
                        }
                    },
                    None => {
                        return None;
                    },
                }
            } else {
                return Some((acc, k));
            }
        }
    }

    fn sum(&self, i: usize) -> (r: Option<(Expr, usize)>)
        requires
            self.wf(),
            i <= self.s().len(),
        ensures
            found(r) == sum(self.s(), i as int),
        decreases self.s().len() - i, 4nat,
    {
        let n = self.chars.len();
        let (mut acc, mut k) = match self.product(i) {
            Some(p) => p,
            None => {
                return None;
            },
        };
        if !(i < k && k <= n) {
            return None;
        }
        loop
            invariant
                self.wf(),
                n == self.s().len(),
                i < k <= n,
                sum_rest(self.s(), acc@, k as int) == sum(self.s(), i as int),
            decreases n - k,
        {
            let j = self.skip(k);
            proof {
                lemma_scan_bounds(self.s(), k as int);
            }
            if j < n && (self.chars[j] == '+' || self.chars[j] == '-') {
                let plus = self.chars[j] == '+';
                match self.product(j + 1) {
                    Some((t, m)) => {
                        if k < m && m <= n {
                            acc = if plus {
                                Expr::add(acc, t)
                            } else {
                                Expr::sub(acc, t)
                            };
                            k = m;
                        } else {
                            return None;
                        }
                    },
                    None => {
                        return None;
                    },
                }
            } else {
                return Some((acc, k));
            }
        }
    }
}

/// Reads an expression from infix text. Fails exactly when the text is not
/// one `sum` of the grammar above, give or take surrounding spaces.
pub fn parse_expr(input: &str) -> (r: Result<Expr, String>)
    ensures
        match r {
            Ok(e) => parse(input@) == Some(e@),
            Err(_) => parse(input@) is None,
        },
{
    let text = Text { src: input, chars: chars_of(input) };
    match text.sum(0) {
        Some((e, k)) => {
            if k <= text.chars.len() && text.skip(k) == text.chars.len() {
                Ok(e)
            } else {
                Err("invalid expression".to_owned())
            }
        },
        None => Err("invalid expression".to_owned()),
    }
}

} // verus!
