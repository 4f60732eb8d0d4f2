//! Untyped Plutus Core terms: the target of lowering.
//!
//! Names carry display text and a unique number; only the unique matters to
//! the meaning of a term, so the spec view keeps uniques alone.
use vstd::prelude::*;
use crate::ir::{Constant, ConstantV, DefaultFunction};

verus! {

/// A UPLC variable name.
#[derive(Debug)]
pub struct UName {
    pub text: String,
    pub unique: usize,
}

/// UPLC terms.
#[derive(Debug)]
pub enum Term {
    Var(UName),
    Lambda(UName, Box<Term>),
    Apply(Box<Term>, Box<Term>),
    Delay(Box<Term>),
    Force(Box<Term>),
    Constant(Constant),
    Builtin(DefaultFunction),
    Error,
    Constr(usize, Vec<Term>),
    Case(Box<Term>, Vec<Term>),
}

/// The mathematical value of a UPLC term.
pub enum UTm {
    Var(usize),
    Lam(usize, Box<UTm>),
    App(Box<UTm>, Box<UTm>),
    Delay(Box<UTm>),
    Force(Box<UTm>),
    Const(ConstantV),
    Builtin(DefaultFunction),
    Error,
    Constr(usize, Seq<UTm>),
    Case(Box<UTm>, Seq<UTm>),
}

pub open spec fn view_term(t: Term) -> UTm
    decreases t,
{
    match t {
        Term::Var(n) => UTm::Var(n.unique),
        Term::Lambda(n, b) => UTm::Lam(n.unique, Box::new(view_term(*b))),
        Term::Apply(f, a) => UTm::App(Box::new(view_term(*f)), Box::new(view_term(*a))),
        Term::Delay(b) => UTm::Delay(Box::new(view_term(*b))),
        Term::Force(b) => UTm::Force(Box::new(view_term(*b))),
        Term::Constant(c) => UTm::Const(c@),
        Term::Builtin(f) => UTm::Builtin(f),
        Term::Error => UTm::Error,
        Term::Constr(tag, fields) => UTm::Constr(
            tag,
            Seq::new(
                fields.len() as nat,
                |i: int|
                    if 0 <= i < fields.len() {
                        view_term(fields[i])
                    } else {
                        UTm::Error
                    },
            ),
        ),
        Term::Case(s, arms) => UTm::Case(
            Box::new(view_term(*s)),
            Seq::new(
                arms.len() as nat,
                |i: int|
                    if 0 <= i < arms.len() {
                        view_term(arms[i])
                    } else {
                        UTm::Error
                    },
            ),
        ),
    }
}

impl View for Term {
    type V = UTm;

    open spec fn view(&self) -> UTm {
        view_term(*self)
    }
}

/// Views of a sequence of terms.
pub open spec fn term_views(s: Seq<Term>) -> Seq<UTm> {
    Seq::new(s.len(), |i: int| s[i]@)
}

/// The view of a term with fields, through `term_views`.
pub proof fn lemma_term_views(t: Term)
    ensures
        match t {
            Term::Constr(tag, fields) => t@ == UTm::Constr(tag, term_views(fields@)),
            Term::Case(s, arms) => t@ == UTm::Case(Box::new(s@), term_views(arms@)),
            _ => true,
        },
{
    match t {
        Term::Constr(_, fields) => {
            let a = match view_term(t) {
                UTm::Constr(_, a) => a,
                _ => Seq::empty(),
            };
            assert(a =~= term_views(fields@));
        },
        Term::Case(_, arms) => {
            let a = match view_term(t) {
                UTm::Case(_, a) => a,
                _ => Seq::empty(),
            };
            assert(a =~= term_views(arms@));
        },
        _ => {},
    }
}

/// `h` forced `k` times.
pub open spec fn forced(h: UTm, k: nat) -> UTm
    decreases k,
{
    if k == 0 {
        h
    } else {
        UTm::Force(Box::new(forced(h, (k - 1) as nat)))
    }
}

/// `h` applied to `args`, left to right.
pub open spec fn applied(h: UTm, args: Seq<UTm>) -> UTm
    decreases args.len(),
{
    if args.len() == 0 {
        h
    } else {
        UTm::App(Box::new(applied(h, args.drop_last())), Box::new(args.last()))
    }
}

/// A builtin, forced as its type requires, applied to `args`.
pub open spec fn ubuiltin(f: DefaultFunction, args: Seq<UTm>) -> UTm {
    applied(forced(UTm::Builtin(f), f.spec_force_count()), args)
}

/// `if c then y else n`, evaluating only the chosen branch.
pub open spec fn lazy_if(c: UTm, y: UTm, n: UTm) -> UTm {
    UTm::Force(
        Box::new(
            ubuiltin(
                DefaultFunction::IfThenElse,
                seq![c, UTm::Delay(Box::new(y)), UTm::Delay(Box::new(n))],
            ),
        ),
    )
}

/// `body` under lambdas binding `ps`, the first outermost.
pub open spec fn lambdas(ps: Seq<usize>, body: UTm) -> UTm
    decreases ps.len(),
{
    if ps.len() == 0 {
        body
    } else {
        lambdas(ps.drop_last(), UTm::Lam(ps.last(), Box::new(body)))
    }
}

/// `x` occurs free in `t`.
pub open spec fn ufree(t: UTm, x: usize) -> bool
    decreases t,
{
    match t {
        UTm::Var(n) => n == x,
        UTm::Lam(p, b) => p != x && ufree(*b, x),
        UTm::App(f, a) => ufree(*f, x) || ufree(*a, x),
        UTm::Delay(b) => ufree(*b, x),
        UTm::Force(b) => ufree(*b, x),
        UTm::Const(_) => false,
        UTm::Builtin(_) => false,
        UTm::Error => false,
        UTm::Constr(_, fs) => ufree_list(fs, x),
        UTm::Case(s, arms) => ufree(*s, x) || ufree_list(arms, x),
    }
}

/// `x` occurs free in some term of `s`.
pub open spec fn ufree_list(s: Seq<UTm>, x: usize) -> bool
    decreases s,
{
    if s.len() == 0 {
        false
    } else {
        ufree_list(s.drop_last(), x) || ufree(s.last(), x)
    }
}

/// `x` is free in the list exactly when it is free in one of its terms.
pub proof fn lemma_ufree_list(s: Seq<UTm>, x: usize)
    ensures
        ufree_list(s, x) <==> exists|i: int| 0 <= i < s.len() && ufree(#[trigger] s[i], x),
    decreases s.len(),
{
    if s.len() > 0 {
        lemma_ufree_list(s.drop_last(), x);
        if exists|i: int| 0 <= i < s.len() && ufree(#[trigger] s[i], x) {
            let i = choose|i: int| 0 <= i < s.len() && ufree(#[trigger] s[i], x);
            if i < s.len() - 1 {
                assert(s.drop_last()[i] == s[i]);
            }
        }
        if ufree_list(s.drop_last(), x) {
            let i = choose|i: int| 0 <= i < s.drop_last().len() && ufree(#[trigger] s.drop_last()[i], x);
            assert(s[i] == s.drop_last()[i]);
        }
    }
}

/// Lambdas bind their parameters and nothing else.
pub proof fn lemma_ufree_lambdas(ps: Seq<usize>, body: UTm, x: usize)
    ensures
        ufree(lambdas(ps, body), x) <==> !ps.contains(x) && ufree(body, x),
    decreases ps.len(),
{
    if ps.len() > 0 {
        lemma_ufree_lambdas(ps.drop_last(), UTm::Lam(ps.last(), Box::new(body)), x);
        if ps.contains(x) {
            let k = choose|k: int| 0 <= k < ps.len() && ps[k] == x;
            if k < ps.len() - 1 {
                assert(ps.drop_last()[k] == x);
            }
        }
        if ps.drop_last().contains(x) {
            let k = choose|k: int| 0 <= k < ps.drop_last().len() && ps.drop_last()[k] == x;
            assert(ps[k] == x);
        }
    }
}

/// An application binds nothing.
pub proof fn lemma_ufree_applied(h: UTm, args: Seq<UTm>, x: usize)
    ensures
        ufree(applied(h, args), x) <==> ufree(h, x) || exists|i: int| 0 <= i < args.len() && ufree(#[trigger] args[i], x),
    decreases args.len(),
{
    if args.len() > 0 {
        lemma_ufree_applied(h, args.drop_last(), x);
        if exists|i: int| 0 <= i < args.len() && ufree(#[trigger] args[i], x) {
            let i = choose|i: int| 0 <= i < args.len() && ufree(#[trigger] args[i], x);
            if i < args.len() - 1 {
                assert(args.drop_last()[i] == args[i]);
            }
        }
        if exists|i: int| 0 <= i < args.drop_last().len() && ufree(#[trigger] args.drop_last()[i], x) {
            let i = choose|i: int| 0 <= i < args.drop_last().len() && ufree(#[trigger] args.drop_last()[i], x);
            assert(args[i] == args.drop_last()[i]);
        }
    }
}

/// Forcing binds nothing.
pub proof fn lemma_ufree_forced(h: UTm, k: nat, x: usize)
    ensures
        ufree(forced(h, k), x) <==> ufree(h, x),
    decreases k,
{
    if k > 0 {
        lemma_ufree_forced(h, (k - 1) as nat, x);
    }
}

/// A builtin call is free in exactly the variables of its arguments.
pub proof fn lemma_ufree_builtin(f: DefaultFunction, args: Seq<UTm>, x: usize)
    ensures
        ufree(ubuiltin(f, args), x) <==> exists|i: int| 0 <= i < args.len() && ufree(#[trigger] args[i], x),
{
    lemma_ufree_applied(forced(UTm::Builtin(f), f.spec_force_count()), args, x);
    lemma_ufree_forced(UTm::Builtin(f), f.spec_force_count(), x);
}

/// A lazy conditional is free in the variables of its three parts.
pub proof fn lemma_ufree_if(c: UTm, y: UTm, n: UTm, x: usize)
    ensures
        ufree(lazy_if(c, y, n), x) <==> ufree(c, x) || ufree(y, x) || ufree(n, x),
{
    let args = seq![c, UTm::Delay(Box::new(y)), UTm::Delay(Box::new(n))];
    lemma_ufree_builtin(DefaultFunction::IfThenElse, args, x);
    if ufree(c, x) {
        assert(ufree(args[0], x));
    }
    if ufree(y, x) {
        assert(ufree(args[1], x));
    }
    if ufree(n, x) {
        assert(ufree(args[2], x));
    }
}

/// A term with no free variable.
pub open spec fn uclosed(t: UTm) -> bool {
    forall|x: usize| !ufree(t, x)
}

/// Exec builders, each with the view it produces.
pub fn var(n: UName) -> (r: Term)
    ensures
        r@ == UTm::Var(n.unique),
{
    Term::Var(n)
}

pub fn apply(f: Term, a: Term) -> (r: Term)
    ensures
        r@ == UTm::App(Box::new(f@), Box::new(a@)),
{
    Term::Apply(Box::new(f), Box::new(a))
}

pub fn delay(b: Term) -> (r: Term)
    ensures
        r@ == UTm::Delay(Box::new(b@)),
{
    Term::Delay(Box::new(b))
}

pub fn force(b: Term) -> (r: Term)
    ensures
        r@ == UTm::Force(Box::new(b@)),
{
    Term::Force(Box::new(b))
}

pub fn lambda(n: UName, b: Term) -> (r: Term)
    ensures
        r@ == UTm::Lam(n.unique, Box::new(b@)),
{
    Term::Lambda(n, Box::new(b))
}


impl UName {
    /// A copy of this name.
    pub fn duplicate(&self) -> (r: UName)
        ensures
            r.unique == self.unique,
    {
        UName { text: self.text.clone(), unique: self.unique }
    }
}

/// Copies of a sequence of terms.
fn duplicate_terms(items: &Vec<Term>) -> (r: Vec<Term>)
    ensures
        term_views(r@) == term_views(items@),
    decreases items,
{
    let mut r: Vec<Term> = Vec::new();
    let mut i: usize = 0;
    while i < items.len()
        invariant
            i <= items@.len(),
            r@.len() == i,
            forall|k: int| 0 <= k < i ==> (#[trigger] r@[k])@ == items@[k]@,
        decreases items@.len() - i,
    {
        proof {
            assert(decreases_to!(*items => items[i as int]));
        }
        r.push(items[i].duplicate());
        i += 1;
    }
    assert(term_views(r@) =~= term_views(items@));
    r
}

impl Term {
    /// A copy of this term.
    pub fn duplicate(&self) -> (r: Term)
        ensures
            r@ == self@,
        decreases self,
    {
        proof {
            lemma_term_views(*self);
        }
        let r = match self {
            Term::Var(n) => Term::Var(n.duplicate()),
            Term::Lambda(n, b) => Term::Lambda(n.duplicate(), Box::new(b.duplicate())),
            Term::Apply(f, a) => Term::Apply(Box::new(f.duplicate()), Box::new(a.duplicate())),
            Term::Delay(b) => Term::Delay(Box::new(b.duplicate())),
            Term::Force(b) => Term::Force(Box::new(b.duplicate())),
            Term::Constant(c) => Term::Constant(c.duplicate()),
            Term::Builtin(f) => Term::Builtin(*f),
            Term::Error => Term::Error,
            Term::Constr(tag, fields) => {
                proof {
                    assert(decreases_to!(*self => (*self)->Constr_1));
                }
                Term::Constr(*tag, duplicate_terms(fields))
            },
            Term::Case(s, arms) => {
                proof {
                    assert(decreases_to!(*self => (*self)->Case_1));
                }
                Term::Case(Box::new(s.duplicate()), duplicate_terms(arms))
            },
        };
        proof {
            lemma_term_views(r);
        }
        r
    }
}

} // verus!
