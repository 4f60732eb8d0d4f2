//! UPLC with De Bruijn indices: the form of a program that is serialized.
//!
//! A variable becomes the distance to its binder, counting the innermost
//! binder as 1; a lambda drops its name.
use vstd::prelude::*;
use crate::ir::{Constant, ConstantV, DefaultFunction};
use crate::uplc::{Term, UTm, ufree, ufree_list, lemma_ufree_list, term_views, lemma_term_views};

verus! {

/// UPLC terms with De Bruijn indices.
#[derive(Debug)]
pub enum DTerm {
    Var(usize),
    Lambda(Box<DTerm>),
    Apply(Box<DTerm>, Box<DTerm>),
    Delay(Box<DTerm>),
    Force(Box<DTerm>),
    Constant(Constant),
    Builtin(DefaultFunction),
    Error,
    Constr(usize, Vec<DTerm>),
    Case(Box<DTerm>, Vec<DTerm>),
}

/// The mathematical value of a De Bruijn term.
pub enum DTm {
    Var(nat),
    Lam(Box<DTm>),
    App(Box<DTm>, Box<DTm>),
    Delay(Box<DTm>),
    Force(Box<DTm>),
    Const(ConstantV),
    Builtin(DefaultFunction),
    Error,
    Constr(usize, Seq<DTm>),
    Case(Box<DTm>, Seq<DTm>),
}

pub open spec fn view_dterm(t: DTerm) -> DTm
    decreases t,
{
    match t {
        DTerm::Var(i) => DTm::Var(i as nat),
        DTerm::Lambda(b) => DTm::Lam(Box::new(view_dterm(*b))),
        DTerm::Apply(f, a) => DTm::App(Box::new(view_dterm(*f)), Box::new(view_dterm(*a))),
        DTerm::Delay(b) => DTm::Delay(Box::new(view_dterm(*b))),
        DTerm::Force(b) => DTm::Force(Box::new(view_dterm(*b))),
        DTerm::Constant(c) => DTm::Const(c@),
        DTerm::Builtin(f) => DTm::Builtin(f),
        DTerm::Error => DTm::Error,
        DTerm::Constr(tag, fields) => DTm::Constr(
            tag,
            Seq::new(
                fields.len() as nat,
                |i: int|
                    if 0 <= i < fields.len() {
                        view_dterm(fields[i])
                    } else {
                        DTm::Error
                    },
            ),
        ),
        DTerm::Case(s, arms) => DTm::Case(
            Box::new(view_dterm(*s)),
            Seq::new(
                arms.len() as nat,
                |i: int|
                    if 0 <= i < arms.len() {
                        view_dterm(arms[i])
                    } else {
                        DTm::Error
                    },
            ),
        ),
    }
}

impl View for DTerm {
    type V = DTm;

    open spec fn view(&self) -> DTm {
        view_dterm(*self)
    }
}

pub open spec fn dterm_views(s: Seq<DTerm>) -> Seq<DTm> {
    Seq::new(s.len(), |i: int| s[i]@)
}

proof fn lemma_dterm_views(t: DTerm)
    ensures
        match t {
            DTerm::Constr(tag, fields) => t@ == DTm::Constr(tag, dterm_views(fields@)),
            DTerm::Case(s, arms) => t@ == DTm::Case(Box::new(s@), dterm_views(arms@)),
            _ => true,
        },
{
    match t {
        DTerm::Constr(_, fields) => {
            let a = match view_dterm(t) {
                DTm::Constr(_, a) => a,
                _ => Seq::empty(),
            };
            assert(a =~= dterm_views(fields@));
        },
        DTerm::Case(_, arms) => {
            let a = match view_dterm(t) {
                DTm::Case(_, a) => a,
                _ => Seq::empty(),
            };
            assert(a =~= dterm_views(arms@));
        },
        _ => {},
    }
}

/// The De Bruijn index of `u` under the binders `scope` (innermost last):
/// 1 for the innermost binder of `u`, 0 when `scope` does not bind it.
pub open spec fn index_in(scope: Seq<usize>, u: usize) -> nat
    decreases scope.len(),
{
    if scope.len() == 0 {
        0
    } else if scope.last() == u {
        1
    } else if index_in(scope.drop_last(), u) == 0 {
        0
    } else {
        index_in(scope.drop_last(), u) + 1
    }
}

/// `t` with each variable replaced by its De Bruijn index under `scope`.
pub open spec fn debruijn_tm(t: UTm, scope: Seq<usize>) -> DTm
    decreases t,
{
    match t {
        UTm::Var(n) => DTm::Var(index_in(scope, n)),
        UTm::Lam(p, b) => DTm::Lam(Box::new(debruijn_tm(*b, scope.push(p)))),
        UTm::App(f, a) => DTm::App(Box::new(debruijn_tm(*f, scope)), Box::new(debruijn_tm(*a, scope))),
        UTm::Delay(b) => DTm::Delay(Box::new(debruijn_tm(*b, scope))),
        UTm::Force(b) => DTm::Force(Box::new(debruijn_tm(*b, scope))),
        UTm::Const(c) => DTm::Const(c),
        UTm::Builtin(f) => DTm::Builtin(f),
        UTm::Error => DTm::Error,
        UTm::Constr(tag, fs) => DTm::Constr(
            tag,
            Seq::new(
                fs.len(),
                |i: int|
                    if 0 <= i < fs.len() {
                        debruijn_tm(fs[i], scope)
                    } else {
                        DTm::Error
                    },
            ),
        ),
        UTm::Case(s, arms) => DTm::Case(
            Box::new(debruijn_tm(*s, scope)),
            Seq::new(
                arms.len(),
                |i: int|
                    if 0 <= i < arms.len() {
                        debruijn_tm(arms[i], scope)
                    } else {
                        DTm::Error
                    },
            ),
        ),
    }
}

proof fn lemma_index_in_contains(scope: Seq<usize>, u: usize)
    ensures
        (index_in(scope, u) != 0) == scope.contains(u),
    decreases scope.len(),
{
    if scope.len() > 0 {
        lemma_index_in_contains(scope.drop_last(), u);
        if scope.drop_last().contains(u) {
            let k = choose|k: int| 0 <= k < scope.drop_last().len() && scope.drop_last()[k] == u;
            assert(scope[k] == u);
        }
        if scope.contains(u) && scope.last() != u {
            let k = choose|k: int| 0 <= k < scope.len() && scope[k] == u;
            assert(scope.drop_last()[k] == u);
        }
        if scope.last() == u {
            assert(scope[scope.len() - 1] == u);
        }
    }
}

/// The binder `i` places out from the innermost one (1 being the innermost)
/// binds `x`, and no binder nearer in does.
pub open spec fn nearest_binder(scope: Seq<usize>, i: nat, x: usize) -> bool {
    &&& 1 <= i <= scope.len()
    &&& scope[scope.len() - i] == x
    &&& forall|j: int| scope.len() - i < j < scope.len() ==> scope[j] != x
}

/// `d` is `t` under the binders `scope` (innermost last) with each variable
/// replaced by how far out its binder is, 0 for a variable no binder of
/// `scope` or of `t` binds, each lambda dropping its name, and every other
/// node kept as it is with its parts in place: reading each index back as
/// the name of its binder gives `t` again.
pub open spec fn indexes(t: UTm, d: DTm, scope: Seq<usize>) -> bool
    decreases t,
{
    match t {
        UTm::Var(x) => d matches DTm::Var(i) && if scope.contains(x) {
            nearest_binder(scope, i, x)
        } else {
            i == 0
        },
        UTm::Lam(p, b) => d matches DTm::Lam(db) && indexes(*b, *db, scope.push(p)),
        UTm::App(f, a) => d matches DTm::App(df, da) && indexes(*f, *df, scope) && indexes(*a, *da, scope),
        UTm::Delay(b) => d matches DTm::Delay(db) && indexes(*b, *db, scope),
        UTm::Force(b) => d matches DTm::Force(db) && indexes(*b, *db, scope),
        UTm::Const(c) => d == DTm::Const(c),
        UTm::Builtin(f) => d == DTm::Builtin(f),
        UTm::Error => d == DTm::Error,
        UTm::Constr(tag, fs) => d matches DTm::Constr(tag2, ds) && tag2 == tag && ds.len() == fs.len() && forall|i: int|
            0 <= i < fs.len() ==> indexes(#[trigger] fs[i], ds[i], scope),
        UTm::Case(sc, arms) => d matches DTm::Case(ds, das) && indexes(*sc, *ds, scope) && das.len() == arms.len()
            && forall|i: int| 0 <= i < arms.len() ==> indexes(#[trigger] arms[i], das[i], scope),
    }
}

/// The index of a bound name is the distance to its nearest binder.
proof fn lemma_index_in_nearest(scope: Seq<usize>, x: usize)
    requires
        scope.contains(x),
    ensures
        nearest_binder(scope, index_in(scope, x), x),
    decreases scope.len(),
{
    lemma_index_in_contains(scope, x);
    if scope.last() != x {
        let dl = scope.drop_last();
        assert(dl.contains(x)) by {
            let k = choose|k: int| 0 <= k < scope.len() && scope[k] == x;
            assert(k != scope.len() - 1);
            assert(dl[k] == x);
        }
        lemma_index_in_nearest(dl, x);
        lemma_index_in_contains(dl, x);
        let i = index_in(dl, x);
        assert(index_in(scope, x) == i + 1);
        assert(scope[scope.len() - (i + 1)] == dl[dl.len() - i]);
        assert forall|j: int| scope.len() - (i + 1) < j < scope.len() implies scope[j] != x by {
            if j < dl.len() {
                assert(scope[j] == dl[j]);
            }
        }
    } else {
        assert(index_in(scope, x) == 1);
    }
}

/// De Bruijn conversion changes nothing but names: every variable becomes
/// the distance to its nearest binder, and every application, lambda,
/// delay, force, constant, builtin, constructor and case stays where it is,
/// its parts converted in place.
pub proof fn lemma_debruijn_only_renames(t: UTm, scope: Seq<usize>)
    ensures
        indexes(t, debruijn_tm(t, scope), scope),
    decreases t,
{
    match t {
        UTm::Var(x) => {
            lemma_index_in_contains(scope, x);
            if scope.contains(x) {
                lemma_index_in_nearest(scope, x);
            }
        },
        UTm::Lam(p, b) => lemma_debruijn_only_renames(*b, scope.push(p)),
        UTm::App(f, a) => {
            lemma_debruijn_only_renames(*f, scope);
            lemma_debruijn_only_renames(*a, scope);
        },
        UTm::Delay(b) => lemma_debruijn_only_renames(*b, scope),
        UTm::Force(b) => lemma_debruijn_only_renames(*b, scope),
        UTm::Constr(tag, fs) => {
            assert forall|i: int| 0 <= i < fs.len() implies indexes(#[trigger] fs[i], debruijn_tm(fs[i], scope), scope) by {
                lemma_debruijn_only_renames(fs[i], scope);
            }
        },
        UTm::Case(sc, arms) => {
            lemma_debruijn_only_renames(*sc, scope);
            assert forall|i: int| 0 <= i < arms.len() implies indexes(#[trigger] arms[i], debruijn_tm(arms[i], scope), scope) by {
                lemma_debruijn_only_renames(arms[i], scope);
            }
        },
        _ => {},
    }
}

/// The index of `u` under `scope`, or `None` when `scope` does not bind it.
fn index_of(scope: &Vec<usize>, u: usize) -> (r: Option<usize>)
    ensures
        r matches Some(i) ==> i == index_in(scope@, u) && i != 0,
        r is None ==> index_in(scope@, u) == 0,
{
    let n = scope.len();
    let mut i: usize = n;
    proof {
        assert(scope@.take(i as int) =~= scope@);
    }
    while i > 0
        invariant
            i <= n,
            n == scope@.len(),
            index_in(scope@, u) == if index_in(scope@.take(i as int), u) == 0 {
                0
            } else {
                index_in(scope@.take(i as int), u) + (n - i)
            },
        decreases i,
    {
        proof {
            assert(scope@.take(i as int).drop_last() =~= scope@.take(i - 1));
            assert(scope@.take(i as int).last() == scope@[i - 1]);
        }
        if scope[i - 1] == u {
            return Some(n - i + 1);
        }
        i -= 1;
    }
    None
}

/// Convert `t` under the binders `scope` (innermost last). A variable that
/// `scope` does not bind is returned as the error.
fn convert(t: &Term, scope: &mut Vec<usize>) -> (res: Result<DTerm, usize>)
    ensures
        final(scope)@ == old(scope)@,
        res is Ok <==> forall|x: usize| #[trigger] ufree(t@, x) ==> old(scope)@.contains(x),
        res matches Ok(d) ==> d@ == debruijn_tm(t@, old(scope)@),
        res matches Err(x) ==> ufree(t@, x) && !old(scope)@.contains(x),
    decreases t,
{
    proof {
        lemma_term_views(*t);
    }
    let ghost s0 = scope@;
    match t {
        Term::Var(n) => match index_of(scope, n.unique) {
            Some(i) => {
                proof {
                    lemma_index_in_contains(s0, n.unique);
                    assert forall|x: usize| #[trigger] ufree(t@, x) implies s0.contains(x) by {}
                }
                Ok(DTerm::Var(i))
            },
            None => {
                proof {
                    lemma_index_in_contains(s0, n.unique);
                    assert(ufree(t@, n.unique));
                }
                Err(n.unique)
            },
        },
        Term::Lambda(p, b) => {
            scope.push(p.unique);
            let r = convert(b, scope);
            let ghost inner = scope@;
            scope.pop();
            proof {
                assert(scope@ =~= s0);
                assert(inner == s0.push(p.unique));
                assert forall|x: usize| s0.push(p.unique).contains(x) <==> (s0.contains(x) || x == p.unique) by {
                    if s0.push(p.unique).contains(x) {
                        let k = choose|k: int| 0 <= k < s0.push(p.unique).len() && s0.push(p.unique)[k] == x;
                        if k < s0.len() {
                            assert(s0[k] == x);
                        }
                    }
                    if s0.contains(x) {
                        let k = choose|k: int| 0 <= k < s0.len() && s0[k] == x;
                        assert(s0.push(p.unique)[k] == x);
                    }
                    if x == p.unique {
                        assert(s0.push(p.unique)[s0.len() as int] == x);
                    }
                }
            }
            match r {
                Ok(d) => {
                    proof {
                        assert forall|x: usize| #[trigger] ufree(t@, x) implies s0.contains(x) by {
                            assert(ufree(b@, x));
                        }
                    }
                    Ok(DTerm::Lambda(Box::new(d)))
                },
                Err(x) => {
                    proof {
                        assert(ufree(t@, x));
                    }
                    Err(x)
                },
            }
        },
        Term::Apply(f, a) => {
            let fd = match convert(f, scope) {
                Ok(d) => d,
                Err(x) => {
                    proof {
                        assert(ufree(t@, x));
                    }
                    return Err(x);
                },
            };
            match convert(a, scope) {
                Ok(ad) => {
                    proof {
                        assert forall|x: usize| #[trigger] ufree(t@, x) implies s0.contains(x) by {
                            if !ufree(f@, x) {
                                assert(ufree(a@, x));
                            }
                        }
                    }
                    Ok(DTerm::Apply(Box::new(fd), Box::new(ad)))
                },
                Err(x) => {
                    proof {
                        assert(ufree(t@, x));
                    }
                    Err(x)
                },
            }
        },
        Term::Delay(b) => match convert(b, scope) {
            Ok(d) => {
                proof {
                    assert forall|x: usize| #[trigger] ufree(t@, x) implies s0.contains(x) by {
                        assert(ufree(b@, x));
                    }
                }
                Ok(DTerm::Delay(Box::new(d)))
            },
            Err(x) => {
                proof {
                    assert(ufree(t@, x));
                }
                Err(x)
            },
        },
        Term::Force(b) => match convert(b, scope) {
            Ok(d) => {
                proof {
                    assert forall|x: usize| #[trigger] ufree(t@, x) implies s0.contains(x) by {
                        assert(ufree(b@, x));
                    }
                }
                Ok(DTerm::Force(Box::new(d)))
            },
            Err(x) => {
                proof {
                    assert(ufree(t@, x));
                }
                Err(x)
            },
        },
        Term::Constant(c) => Ok(DTerm::Constant(c.duplicate())),
        Term::Builtin(f) => Ok(DTerm::Builtin(*f)),
        Term::Error => Ok(DTerm::Error),
        Term::Constr(tag, fields) => {
            proof {
                assert(decreases_to!(*t => (*t)->Constr_1));
            }
            let ghost fs = term_views(fields@);
            proof {
                assert(t@ == UTm::Constr(*tag, fs));
                assert forall|x: usize| ufree(t@, x) == ufree_list(fs, x) by {}
            }
            match convert_all(fields, scope) {
                Ok(ds) => {
                    let r = DTerm::Constr(*tag, ds);
                    proof {
                        lemma_dterm_views(r);
                        assert(dterm_views(ds@) =~= Seq::new(
                            fs.len(),
                            |i: int|
                                if 0 <= i < fs.len() {
                                    debruijn_tm(fs[i], s0)
                                } else {
                                    DTm::Error
                                },
                        ));
                        assert forall|x: usize| #[trigger] ufree(t@, x) implies s0.contains(x) by {
                            assert(ufree_list(fs, x));
                        }
                        let dt = debruijn_tm(t@, s0);
                        let sq = dt->Constr_1;
                        assert(sq.len() == fs.len());
                        assert forall|i: int| 0 <= i < fs.len() implies sq[i] == dterm_views(ds@)[i] by {
                            assert(fs[i] == fields@[i]@);
                        }
                        assert(sq =~= dterm_views(ds@));
                    }
                    Ok(r)
                },
                Err(x) => {
                    proof {
                        assert(ufree(t@, x));
                    }
                    Err(x)
                },
            }
        },
        Term::Case(s, arms) => {
            proof {
                assert(decreases_to!(*t => (*t)->Case_1));
            }
            let sd = match convert(s, scope) {
                Ok(d) => d,
                Err(x) => {
                    proof {
                        assert(ufree(t@, x));
                    }
                    return Err(x);
                },
            };
            let ghost fs = term_views(arms@);
            proof {
                assert(t@ == UTm::Case(Box::new(s@), fs));
            }
            match convert_all(arms, scope) {
                Ok(ds) => {
                    let r = DTerm::Case(Box::new(sd), ds);
                    proof {
                        lemma_dterm_views(r);
                        assert(dterm_views(ds@) =~= Seq::new(
                            fs.len(),
                            |i: int|
                                if 0 <= i < fs.len() {
                                    debruijn_tm(fs[i], s0)
                                } else {
                                    DTm::Error
                                },
                        ));
                        assert forall|x: usize| #[trigger] ufree(t@, x) implies s0.contains(x) by {
                            if !ufree(s@, x) {
                                assert(ufree_list(fs, x));
                            }
                        }
                        let dt = debruijn_tm(t@, s0);
                        let sq = dt->Case_1;
                        assert(sq.len() == fs.len());
                        assert forall|i: int| 0 <= i < fs.len() implies sq[i] == dterm_views(ds@)[i] by {
                            assert(fs[i] == arms@[i]@);
                        }
                        assert(sq =~= dterm_views(ds@));
                    }
                    Ok(r)
                },
                Err(x) => {
                    proof {
                        assert(ufree(t@, x));
                    }
                    Err(x)
                },
            }
        },
    }
}

/// Convert each term of `items` under `scope`.
fn convert_all(items: &Vec<Term>, scope: &mut Vec<usize>) -> (res: Result<Vec<DTerm>, usize>)
    ensures
        final(scope)@ == old(scope)@,
        res is Ok <==> forall|x: usize| #[trigger] ufree_list(term_views(items@), x) ==> old(scope)@.contains(x),
        res matches Ok(d) ==> dterm_views(d@) == Seq::new(
            items@.len(),
            |i: int| debruijn_tm(items@[i]@, old(scope)@),
        ),
        res matches Err(x) ==> ufree_list(term_views(items@), x) && !old(scope)@.contains(x),
    decreases items,
{
    let ghost s0 = scope@;
    let ghost vs = term_views(items@);
    let mut out: Vec<DTerm> = Vec::new();
    let mut i: usize = 0;
    while i < items.len()
        invariant
            i <= items@.len(),
            scope@ == s0,
            s0 == old(scope)@,
            vs == term_views(items@),
            out@.len() == i,
            forall|k: int| 0 <= k < i ==> (#[trigger] out@[k])@ == debruijn_tm(items@[k]@, s0),
            forall|k: int, x: usize| 0 <= k < i && #[trigger] ufree(vs[k], x) ==> s0.contains(x),
        decreases items@.len() - i,
    {
        proof {
            assert(decreases_to!(*items => items@));
            assert(decreases_to!(items@ => items@[i as int]));
            assert(vs[i as int] == items@[i as int]@);
        }
        match convert(&items[i], scope) {
            Ok(d) => {
                let ghost before = out@;
                out.push(d);
                proof {
                    assert forall|k: int| 0 <= k < i + 1 implies (#[trigger] out@[k])@ == debruijn_tm(items@[k]@, s0) by {
                        if k < i {
                            assert(out@[k] == before[k]);
                        }
                    }
                }
            },
            Err(x) => {
                proof {
                    assert(ufree(vs[i as int], x));
                    lemma_ufree_list(vs, x);
                }
                return Err(x);
            },
        }
        i += 1;
    }
    proof {
        assert(dterm_views(out@) =~= Seq::new(items@.len(), |k: int| debruijn_tm(items@[k]@, s0)));
        assert forall|x: usize| #[trigger] ufree_list(vs, x) implies s0.contains(x) by {
            lemma_ufree_list(vs, x);
        }
    }
    Ok(out)
}

/// Convert a named term to De Bruijn indices. A free variable is the error.
pub fn to_debruijn(t: &Term) -> (res: Result<DTerm, usize>)
    ensures
        res is Ok <==> (forall|x: usize| !ufree(t@, x)),
        res matches Ok(d) ==> d@ == debruijn_tm(t@, Seq::empty()),
        res matches Ok(d) ==> indexes(t@, d@, Seq::empty()),
        res matches Err(x) ==> ufree(t@, x),
{
    let mut scope: Vec<usize> = Vec::new();
    let r = convert(t, &mut scope);
    proof {
        assert(scope@ =~= Seq::<usize>::empty());
        lemma_debruijn_only_renames(t@, Seq::empty());
    }
    r
}

} // verus!
