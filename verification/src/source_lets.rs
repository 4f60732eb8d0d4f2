//! Building blocks of the source-let reductions: which registered lets a
//! term holds, how a Boolean consumer is carried through control flow, and
//! how a let-bound name is used in its body.
use vstd::prelude::*;
use std::collections::HashSet;
use crate::ir::{
    Binder, Branch, CaseKind, Constant, ConstantV, Core, RecBinder, Tm, BranchTm, RecTm, TestV, Test, views,
    branch_views, group_views, lemma_views, duplicate_binders, duplicate_branches, binder_uniques,
};
use crate::lower::{sum, lemma_sum_take};

verus! {

broadcast use vstd::std_specs::hash::group_hash_axioms;

/// A term whose value is the value of a subterm it evaluates last: a
/// consumer of that value can move inside it.
pub open spec fn is_carrier(t: Tm) -> bool {
    ||| t is Let
    ||| t is LetRec
    ||| t is Case
    ||| t is Trace
    ||| (t matches Tm::App(f, _) && *f is Lam)
}

/// Whether `node` carries its result (see `is_carrier`).
pub fn carries_result(node: &Core) -> (r: bool)
    ensures
        r == is_carrier(node@),
{
    proof {
        lemma_views(*node);
    }
    match node {
        Core::Let { .. } => true,
        Core::LetRec { .. } => true,
        Core::Case { .. } => true,
        Core::Trace { .. } => true,
        Core::App { func, .. } => match &**func {
            Core::Lam { .. } => true,
            _ => false,
        },
        _ => false,
    }
}

/// Some `let` of `t`, at any depth, binds a unique of `bs`.
pub open spec fn binds_any(t: Tm, bs: Set<u32>) -> bool
    decreases t,
{
    match t {
        Tm::Var(_) => false,
        Tm::Lit(_) => false,
        Tm::Error => false,
        Tm::Lam(_, b) => binds_any(*b, bs),
        Tm::App(f, args) => binds_any(*f, bs) || binds_any_list(args, bs),
        Tm::Let(x, v, b) => bs.contains(x.name.unique) || binds_any(*v, bs) || binds_any(*b, bs),
        Tm::LetRec(rbs, body) => binds_any(*body, bs) || binds_any_group(rbs, bs),
        Tm::Case(_, s, brs, d) => binds_any(*s, bs) || binds_any_branches(brs, bs) || match d {
            Some(x) => binds_any(*x, bs),
            None => false,
        },
        Tm::Constr(_, fs) => binds_any_list(fs, bs),
        Tm::Field(r, _, _) => binds_any(*r, bs),
        Tm::Builtin(_, args) => binds_any_list(args, bs),
        Tm::Cast(_, _, _, a) => binds_any(*a, bs),
        Tm::Trace(m, b) => binds_any(*m, bs) || binds_any(*b, bs),
        Tm::Delay(b) => binds_any(*b, bs),
        Tm::Force(b) => binds_any(*b, bs),
    }
}

pub open spec fn binds_any_list(s: Seq<Tm>, bs: Set<u32>) -> bool
    decreases s,
{
    if s.len() == 0 {
        false
    } else {
        binds_any_list(s.drop_last(), bs) || binds_any(s.last(), bs)
    }
}

pub open spec fn binds_any_branches(s: Seq<BranchTm>, bs: Set<u32>) -> bool
    decreases s,
{
    if s.len() == 0 {
        false
    } else {
        binds_any_branches(s.drop_last(), bs) || binds_any(s.last().body, bs)
    }
}

pub open spec fn binds_any_group(s: Seq<RecTm>, bs: Set<u32>) -> bool
    decreases s,
{
    if s.len() == 0 {
        false
    } else {
        binds_any_group(s.drop_last(), bs) || binds_any(s.last().body, bs)
    }
}

proof fn lemma_binds_any_list(s: Seq<Tm>, bs: Set<u32>)
    ensures
        binds_any_list(s, bs) <==> exists|i: int| 0 <= i < s.len() && binds_any(#[trigger] s[i], bs),
    decreases s.len(),
{
    if s.len() > 0 {
        lemma_binds_any_list(s.drop_last(), bs);
        if exists|i: int| 0 <= i < s.len() && binds_any(#[trigger] s[i], bs) {
            let i = choose|i: int| 0 <= i < s.len() && binds_any(#[trigger] s[i], bs);
            if i < s.len() - 1 {
                assert(s.drop_last()[i] == s[i]);
            }
        }
        if binds_any_list(s.drop_last(), bs) {
            let i = choose|i: int| 0 <= i < s.drop_last().len() && binds_any(#[trigger] s.drop_last()[i], bs);
            assert(s[i] == s.drop_last()[i]);
        }
    }
}

proof fn lemma_binds_any_branches(s: Seq<BranchTm>, bs: Set<u32>)
    ensures
        binds_any_branches(s, bs) <==> exists|i: int| 0 <= i < s.len() && binds_any(#[trigger] s[i].body, bs),
    decreases s.len(),
{
    if s.len() > 0 {
        lemma_binds_any_branches(s.drop_last(), bs);
        if exists|i: int| 0 <= i < s.len() && binds_any(#[trigger] s[i].body, bs) {
            let i = choose|i: int| 0 <= i < s.len() && binds_any(#[trigger] s[i].body, bs);
            if i < s.len() - 1 {
                assert(s.drop_last()[i] == s[i]);
            }
        }
        if binds_any_branches(s.drop_last(), bs) {
            let i = choose|i: int| 0 <= i < s.drop_last().len() && binds_any(#[trigger] s.drop_last()[i].body, bs);
            assert(s[i] == s.drop_last()[i]);
        }
    }
}

proof fn lemma_binds_any_group(s: Seq<RecTm>, bs: Set<u32>)
    ensures
        binds_any_group(s, bs) <==> exists|i: int| 0 <= i < s.len() && binds_any(#[trigger] s[i].body, bs),
    decreases s.len(),
{
    if s.len() > 0 {
        lemma_binds_any_group(s.drop_last(), bs);
        if exists|i: int| 0 <= i < s.len() && binds_any(#[trigger] s[i].body, bs) {
            let i = choose|i: int| 0 <= i < s.len() && binds_any(#[trigger] s[i].body, bs);
            if i < s.len() - 1 {
                assert(s.drop_last()[i] == s[i]);
            }
        }
        if binds_any_group(s.drop_last(), bs) {
            let i = choose|i: int| 0 <= i < s.drop_last().len() && binds_any(#[trigger] s.drop_last()[i].body, bs);
            assert(s[i] == s.drop_last()[i]);
        }
    }
}

/// Whether some term of `items` holds a `let` of `bindings`.
fn any_binding(items: &Vec<Core>, bindings: &HashSet<u32>) -> (r: bool)
    ensures
        r == binds_any_list(views(items@), bindings@),
    decreases items, 0nat,
{
    proof {
        lemma_binds_any_list(views(items@), bindings@);
    }
    let mut i: usize = 0;
    while i < items.len()
        invariant
            i <= items@.len(),
            forall|j: int| 0 <= j < i ==> !binds_any(#[trigger] views(items@)[j], bindings@),
        decreases items@.len() - i,
    {
        proof {
            assert(decreases_to!(*items => items[i as int]));
        }
        if contains_binding(&items[i], bindings) {
            proof {
                assert(views(items@)[i as int] == items@[i as int]@);
                lemma_binds_any_list(views(items@), bindings@);
            }
            return true;
        }
        proof {
            assert(views(items@)[i as int] == items@[i as int]@);
        }
        i += 1;
    }
    false
}

/// Whether some `let` of `root`, at any depth, binds a unique of `bindings`.
pub fn contains_binding(root: &Core, bindings: &HashSet<u32>) -> (r: bool)
    ensures
        r == binds_any(root@, bindings@),
    decreases root, 1nat,
{
    proof {
        lemma_views(*root);
    }
    match root {
        Core::Var(_) => false,
        Core::Lit(_) => false,
        Core::Error => false,
        Core::Lam { params, body } => {
            let r = contains_binding(body, bindings);
            proof {
                assert(root@ == Tm::Lam(params@, Box::new(body@)));
                assert(binds_any(root@, bindings@) == binds_any(body@, bindings@));
                assert(r == binds_any(root@, bindings@));
            }
            r
        },
        Core::App { func, args } => {
            let a = contains_binding(func, bindings);
            let b = any_binding(args, bindings);
            proof {
                assert(root@ == Tm::App(Box::new(func@), views(args@)));
                assert((a || b) == binds_any(root@, bindings@));
            }
            a || b
        },
        Core::Let { binder, value, body } => {
            let a = bindings.contains(&binder.name.unique);
            let b = contains_binding(value, bindings);
            let c = contains_binding(body, bindings);
            proof {
                assert(root@ == Tm::Let(*binder, Box::new(value@), Box::new(body@)));
                assert(a == bindings@.contains(binder.name.unique));
                assert((a || b || c) == binds_any(root@, bindings@));
            }
            a || b || c
        },
        Core::LetRec { binders, body } => {
            if contains_binding(body, bindings) {
                proof {
                    assert(root@ == Tm::LetRec(group_views(binders@), Box::new(body@)));
                    assert(binds_any(root@, bindings@));
                }
                return true;
            }
            let ghost gv = group_views(binders@);
            let mut k: usize = 0;
            while k < binders.len()
                invariant
                    k <= binders@.len(),
                    gv == group_views(binders@),
                    root is LetRec,
                    (*root)->LetRec_binders == *binders,
                    root@ == Tm::LetRec(gv, Box::new(body@)),
                    !binds_any(body@, bindings@),
                    forall|j: int| 0 <= j < k ==> !binds_any(#[trigger] gv[j].body, bindings@),
                decreases binders@.len() - k,
            {
                proof {
                    assert(decreases_to!(*root => (*root)->LetRec_binders));
                    assert(decreases_to!(*binders => binders@));
                    assert(decreases_to!(binders@ => binders@[k as int]));
                    assert(decreases_to!(binders@[k as int] => binders@[k as int].body));
                    assert(gv[k as int] == binders@[k as int]@);
                }
                if contains_binding(&binders[k].body, bindings) {
                    proof {
                        assert(binds_any(gv[k as int].body, bindings@));
                        lemma_binds_any_group(gv, bindings@);
                    }
                    return true;
                }
                k += 1;
            }
            proof {
                lemma_binds_any_group(gv, bindings@);
                assert(!binds_any(root@, bindings@));
            }
            false
        },
        Core::Case { scrutinee, branches, default, .. } => {
            if contains_binding(scrutinee, bindings) {
                proof {
                    assert(binds_any(root@, bindings@));
                }
                return true;
            }
            let ghost bv = branch_views(branches@);
            let mut i: usize = 0;
            while i < branches.len()
                invariant
                    i <= branches@.len(),
                    bv == branch_views(branches@),
                    root is Case,
                    (*root)->Case_branches == *branches,
                    root@ == Tm::Case((*root)->Case_kind, Box::new(scrutinee@), bv, opt_view(*default)),
                    !binds_any(scrutinee@, bindings@),
                    forall|j: int| 0 <= j < i ==> !binds_any(#[trigger] bv[j].body, bindings@),
                decreases branches@.len() - i,
            {
                proof {
                    assert(decreases_to!(*root => (*root)->Case_branches));
                    assert(decreases_to!(*branches => branches@));
                    assert(decreases_to!(branches@ => branches@[i as int]));
                    assert(decreases_to!(branches@[i as int] => branches@[i as int].body));
                    assert(bv[i as int] == branches@[i as int]@);
                }
                if contains_binding(&branches[i].body, bindings) {
                    proof {
                        assert(binds_any(bv[i as int].body, bindings@));
                        lemma_binds_any_branches(bv, bindings@);
                    }
                    return true;
                }
                i += 1;
            }
            proof {
                lemma_binds_any_branches(bv, bindings@);
                assert(!binds_any_branches(bv, bindings@));
            }
            match default {
                Some(d) => {
                    let r = contains_binding(d, bindings);
                    proof {
                        assert(opt_view(*default) == Some(Box::new(d@)));
                        assert(r == binds_any(root@, bindings@));
                    }
                    r
                },
                None => {
                    proof {
                        assert(!binds_any(root@, bindings@));
                    }
                    false
                },
            }
        },
        Core::Constr { tag, fields } => {
            let b = any_binding(fields, bindings);
            proof {
                assert(root@ == Tm::Constr(*tag, views(fields@)));
                assert(b == binds_any(root@, bindings@));
            }
            b
        },
        Core::Field { record, index, arity } => {
            let r = contains_binding(record, bindings);
            proof {
                assert(root@ == Tm::Field(Box::new(record@), *index, *arity));
            }
            r
        },
        Core::Builtin { function, args } => {
            let b = any_binding(args, bindings);
            proof {
                assert(root@ == Tm::Builtin(*function, views(args@)));
                assert(b == binds_any(root@, bindings@));
            }
            b
        },
        Core::Cast { cast, from, to, arg } => {
            let r = contains_binding(arg, bindings);
            proof {
                assert(root@ == Tm::Cast(*cast, *from, *to, Box::new(arg@)));
            }
            r
        },
        Core::Trace { message, body } => {
            let a = contains_binding(message, bindings);
            let b = contains_binding(body, bindings);
            proof {
                assert(root@ == Tm::Trace(Box::new(message@), Box::new(body@)));
            }
            a || b
        },
        Core::Delay(b) => {
            let r = contains_binding(b, bindings);
            proof {
                assert(root@ == Tm::Delay(Box::new(b@)));
            }
            r
        },
        Core::Force(b) => {
            let r = contains_binding(b, bindings);
            proof {
                assert(root@ == Tm::Force(Box::new(b@)));
            }
            r
        },
    }
}

/// The view of an optional term.
pub open spec fn opt_view(d: Option<Box<Core>>) -> Option<Box<Tm>> {
    match d {
        Some(x) => Some(Box::new(x@)),
        None => None,
    }
}

/// The position of the first branch with test `test`, if any.
pub open spec fn first_with(bs: Seq<BranchTm>, test: TestV) -> Option<int>
    decreases bs.len(),
{
    if bs.len() == 0 {
        None
    } else {
        match first_with(bs.drop_last(), test) {
            Some(i) => Some(i),
            None => if bs.last().test == test {
                Some(bs.len() - 1)
            } else {
                None
            },
        }
    }
}

/// The test that a Boolean literal selects.
pub open spec fn bool_test(v: bool) -> TestV {
    if v {
        TestV::True
    } else {
        TestV::False
    }
}

/// The Boolean case with branches `bs` and default `d` moved inside `t`:
/// through lets, recursive groups, applied lambdas, cases and traces, onto
/// the value that each of them ends with. A literal picks its branch, or the
/// default, or fails; an error stays an error.
pub open spec fn carried(t: Tm, bs: Seq<BranchTm>, d: Option<Box<Tm>>) -> Tm
    decreases t,
{
    match t {
        Tm::Lit(ConstantV::Bool(v)) => match first_with(bs, bool_test(v)) {
            Some(i) => bs[i].body,
            None => match d {
                Some(x) => *x,
                None => Tm::Error,
            },
        },
        Tm::Error => Tm::Error,
        Tm::Let(x, v, body) => Tm::Let(x, v, Box::new(carried(*body, bs, d))),
        Tm::LetRec(rbs, body) => Tm::LetRec(rbs, Box::new(carried(*body, bs, d))),
        Tm::App(f, args) => match *f {
            Tm::Lam(ps, fb) => Tm::App(Box::new(Tm::Lam(ps, Box::new(carried(*fb, bs, d)))), args),
            _ => Tm::Case(CaseKind::Bool, Box::new(t), bs, d),
        },
        Tm::Case(kind, s, inner, idf) => Tm::Case(
            kind,
            s,
            carried_branches(inner, bs, d),
            match idf {
                Some(x) => Some(Box::new(carried(*x, bs, d))),
                None => None,
            },
        ),
        Tm::Trace(m, b) => Tm::Trace(m, Box::new(carried(*b, bs, d))),
        _ => Tm::Case(CaseKind::Bool, Box::new(t), bs, d),
    }
}

/// `carried` in the body of each branch of `inner`.
pub open spec fn carried_branches(inner: Seq<BranchTm>, bs: Seq<BranchTm>, d: Option<Box<Tm>>) -> Seq<BranchTm>
    decreases inner,
{
    Seq::new(
        inner.len(),
        |i: int|
            if 0 <= i < inner.len() {
                BranchTm { test: inner[i].test, binders: inner[i].binders, body: carried(inner[i].body, bs, d) }
            } else {
                BranchTm { test: TestV::Nil, binders: Seq::empty(), body: Tm::Error }
            },
    )
}

/// `t` can end in a Boolean literal: one stands where `t` yields its value,
/// after its lets, recursive groups, applied lambdas and traces, in any
/// branch or default of a case.
pub open spec fn bool_result(t: Tm) -> bool
    decreases t,
{
    match t {
        Tm::Lit(ConstantV::Bool(_)) => true,
        Tm::Let(_, _, b) => bool_result(*b),
        Tm::LetRec(_, b) => bool_result(*b),
        Tm::App(f, _) => match *f {
            Tm::Lam(_, fb) => bool_result(*fb),
            _ => false,
        },
        Tm::Case(_, _, bs, d) => (exists|i: int| 0 <= i < bs.len() && bool_result(#[trigger] bs[i].body)) || match d {
            Some(x) => bool_result(*x),
            None => false,
        },
        Tm::Trace(_, b) => bool_result(*b),
        _ => false,
    }
}

/// Some arm of a Boolean case can end in a Boolean literal.
pub open spec fn arms_bool_result(bs: Seq<BranchTm>, d: Option<Box<Tm>>) -> bool {
    (exists|i: int| 0 <= i < bs.len() && bool_result(#[trigger] bs[i].body)) || match d {
        Some(x) => bool_result(*x),
        None => false,
    }
}

/// The branch `first_with` finds is one of the branches.
proof fn lemma_first_with_range(bs: Seq<BranchTm>, test: TestV)
    ensures
        first_with(bs, test) matches Some(i) ==> 0 <= i < bs.len(),
    decreases bs.len(),
{
    if bs.len() > 0 {
        lemma_first_with_range(bs.drop_last(), test);
    }
}

/// `first_with` finds the first branch with the test.
proof fn lemma_first_with_first(bs: Seq<BranchTm>, test: TestV, i: int)
    requires
        0 <= i < bs.len(),
        bs[i].test == test,
        forall|j: int| 0 <= j < i ==> (#[trigger] bs[j]).test != test,
    ensures
        first_with(bs, test) == Some(i),
    decreases bs.len(),
{
    if i < bs.len() - 1 {
        assert(bs.drop_last()[i] == bs[i]);
        assert forall|j: int| 0 <= j < i implies (#[trigger] bs.drop_last()[j]).test != test by {
            assert(bs.drop_last()[j] == bs[j]);
        }
        lemma_first_with_first(bs.drop_last(), test, i);
    } else {
        assert forall|j: int| 0 <= j < bs.drop_last().len() implies (#[trigger] bs.drop_last()[j]).test != test by {
            assert(bs.drop_last()[j] == bs[j]);
        }
        lemma_first_with_none(bs.drop_last(), test);
    }
}

/// `first_with` finds nothing when no branch has the test.
proof fn lemma_first_with_none(bs: Seq<BranchTm>, test: TestV)
    requires
        forall|j: int| 0 <= j < bs.len() ==> (#[trigger] bs[j]).test != test,
    ensures
        first_with(bs, test) is None,
    decreases bs.len(),
{
    if bs.len() > 0 {
        assert forall|j: int| 0 <= j < bs.drop_last().len() implies (#[trigger] bs.drop_last()[j]).test != test by {
            assert(bs.drop_last()[j] == bs[j]);
        }
        lemma_first_with_none(bs.drop_last(), test);
        assert(bs[bs.len() - 1].test != test);
    }
}

/// Carrying onto a Boolean literal does what the Boolean case does with it:
/// `True` takes the first `True` branch and `False` the first `False`
/// branch; with no such branch, the default, and with no default, an error.
pub proof fn lemma_carried_literal_takes_its_branch(v: bool, bs: Seq<BranchTm>, d: Option<Box<Tm>>)
    ensures
        forall|i: int|
            0 <= i < bs.len() && bs[i].test == (if v { TestV::True } else { TestV::False }) && (forall|j: int|
                0 <= j < i ==> (#[trigger] bs[j]).test != (if v { TestV::True } else { TestV::False }))
                ==> #[trigger] carried(Tm::Lit(ConstantV::Bool(v)), bs, d) == bs[i].body,
        (forall|j: int| 0 <= j < bs.len() ==> (#[trigger] bs[j]).test != (if v { TestV::True } else { TestV::False }))
            ==> carried(Tm::Lit(ConstantV::Bool(v)), bs, d) == match d {
            Some(x) => *x,
            None => Tm::Error,
        },
{
    let t = if v { TestV::True } else { TestV::False };
    assert(bool_test(v) == t);
    assert forall|i: int|
        0 <= i < bs.len() && bs[i].test == t && (forall|j: int| 0 <= j < i ==> (#[trigger] bs[j]).test != t)
        implies #[trigger] carried(Tm::Lit(ConstantV::Bool(v)), bs, d) == bs[i].body by {
        lemma_first_with_first(bs, t, i);
    }
    if forall|j: int| 0 <= j < bs.len() ==> (#[trigger] bs[j]).test != t {
        lemma_first_with_none(bs, t);
    }
}

/// Carrying a Boolean consumer onto a value leaves no Boolean result of the
/// value unconsumed: every place where the value can end in `True` or
/// `False`, each branch and default of an inner case included, goes through
/// the consumer, so the carried term ends in a Boolean literal only where
/// the consumer's own arms do.
pub proof fn lemma_carried_consumes_every_result(t: Tm, bs: Seq<BranchTm>, d: Option<Box<Tm>>)
    requires
        !arms_bool_result(bs, d),
    ensures
        !bool_result(carried(t, bs, d)),
    decreases t,
{
    match t {
        Tm::Lit(ConstantV::Bool(v)) => {
            match first_with(bs, bool_test(v)) {
                Some(i) => {
                    lemma_first_with_range(bs, bool_test(v));
                    assert(!bool_result(bs[i].body));
                },
                None => {},
            }
        },
        Tm::Let(_, _, b) => lemma_carried_consumes_every_result(*b, bs, d),
        Tm::LetRec(_, b) => lemma_carried_consumes_every_result(*b, bs, d),
        Tm::App(f, _) => {
            match *f {
                Tm::Lam(_, fb) => lemma_carried_consumes_every_result(*fb, bs, d),
                _ => {},
            }
        },
        Tm::Case(_, _, inner, idf) => {
            let cb = carried_branches(inner, bs, d);
            assert forall|i: int| 0 <= i < cb.len() implies !bool_result(#[trigger] cb[i].body) by {
                lemma_carried_consumes_every_result(inner[i].body, bs, d);
            }
            match idf {
                Some(x) => lemma_carried_consumes_every_result(*x, bs, d),
                None => {},
            }
        },
        Tm::Trace(_, b) => lemma_carried_consumes_every_result(*b, bs, d),
        _ => {},
    }
}

/// A copy of an optional term.
fn duplicate_default(d: &Option<Box<Core>>) -> (r: Option<Box<Core>>)
    ensures
        opt_view(r) == opt_view(*d),
{
    match d {
        Some(x) => Some(Box::new(x.duplicate())),
        None => None,
    }
}

/// The first branch whose test is `True` (when `v`) or `False`.
fn find_bool(branches: &Vec<Branch>, v: bool) -> (r: Option<usize>)
    ensures
        match r {
            Some(i) => first_with(branch_views(branches@), bool_test(v)) == Some(i as int) && i < branches@.len(),
            None => first_with(branch_views(branches@), bool_test(v)) is None,
        },
{
    let ghost bv = branch_views(branches@);
    let mut i: usize = 0;
    while i < branches.len()
        invariant
            i <= branches@.len(),
            bv == branch_views(branches@),
            first_with(bv.take(i as int), bool_test(v)) is None,
        decreases branches@.len() - i,
    {
        let hit = match (&branches[i].test, v) {
            (Test::True, true) => true,
            (Test::False, false) => true,
            _ => false,
        };
        proof {
            assert(bv.take(i + 1).drop_last() =~= bv.take(i as int));
            assert(bv[i as int] == branches@[i as int]@);
            assert(hit == (bv[i as int].test == bool_test(v)));
        }
        if hit {
            proof {
                lemma_first_with_prefix(bv, bool_test(v), i as int + 1);
            }
            return Some(i);
        }
        i += 1;
    }
    proof {
        assert(bv.take(i as int) =~= bv);
    }
    None
}

/// A first match in a prefix is the first match of the whole sequence.
proof fn lemma_first_with_prefix(bs: Seq<BranchTm>, test: TestV, i: int)
    requires
        0 <= i <= bs.len(),
        first_with(bs.take(i), test) is Some,
    ensures
        first_with(bs, test) == first_with(bs.take(i), test),
    decreases bs.len() - i,
{
    if i < bs.len() {
        assert(bs.take(i + 1).drop_last() =~= bs.take(i));
        lemma_first_with_prefix(bs, test, i + 1);
    } else {
        assert(bs.take(i) =~= bs);
    }
}

/// Carry the Boolean case with `branches` and `default` into `value`:
/// the consumer moves onto the value that `value` finally produces.
pub fn carry_result(value: &Core, branches: &Vec<Branch>, default: &Option<Box<Core>>) -> (r: Core)
    ensures
        r@ == carried(value@, branch_views(branches@), opt_view(*default)),
        !arms_bool_result(branch_views(branches@), opt_view(*default)) ==> !bool_result(r@),
    decreases value,
{
    proof {
        lemma_views(*value);
        if !arms_bool_result(branch_views(branches@), opt_view(*default)) {
            lemma_carried_consumes_every_result(value@, branch_views(branches@), opt_view(*default));
        }
    }
    let ghost bv = branch_views(branches@);
    let ghost dv = opt_view(*default);
    match value {
        Core::Lit(Constant::Bool(v)) => match find_bool(branches, *v) {
            Some(i) => {
                proof {
                    assert(bv[i as int] == branches@[i as int]@);
                }
                branches[i].body.duplicate()
            },
            None => match default {
                Some(x) => x.duplicate(),
                None => Core::Error,
            },
        },
        Core::Error => Core::Error,
        Core::Let { binder, value: v, body } => {
            let b = carry_result(body, branches, default);
            Core::Let { binder: binder.duplicate(), value: Box::new(v.duplicate()), body: Box::new(b) }
        },
        Core::LetRec { binders, body } => {
            let b = carry_result(body, branches, default);
            let r = Core::LetRec { binders: crate::ir::duplicate_group(binders), body: Box::new(b) };
            proof {
                lemma_views(r);
            }
            r
        },
        Core::App { func, args } => match &**func {
            Core::Lam { params, body } => {
                proof {
                    assert(decreases_to!(*value => (*value)->App_func));
                    assert(decreases_to!((*value)->App_func => (*(*value)->App_func)->Lam_body));
                }
                let b = carry_result(body, branches, default);
                let f = Core::Lam { params: duplicate_binders(params), body: Box::new(b) };
                let r = Core::App { func: Box::new(f), args: crate::ir::duplicate_terms(args) };
                proof {
                    lemma_views(r);
                }
                r
            },
            _ => {
                let r = Core::Case {
                    kind: CaseKind::Bool,
                    scrutinee: Box::new(value.duplicate()),
                    branches: duplicate_branches(branches),
                    default: duplicate_default(default),
                };
                proof {
                    lemma_views(r);
                }
                r
            },
        },
        Core::Case { kind, scrutinee, branches: inner, default: inner_default } => {
            let ghost iv = branch_views(inner@);
            let mut out: Vec<Branch> = Vec::new();
            let mut i: usize = 0;
            while i < inner.len()
                invariant
                    i <= inner@.len(),
                    iv == branch_views(inner@),
                    bv == branch_views(branches@),
                    dv == opt_view(*default),
                    value is Case,
                    (*value)->Case_branches == *inner,
                    out@.len() == i,
                    forall|j: int|
                        0 <= j < i ==> (#[trigger] out@[j])@ == (BranchTm {
                            test: iv[j].test,
                            binders: iv[j].binders,
                            body: carried(iv[j].body, bv, dv),
                        }),
                decreases inner@.len() - i,
            {
                proof {
                    assert(decreases_to!(*value => (*value)->Case_branches));
                    assert(decreases_to!(*inner => inner@));
                    assert(decreases_to!(inner@ => inner@[i as int]));
                    assert(decreases_to!(inner@[i as int] => inner@[i as int].body));
                    assert(iv[i as int] == inner@[i as int]@);
                }
                let b = carry_result(&inner[i].body, branches, default);
                out.push(Branch { test: inner[i].test.duplicate(), binders: duplicate_binders(&inner[i].binders), body: b });
                i += 1;
            }
            let d = match inner_default {
                Some(x) => Some(Box::new(carry_result(x, branches, default))),
                None => None,
            };
            let ghost gout = out@;
            let ghost gd = d;
            let r = Core::Case { kind: *kind, scrutinee: Box::new(scrutinee.duplicate()), branches: out, default: d };
            proof {
                lemma_views(r);
                let want = carried_branches(iv, bv, dv);
                assert(branch_views(gout) =~= want) by {
                    assert forall|j: int| 0 <= j < iv.len() implies #[trigger] branch_views(gout)[j] == want[j] by {
                        assert(branch_views(gout)[j] == gout[j]@);
                    }
                }
                assert(r@ == carried(value@, bv, dv));
            }
            r
        },
        Core::Trace { message, body } => {
            let b = carry_result(body, branches, default);
            Core::Trace { message: Box::new(message.duplicate()), body: Box::new(b) }
        },
        _ => {
            let r = Core::Case {
                kind: CaseKind::Bool,
                scrutinee: Box::new(value.duplicate()),
                branches: duplicate_branches(branches),
                default: duplicate_default(default),
            };
            proof {
                lemma_views(r);
            }
            r
        },
    }
}

/// How a let-bound name is used in a term: how often, whether some use
/// may run later than the binding or not at all, and whether some use sits
/// under a lambda whose parameter is a barrier.
pub struct Usage {
    pub count: u32,
    pub delayed: bool,
    pub barrier: bool,
}

/// The mathematical value of a `Usage`.
pub struct UsageV {
    pub count: nat,
    pub delayed: bool,
    pub barrier: bool,
}

impl View for Usage {
    type V = UsageV;

    open spec fn view(&self) -> UsageV {
        UsageV { count: self.count as nat, delayed: self.delayed, barrier: self.barrier }
    }
}

/// No use at all.
pub open spec fn no_use() -> UsageV {
    UsageV { count: 0, delayed: false, barrier: false }
}

/// The uses of two parts together.
pub open spec fn plus(a: UsageV, b: UsageV) -> UsageV {
    UsageV { count: a.count + b.count, delayed: a.delayed || b.delayed, barrier: a.barrier || b.barrier }
}

/// Uses in a part that may run later: any use is delayed.
pub open spec fn postponed(a: UsageV) -> UsageV {
    UsageV { count: a.count, delayed: a.delayed || a.count != 0, barrier: a.barrier }
}

/// Some parameter of `ps` is a barrier.
pub open spec fn has_barrier(ps: Seq<Binder>, bars: Set<u32>) -> bool {
    exists|k: int| 0 <= k < ps.len() && bars.contains(#[trigger] ps[k].name.unique)
}

/// Branches (and default) of a case whose body is not a plain failure.
pub open spec fn live_branches(bs: Seq<BranchTm>) -> nat
    decreases bs.len(),
{
    if bs.len() == 0 {
        0
    } else {
        live_branches(bs.drop_last()) + if bs.last().body is Error {
            0nat
        } else {
            1nat
        }
    }
}

pub open spec fn live_count(bs: Seq<BranchTm>, d: Option<Box<Tm>>) -> nat {
    live_branches(bs) + match d {
        Some(x) => if *x is Error {
            0nat
        } else {
            1nat
        },
        None => 0nat,
    }
}

/// A Boolean or list case with one live branch: the branch runs whenever
/// the case does.
pub open spec fn refutes(kind: CaseKind, bs: Seq<BranchTm>, d: Option<Box<Tm>>) -> bool {
    (kind == CaseKind::Bool || kind == CaseKind::List) && live_count(bs, d) == 1
}

/// The use of `u` in `t`, where `t` is applied to `applied` arguments and
/// forced `forced` times. A lambda binding `u`, or the body of a `let`
/// binding `u`, hides it. A use under a lambda that is not fully applied,
/// under a delay that is not forced, in a recursive group, in the body of a
/// trace or in a branch that may not run, is delayed; a use in a recursive
/// group or under a lambda with a barrier parameter is behind a barrier.
pub open spec fn usage(t: Tm, u: u32, applied: nat, forced: nat, bars: Set<u32>) -> UsageV
    decreases t,
{
    match t {
        Tm::Var(n) => UsageV { count: if n.unique == u { 1 } else { 0 }, delayed: false, barrier: false },
        Tm::Lit(_) => no_use(),
        Tm::Error => no_use(),
        Tm::Lam(ps, b) => if binder_uniques(ps).contains(u) {
            no_use()
        } else {
            let inner = usage(*b, u, if applied >= ps.len() { (applied - ps.len()) as nat } else { 0 }, forced, bars);
            let d = if applied < ps.len() {
                postponed(inner)
            } else {
                inner
            };
            UsageV { count: d.count, delayed: d.delayed, barrier: d.barrier || (d.count != 0 && has_barrier(ps, bars)) }
        },
        Tm::App(f, args) => plus(usage(*f, u, applied + args.len(), forced, bars), usage_list(args, u, bars)),
        Tm::Let(x, v, b) => if x.name.unique == u {
            usage(*v, u, 0, 0, bars)
        } else {
            plus(usage(*v, u, 0, 0, bars), usage(*b, u, applied, forced, bars))
        },
        Tm::LetRec(rbs, body) => plus(usage_group(rbs, u, bars), usage(*body, u, applied, forced, bars)),
        Tm::Delay(b) => {
            let x = usage(*b, u, applied, if forced >= 1 { (forced - 1) as nat } else { 0 }, bars);
            if forced == 0 {
                postponed(x)
            } else {
                x
            }
        },
        Tm::Force(b) => usage(*b, u, applied, forced + 1, bars),
        Tm::Case(kind, s, bs, d) => {
            let refuting = refutes(kind, bs, d);
            plus(
                plus(usage(*s, u, 0, 0, bars), usage_branches(bs, u, applied, forced, bars, refuting)),
                match d {
                    Some(x) => if refuting {
                        usage(*x, u, applied, forced, bars)
                    } else {
                        postponed(usage(*x, u, 0, 0, bars))
                    },
                    None => no_use(),
                },
            )
        },
        Tm::Constr(_, fs) => usage_list(fs, u, bars),
        Tm::Field(r, _, _) => usage(*r, u, 0, 0, bars),
        Tm::Builtin(_, args) => usage_list(args, u, bars),
        Tm::Cast(_, _, _, a) => usage(*a, u, 0, 0, bars),
        Tm::Trace(m, b) => plus(usage(*m, u, 0, 0, bars), postponed(usage(*b, u, 0, 0, bars))),
    }
}

/// The uses in terms evaluated as arguments, neither applied nor forced.
pub open spec fn usage_list(s: Seq<Tm>, u: u32, bars: Set<u32>) -> UsageV
    decreases s,
{
    if s.len() == 0 {
        no_use()
    } else {
        plus(usage_list(s.drop_last(), u, bars), usage(s.last(), u, 0, 0, bars))
    }
}

/// The uses in the members of a recursive group: delayed and behind a barrier.
pub open spec fn usage_group(s: Seq<RecTm>, u: u32, bars: Set<u32>) -> UsageV
    decreases s,
{
    if s.len() == 0 {
        no_use()
    } else {
        let x = postponed(usage(s.last().body, u, 0, 0, bars));
        plus(usage_group(s.drop_last(), u, bars), UsageV { count: x.count, delayed: x.delayed, barrier: x.barrier || x.count != 0 })
    }
}

/// The uses in the branches of a case: as the case itself is used when the
/// case refutes, else delayed.
pub open spec fn usage_branches(s: Seq<BranchTm>, u: u32, applied: nat, forced: nat, bars: Set<u32>, refuting: bool) -> UsageV
    decreases s,
{
    if s.len() == 0 {
        no_use()
    } else {
        plus(
            usage_branches(s.drop_last(), u, applied, forced, bars, refuting),
            if refuting {
                usage(s.last().body, u, applied, forced, bars)
            } else {
                postponed(usage(s.last().body, u, 0, 0, bars))
            },
        )
    }
}

/// In branches that may not run, a branch that uses the name makes the use
/// delayed.
proof fn lemma_unsure_branches_delay(s: Seq<BranchTm>, u: u32, applied: nat, forced: nat, bars: Set<u32>, i: int)
    requires
        0 <= i < s.len(),
        usage(s[i].body, u, 0, 0, bars).count != 0,
    ensures
        usage_branches(s, u, applied, forced, bars, false).delayed,
    decreases s.len(),
{
    if i < s.len() - 1 {
        assert(s.drop_last()[i] == s[i]);
        lemma_unsure_branches_delay(s.drop_last(), u, applied, forced, bars, i);
    }
}

/// A use of the name inside a case that may take another arm is never
/// reported as certain: when the case does not refute (every case but a
/// Boolean or list case with exactly one live arm), a use in any of its
/// branches or in its default makes the whole use delayed, the default
/// treated exactly as the branches are.
pub proof fn lemma_uses_in_unsure_arms_are_delayed(
    kind: CaseKind,
    sc: Tm,
    bs: Seq<BranchTm>,
    d: Option<Box<Tm>>,
    u: u32,
    applied: nat,
    forced: nat,
    bars: Set<u32>,
)
    requires
        !refutes(kind, bs, d),
    ensures
        (d matches Some(x) && usage(*x, u, 0, 0, bars).count != 0) ==> usage(
            Tm::Case(kind, Box::new(sc), bs, d),
            u,
            applied,
            forced,
            bars,
        ).delayed,
        (exists|i: int| 0 <= i < bs.len() && usage(#[trigger] bs[i].body, u, 0, 0, bars).count != 0) ==> usage(
            Tm::Case(kind, Box::new(sc), bs, d),
            u,
            applied,
            forced,
            bars,
        ).delayed,
{
    if exists|i: int| 0 <= i < bs.len() && usage(#[trigger] bs[i].body, u, 0, 0, bars).count != 0 {
        let i = choose|i: int| 0 <= i < bs.len() && usage(#[trigger] bs[i].body, u, 0, 0, bars).count != 0;
        lemma_unsure_branches_delay(bs, u, applied, forced, bars, i);
    }
}

/// A size of `t` that bounds how far `lookup` counts arguments and forces.
pub open spec fn weight(t: Tm) -> nat
    decreases t,
{
    match t {
        Tm::Var(_) => 1,
        Tm::Lit(_) => 1,
        Tm::Error => 1,
        Tm::Lam(_, b) => 1 + weight(*b),
        Tm::App(f, args) => 1 + args.len() + weight(*f) + weight_list(args),
        Tm::Let(_, v, b) => 1 + weight(*v) + weight(*b),
        Tm::LetRec(rbs, body) => 1 + weight_group(rbs) + weight(*body),
        Tm::Case(_, s, bs, d) => 1 + weight(*s) + weight_branches(bs) + match d {
            Some(x) => weight(*x),
            None => 0,
        },
        Tm::Constr(_, fs) => 1 + weight_list(fs),
        Tm::Field(r, _, _) => 1 + weight(*r),
        Tm::Builtin(_, args) => 1 + weight_list(args),
        Tm::Cast(_, _, _, a) => 1 + weight(*a),
        Tm::Trace(m, b) => 1 + weight(*m) + weight(*b),
        Tm::Delay(b) => 1 + weight(*b),
        Tm::Force(b) => 1 + weight(*b),
    }
}

pub open spec fn weight_list(s: Seq<Tm>) -> nat
    decreases s,
{
    if s.len() == 0 {
        0
    } else {
        weight_list(s.drop_last()) + weight(s.last())
    }
}

pub open spec fn weight_group(s: Seq<RecTm>) -> nat
    decreases s,
{
    if s.len() == 0 {
        0
    } else {
        weight_group(s.drop_last()) + weight(s.last().body)
    }
}

pub open spec fn weight_branches(s: Seq<BranchTm>) -> nat
    decreases s,
{
    if s.len() == 0 {
        0
    } else {
        weight_branches(s.drop_last()) + weight(s.last().body)
    }
}

/// One more term of a list: the prefix sums of uses and weights.
proof fn lemma_list_step(s: Seq<Tm>, u: u32, bars: Set<u32>, i: int)
    requires
        0 <= i < s.len(),
    ensures
        usage_list(s.take(i + 1), u, bars) == plus(usage_list(s.take(i), u, bars), usage(s[i], u, 0, 0, bars)),
        weight_list(s.take(i + 1)) == weight_list(s.take(i)) + weight(s[i]),
        usage_list(s.take(i + 1), u, bars).count <= usage_list(s, u, bars).count,
        weight_list(s.take(i + 1)) <= weight_list(s),
    decreases s.len() - i,
{
    assert(s.take(i + 1).drop_last() =~= s.take(i));
    assert(s.take(i + 1).last() == s[i]);
    if i + 1 < s.len() {
        lemma_list_step(s, u, bars, i + 1);
    } else {
        assert(s.take(i + 1) =~= s);
    }
}

proof fn lemma_group_step(s: Seq<RecTm>, u: u32, bars: Set<u32>, i: int)
    requires
        0 <= i < s.len(),
    ensures
        usage_group(s.take(i + 1), u, bars) == plus(usage_group(s.take(i), u, bars), {
            let x = postponed(usage(s[i].body, u, 0, 0, bars));
            UsageV { count: x.count, delayed: x.delayed, barrier: x.barrier || x.count != 0 }
        }),
        weight_group(s.take(i + 1)) == weight_group(s.take(i)) + weight(s[i].body),
        usage_group(s.take(i + 1), u, bars).count <= usage_group(s, u, bars).count,
        weight_group(s.take(i + 1)) <= weight_group(s),
    decreases s.len() - i,
{
    assert(s.take(i + 1).drop_last() =~= s.take(i));
    assert(s.take(i + 1).last() == s[i]);
    if i + 1 < s.len() {
        lemma_group_step(s, u, bars, i + 1);
    } else {
        assert(s.take(i + 1) =~= s);
    }
}

proof fn lemma_branches_step(s: Seq<BranchTm>, u: u32, applied: nat, forced: nat, bars: Set<u32>, refuting: bool, i: int)
    requires
        0 <= i < s.len(),
    ensures
        usage_branches(s.take(i + 1), u, applied, forced, bars, refuting) == plus(
            usage_branches(s.take(i), u, applied, forced, bars, refuting),
            if refuting {
                usage(s[i].body, u, applied, forced, bars)
            } else {
                postponed(usage(s[i].body, u, 0, 0, bars))
            },
        ),
        weight_branches(s.take(i + 1)) == weight_branches(s.take(i)) + weight(s[i].body),
        usage_branches(s.take(i + 1), u, applied, forced, bars, refuting).count <= usage_branches(
            s,
            u,
            applied,
            forced,
            bars,
            refuting,
        ).count,
        weight_branches(s.take(i + 1)) <= weight_branches(s),
        live_branches(s.take(i + 1)) == live_branches(s.take(i)) + if s[i].body is Error {
            0nat
        } else {
            1nat
        },
    decreases s.len() - i,
{
    assert(s.take(i + 1).drop_last() =~= s.take(i));
    assert(s.take(i + 1).last() == s[i]);
    if i + 1 < s.len() {
        lemma_branches_step(s, u, applied, forced, bars, refuting, i + 1);
    } else {
        assert(s.take(i + 1) =~= s);
    }
}

impl Usage {
    fn none() -> (r: Usage)
        ensures
            r@ == no_use(),
    {
        Usage { count: 0, delayed: false, barrier: false }
    }

    /// Add the uses of another part.
    fn add(&mut self, other: Usage)
        requires
            old(self).count + other.count <= u32::MAX,
        ensures
            final(self)@ == plus(old(self)@, other@),
    {
        self.count = self.count + other.count;
        self.delayed = self.delayed || other.delayed;
        self.barrier = self.barrier || other.barrier;
    }

    /// The same uses, delayed.
    fn delay(self) -> (r: Usage)
        ensures
            r@ == postponed(self@),
    {
        Usage { count: self.count, delayed: self.delayed || self.count != 0, barrier: self.barrier }
    }
}

/// Whether some binder of `ps` has unique `u`.
fn binds_unique(ps: &Vec<Binder>, u: u32) -> (r: bool)
    ensures
        r == binder_uniques(ps@).contains(u),
{
    let mut k: usize = 0;
    while k < ps.len()
        invariant
            k <= ps@.len(),
            forall|j: int| 0 <= j < k ==> ps@[j].name.unique != u,
        decreases ps@.len() - k,
    {
        if ps[k].name.unique == u {
            proof {
                assert(binder_uniques(ps@)[k as int] == u);
            }
            return true;
        }
        k += 1;
    }
    proof {
        if binder_uniques(ps@).contains(u) {
            let j = choose|j: int| 0 <= j < binder_uniques(ps@).len() && binder_uniques(ps@)[j] == u;
            assert(ps@[j].name.unique == u);
        }
    }
    false
}

/// Whether some parameter of `ps` is a barrier.
fn any_barrier(ps: &Vec<Binder>, barriers: &HashSet<u32>) -> (r: bool)
    ensures
        r == has_barrier(ps@, barriers@),
{
    let mut k: usize = 0;
    while k < ps.len()
        invariant
            k <= ps@.len(),
            forall|j: int| 0 <= j < k ==> !barriers@.contains(#[trigger] ps@[j].name.unique),
        decreases ps@.len() - k,
    {
        if barriers.contains(&ps[k].name.unique) {
            return true;
        }
        k += 1;
    }
    false
}

/// The uses of `target` in `items`, each evaluated as an argument.
fn lookup_list(items: &Vec<Core>, target: &crate::ir::Name, barriers: &HashSet<u32>) -> (r: Usage)
    requires
        usage_list(views(items@), target.unique, barriers@).count <= u32::MAX,
        weight_list(views(items@)) <= usize::MAX,
    ensures
        r@ == usage_list(views(items@), target.unique, barriers@),
    decreases items, 0nat,
{
    let ghost s = views(items@);
    let ghost u = target.unique;
    let mut acc = Usage::none();
    let mut i: usize = 0;
    proof {
        assert(s.take(0) =~= Seq::<Tm>::empty());
    }
    while i < items.len()
        invariant
            i <= items@.len(),
            s == views(items@),
            u == target.unique,
            acc@ == usage_list(s.take(i as int), u, barriers@),
            usage_list(s, u, barriers@).count <= u32::MAX,
            weight_list(s) <= usize::MAX,
        decreases items@.len() - i,
    {
        proof {
            assert(decreases_to!(*items => items[i as int]));
            lemma_list_step(s, u, barriers@, i as int);
            assert(s[i as int] == items@[i as int]@);
        }
        let x = lookup(&items[i], target, 0, 0, barriers);
        acc.add(x);
        i += 1;
    }
    proof {
        assert(s.take(i as int) =~= s);
    }
    acc
}

/// How `target` is used in `node`, where `node` is applied to `applied`
/// arguments and forced `forced` times (see `usage`).
pub fn lookup(node: &Core, target: &crate::ir::Name, applied: usize, forced: usize, barriers: &HashSet<u32>) -> (r: Usage)
    requires
        usage(node@, target.unique, applied as nat, forced as nat, barriers@).count <= u32::MAX,
        applied + forced + weight(node@) <= usize::MAX,
    ensures
        r@ == usage(node@, target.unique, applied as nat, forced as nat, barriers@),
    decreases node, 1nat,
{
    proof {
        lemma_views(*node);
    }
    let ghost u = target.unique;
    match node {
        Core::Var(n) => Usage { count: if n.unique == target.unique { 1 } else { 0 }, delayed: false, barrier: false },
        Core::Lit(_) => Usage::none(),
        Core::Error => Usage::none(),
        Core::Lam { params, body } => {
            if binds_unique(params, target.unique) {
                return Usage::none();
            }
            let rest = if applied >= params.len() { applied - params.len() } else { 0 };
            let mut used = lookup(body, target, rest, forced, barriers);
            if applied < params.len() {
                used = used.delay();
            }
            let barred = used.count != 0 && any_barrier(params, barriers);
            used.barrier = used.barrier || barred;
            used
        },
        Core::App { func, args } => {
            let mut used = lookup(func, target, applied + args.len(), forced, barriers);
            let rest = lookup_list(args, target, barriers);
            used.add(rest);
            used
        },
        Core::Let { binder, value, body } => {
            let mut used = lookup(value, target, 0, 0, barriers);
            if binder.name.unique != target.unique {
                let rest = lookup(body, target, applied, forced, barriers);
                used.add(rest);
            }
            used
        },
        Core::LetRec { binders, body } => {
            let ghost gv = group_views(binders@);
            let mut used = Usage::none();
            let mut k: usize = 0;
            proof {
                assert(gv.take(0) =~= Seq::<RecTm>::empty());
            }
            while k < binders.len()
                invariant
                    k <= binders@.len(),
                    gv == group_views(binders@),
                    u == target.unique,
                    node is LetRec,
                    (*node)->LetRec_binders == *binders,
                    node@ == Tm::LetRec(gv, Box::new(body@)),
                    used@ == usage_group(gv.take(k as int), u, barriers@),
                    usage(node@, u, applied as nat, forced as nat, barriers@).count <= u32::MAX,
                    applied + forced + weight(node@) <= usize::MAX,
                decreases binders@.len() - k,
            {
                proof {
                    assert(decreases_to!(*node => (*node)->LetRec_binders));
                    assert(decreases_to!(*binders => binders@));
                    assert(decreases_to!(binders@ => binders@[k as int]));
                    assert(decreases_to!(binders@[k as int] => binders@[k as int].body));
                    lemma_group_step(gv, u, barriers@, k as int);
                    assert(gv[k as int] == binders@[k as int]@);
                }
                let mut inner = lookup(&binders[k].body, target, 0, 0, barriers).delay();
                inner.barrier = inner.barrier || inner.count != 0;
                used.add(inner);
                k += 1;
            }
            proof {
                assert(gv.take(k as int) =~= gv);
            }
            let rest = lookup(body, target, applied, forced, barriers);
            used.add(rest);
            used
        },
        Core::Delay(b) => {
            let f = if forced >= 1 { forced - 1 } else { 0 };
            let used = lookup(b, target, applied, f, barriers);
            if forced == 0 {
                used.delay()
            } else {
                used
            }
        },
        Core::Force(b) => lookup(b, target, applied, forced + 1, barriers),
        Core::Case { kind, scrutinee, branches, default } => {
            let ghost bv = branch_views(branches@);
            let ghost dv = opt_view(*default);
            let mut live: usize = 0;
            let mut i: usize = 0;
            proof {
                assert(bv.take(0) =~= Seq::<BranchTm>::empty());
            }
            while i < branches.len()
                invariant
                    i <= branches@.len(),
                    bv == branch_views(branches@),
                    live <= 2,
                    live == if live_branches(bv.take(i as int)) >= 2 { 2 } else { live_branches(bv.take(i as int)) },
                decreases branches@.len() - i,
            {
                proof {
                    lemma_branches_step(bv, u, 0, 0, barriers@, false, i as int);
                    assert(bv[i as int] == branches@[i as int]@);
                }
                let dead = match &branches[i].body {
                    Core::Error => true,
                    _ => false,
                };
                if !dead && live < 2 {
                    live = live + 1;
                }
                i += 1;
            }
            proof {
                assert(bv.take(i as int) =~= bv);
            }
            let default_live = match default {
                Some(d) => match &**d {
                    Core::Error => false,
                    _ => true,
                },
                None => false,
            };
            if default_live && live < 2 {
                live = live + 1;
            }
            let refuting = match kind {
                CaseKind::Bool => live == 1,
                CaseKind::List => live == 1,
                _ => false,
            };
            proof {
                assert(refuting == refutes(*kind, bv, dv));
            }
            let mut used = lookup(scrutinee, target, 0, 0, barriers);
            let mut j: usize = 0;
            let mut acc = Usage::none();
            while j < branches.len()
                invariant
                    j <= branches@.len(),
                    bv == branch_views(branches@),
                    u == target.unique,
                    node is Case,
                    (*node)->Case_branches == *branches,
                    node@ == Tm::Case(*kind, Box::new(scrutinee@), bv, dv),
                    refuting == refutes(*kind, bv, dv),
                    acc@ == usage_branches(bv.take(j as int), u, applied as nat, forced as nat, barriers@, refuting),
                    usage(node@, u, applied as nat, forced as nat, barriers@).count <= u32::MAX,
                    applied + forced + weight(node@) <= usize::MAX,
                decreases branches@.len() - j,
            {
                proof {
                    assert(decreases_to!(*node => (*node)->Case_branches));
                    assert(decreases_to!(*branches => branches@));
                    assert(decreases_to!(branches@ => branches@[j as int]));
                    assert(decreases_to!(branches@[j as int] => branches@[j as int].body));
                    lemma_branches_step(bv, u, applied as nat, forced as nat, barriers@, refuting, j as int);
                    assert(bv[j as int] == branches@[j as int]@);
                }
                let x = if refuting {
                    lookup(&branches[j].body, target, applied, forced, barriers)
                } else {
                    lookup(&branches[j].body, target, 0, 0, barriers).delay()
                };
                acc.add(x);
                j += 1;
            }
            proof {
                assert(bv.take(j as int) =~= bv);
            }
            used.add(acc);
            match default {
                Some(d) => {
                    let x = if refuting {
                        lookup(d, target, applied, forced, barriers)
                    } else {
                        lookup(d, target, 0, 0, barriers).delay()
                    };
                    used.add(x);
                },
                None => {},
            }
            used
        },
        Core::Constr { fields, .. } => lookup_list(fields, target, barriers),
        Core::Field { record, .. } => lookup(record, target, 0, 0, barriers),
        Core::Builtin { args, .. } => lookup_list(args, target, barriers),
        Core::Cast { arg, .. } => lookup(arg, target, 0, 0, barriers),
        Core::Trace { message, body } => {
            let mut used = lookup(message, target, 0, 0, barriers);
            let rest = lookup(body, target, 0, 0, barriers).delay();
            used.add(rest);
            used
        },
    }
}

} // verus!
