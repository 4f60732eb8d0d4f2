//! Lowering introduces no free variable: every variable free in the UPLC
//! term is a variable free in the Core term, and the fresh names that
//! lowering takes are all bound where they are used.
use vstd::prelude::*;
use crate::ir::{
    CaseKind, Tm, BranchTm, TestV, binder_uniques, free_in, free_in_list, lemma_free_in_list,
    free_in_branches, lemma_free_in_branches,
};
use crate::lower::{
    lower_tm, lowers, lowerable, largest, largests, branch_maxes, binders_max, max2, seq_max, sum,
    costs, branch_costs, case_costs, fresh_count, lower_seq, u_uniques, unique_range, case_result,
    case_bodies, bool_result, literal_result, literal_conds, literal_chain, list_result, cons_arm,
    data_result, data_arms, data_arm, arm_or, has_branch, branch_with, branch_fits, case_ok,
    all_lowerable, bodies_lowerable, tag_order, sum_in_order, tag_arms_spec, literal, equality,
    data_test, data_unwrap, lemma_lower_tag, lemma_lower_value, lemma_case_body, lemma_sum_take,
    lemma_sum_skip, lemma_sum_skip_le, lemma_sum_in_order_mono,
};
use crate::uplc::{
    UTm, ufree, ufree_list, uclosed, lambdas, ubuiltin, lazy_if, lemma_ufree_list, lemma_ufree_lambdas,
    lemma_ufree_applied, lemma_ufree_builtin, lemma_ufree_if,
};
use crate::ir::DefaultFunction;

verus! {

/// Every element of a sequence is at most its maximum.
pub proof fn lemma_seq_max_ge(s: Seq<nat>, i: int)
    requires
        0 <= i < s.len(),
    ensures
        s[i] <= seq_max(s),
    decreases s.len(),
{
    if i < s.len() - 1 {
        lemma_seq_max_ge(s.drop_last(), i);
        assert(s.drop_last()[i] == s[i]);
    }
}

/// A variable free in the result of a non-constructor case is free in the
/// inspected value, in the fallback, or in a branch body and not bound by
/// the branch.
pub proof fn lemma_case_result_free(
    kind: CaseKind,
    bs: Seq<BranchTm>,
    value: UTm,
    bodies: Seq<UTm>,
    fallback: UTm,
    base: nat,
    x: usize,
)
    requires
        kind != CaseKind::Tag,
        bodies.len() == bs.len(),
        forall|j: int| 0 <= j < bs.len() ==> #[trigger] branch_fits(kind, bs[j], bs.len()),
        ufree(case_result(kind, bs, value, bodies, fallback, base), x),
    ensures
        ufree(value, x) || ufree(fallback, x) || exists|j: int|
            0 <= j < bs.len() && !u_uniques(bs[j].binders).contains(x) && ufree(#[trigger] bodies[j], x),
{
    if kind == CaseKind::Bool {
        lemma_ufree_if(value, arm_or(bs, bodies, TestV::True, fallback), arm_or(bs, bodies, TestV::False, fallback), x);
        lemma_arm_free(kind, bs, bodies, TestV::True, fallback, x);
        lemma_arm_free(kind, bs, bodies, TestV::False, fallback, x);
    } else if kind == CaseKind::Int || kind == CaseKind::Bytes {
        lemma_chain_free(kind, bs, value, bodies, fallback, 0, x);
    } else if kind == CaseKind::List {
        let nil = arm_or(bs, bodies, TestV::Nil, fallback);
        let cons = if has_branch(bs, TestV::Cons) {
            let j = branch_with(bs, TestV::Cons);
            cons_arm(bs[j], bodies[j], value)
        } else {
            fallback
        };
        let test = ubuiltin(DefaultFunction::NullList, seq![value]);
        lemma_ufree_if(test, nil, cons, x);
        if ufree(test, x) {
            lemma_ufree_builtin(DefaultFunction::NullList, seq![value], x);
            let i = choose|i: int| 0 <= i < 1 && ufree(#[trigger] seq![value][i], x);
        } else if ufree(nil, x) {
            lemma_arm_free(kind, bs, bodies, TestV::Nil, fallback, x);
        } else if has_branch(bs, TestV::Cons) {
            let j = branch_with(bs, TestV::Cons);
            let head = ubuiltin(DefaultFunction::HeadList, seq![value]);
            let tail = ubuiltin(DefaultFunction::TailList, seq![value]);
            if ufree(head, x) {
                lemma_ufree_builtin(DefaultFunction::HeadList, seq![value], x);
                let i = choose|i: int| 0 <= i < 1 && ufree(#[trigger] seq![value][i], x);
            } else if ufree(tail, x) {
                lemma_ufree_builtin(DefaultFunction::TailList, seq![value], x);
                let i = choose|i: int| 0 <= i < 1 && ufree(#[trigger] seq![value][i], x);
            } else {
                let function = lambdas(u_uniques(bs[j].binders), bodies[j]);
                let inner = UTm::App(Box::new(function), Box::new(head));
                assert(cons == UTm::App(Box::new(inner), Box::new(tail)));
                assert(ufree(inner, x));
                assert(ufree(function, x));
                lemma_ufree_lambdas(u_uniques(bs[j].binders), bodies[j], x);
                assert(ufree(bodies[j], x));
            }
        }
    } else {
        let arms = data_arms(bs, value, bodies, fallback, base);
        let args = seq![
            value,
            UTm::Delay(Box::new(arms[0])),
            UTm::Delay(Box::new(arms[1])),
            UTm::Delay(Box::new(arms[2])),
            UTm::Delay(Box::new(arms[3])),
            UTm::Delay(Box::new(arms[4])),
        ];
        lemma_ufree_builtin(DefaultFunction::ChooseData, args, x);
        let i = choose|i: int| 0 <= i < args.len() && ufree(#[trigger] args[i], x);
        if i > 0 {
            let k = i - 1;
            assert(ufree(arms[k], x));
            if has_branch(bs, data_test(k)) {
                let j = branch_with(bs, data_test(k));
                let pair = (base + sum(crate::lower::data_costs(bs).take(j)) + fresh_count(bs[j].body)) as usize;
                let function = lambdas(u_uniques(bs[j].binders), bodies[j]);
                let unwrapped = ubuiltin(data_unwrap(k), seq![value]);
                assert(arms[k] == data_arm(k, bs[j], bodies[j], value, pair));
                if ufree(unwrapped, x) {
                    lemma_ufree_builtin(data_unwrap(k), seq![value], x);
                    let q = choose|q: int| 0 <= q < 1 && ufree(#[trigger] seq![value][q], x);
                } else {
                    if k == 0 {
                        let fst = ubuiltin(DefaultFunction::FstPair, seq![UTm::Var(pair)]);
                        let snd = ubuiltin(DefaultFunction::SndPair, seq![UTm::Var(pair)]);
                        let inner = UTm::App(Box::new(UTm::App(Box::new(function), Box::new(fst))), Box::new(snd));
                        let lam = UTm::Lam(pair, Box::new(inner));
                        assert(arms[k] == UTm::App(Box::new(lam), Box::new(unwrapped)));
                        assert(ufree(lam, x));
                        assert(x != pair && ufree(inner, x));
                        assert(ufree(UTm::App(Box::new(function), Box::new(fst)), x) || ufree(snd, x));
                        if ufree(fst, x) {
                            lemma_ufree_builtin(DefaultFunction::FstPair, seq![UTm::Var(pair)], x);
                            let q = choose|q: int| 0 <= q < 1 && ufree(#[trigger] seq![UTm::Var(pair)][q], x);
                        }
                        if ufree(snd, x) {
                            lemma_ufree_builtin(DefaultFunction::SndPair, seq![UTm::Var(pair)], x);
                            let q = choose|q: int| 0 <= q < 1 && ufree(#[trigger] seq![UTm::Var(pair)][q], x);
                        }
                        assert(ufree(function, x));
                    } else {
                        assert(arms[k] == UTm::App(Box::new(function), Box::new(unwrapped)));
                        assert(ufree(function, x));
                    }
                    lemma_ufree_lambdas(u_uniques(bs[j].binders), bodies[j], x);
                    assert(ufree(bodies[j], x));
                }
            }
        }
    }
}

/// The arm for a test binds no field: it is a body of a branch with no
/// fields, or the fallback.
proof fn lemma_arm_free(kind: CaseKind, bs: Seq<BranchTm>, bodies: Seq<UTm>, test: TestV, fallback: UTm, x: usize)
    requires
        bodies.len() == bs.len(),
        forall|j: int| 0 <= j < bs.len() ==> #[trigger] branch_fits(kind, bs[j], bs.len()),
        kind == CaseKind::Bool || (kind == CaseKind::List && test == TestV::Nil),
    ensures
        ufree(arm_or(bs, bodies, test, fallback), x) ==> ufree(fallback, x) || exists|j: int|
            0 <= j < bs.len() && !u_uniques(bs[j].binders).contains(x) && ufree(#[trigger] bodies[j], x),
{
    if has_branch(bs, test) {
        let j = branch_with(bs, test);
        assert(branch_fits(kind, bs[j], bs.len()));
        assert(u_uniques(bs[j].binders).len() == 0);
        if ufree(arm_or(bs, bodies, test, fallback), x) {
            assert(ufree(bodies[j], x));
        }
    }
}

/// A variable free in a chain of literal comparisons is free in the value,
/// the fallback or one of the bodies.
proof fn lemma_chain_free(kind: CaseKind, bs: Seq<BranchTm>, value: UTm, bodies: Seq<UTm>, fallback: UTm, j: int, x: usize)
    requires
        kind == CaseKind::Int || kind == CaseKind::Bytes,
        bodies.len() == bs.len(),
        forall|k: int| 0 <= k < bs.len() ==> #[trigger] branch_fits(kind, bs[k], bs.len()),
        ufree(literal_chain(literal_conds(kind, bs, value), bodies, fallback, j), x),
    ensures
        ufree(value, x) || ufree(fallback, x) || exists|k: int|
            0 <= k < bs.len() && !u_uniques(bs[k].binders).contains(x) && ufree(#[trigger] bodies[k], x),
    decreases bs.len() - j,
{
    let conds = literal_conds(kind, bs, value);
    if 0 <= j < conds.len() {
        let rest = literal_chain(conds, bodies, fallback, j + 1);
        lemma_ufree_if(conds[j], bodies[j], rest, x);
        if ufree(conds[j], x) {
            let args = seq![value, literal(bs[j].test)];
            lemma_ufree_builtin(equality(kind), args, x);
            let q = choose|q: int| 0 <= q < args.len() && ufree(#[trigger] args[q], x);
            if q == 1 {
                assert(!ufree(literal(bs[j].test), x));
            }
        } else if ufree(bodies[j], x) {
            assert(branch_fits(kind, bs[j], bs.len()));
            assert(u_uniques(bs[j].binders).len() == 0);
        } else {
            lemma_chain_free(kind, bs, value, bodies, fallback, j + 1, x);
        }
    }
}

/// Lowering a list of terms: a variable free in one lowered term is free in
/// the term it comes from.
pub proof fn lemma_lower_seq_scoped(s: Seq<Tm>, next: nat)
    requires
        all_lowerable(s),
        forall|i: int| 0 <= i < s.len() ==> largest(#[trigger] s[i]) < next,
        next + sum(costs(s)) <= usize::MAX,
    ensures
        lower_seq(s, next).len() == s.len(),
        forall|i: int, x: usize|
            0 <= i < s.len() && #[trigger] ufree(lower_seq(s, next)[i], x) ==> x <= largest(s[i]) && x <= u32::MAX
                && free_in(s[i], x as u32),
    decreases s, 0nat,
{
    reveal(lower_tm);
    assert forall|i: int, x: usize|
        0 <= i < s.len() && #[trigger] ufree(lower_seq(s, next)[i], x) implies x <= largest(s[i]) && x <= u32::MAX
            && free_in(s[i], x as u32) by {
        let c = costs(s);
        lemma_sum_take(c, i);
        assert(c[i] == fresh_count(s[i]));
        assert(lowerable(s[i]));
        assert(decreases_to!(s => s[i]));
        assert(lower_seq(s, next)[i] == lower_tm(s[i], next + sum(c.take(i))));
        lemma_lower_scoped(s[i], next + sum(c.take(i)));
    }
}

/// Lowering introduces no free variable: with fresh names counted from past
/// the largest unique of `t`, every variable free in the lowered term is a
/// variable free in `t`.
pub proof fn lemma_lower_scoped(t: Tm, next: nat)
    requires
        lowers(t, next),
        largest(t) < next,
    ensures
        forall|x: usize|
            #[trigger] ufree(lower_tm(t, next), x) ==> x <= largest(t) && x <= u32::MAX && free_in(t, x as u32),
    decreases t, 1nat,
{
    match t {
        Tm::Var(n) => {
            assert forall|x: usize| #[trigger] ufree(lower_tm(t, next), x) implies x <= largest(t) && x <= u32::MAX && free_in(t, x as u32) by {
                reveal(lower_tm);
                assert(lower_tm(t, next) == UTm::Var(n.unique as usize));
                assert(x == n.unique as usize);
                assert(x as u32 == n.unique);
            }
        },
        Tm::Lit(k) => {
            assert forall|x: usize| !#[trigger] ufree(lower_tm(t, next), x) by {
                reveal(lower_tm);
                assert(lower_tm(t, next) == UTm::Const(k));
            }
        },
        Tm::Error => {
            assert forall|x: usize| !#[trigger] ufree(lower_tm(t, next), x) by {
                reveal(lower_tm);
                assert(lower_tm(t, next) == UTm::Error);
            }
        },
        Tm::LetRec(_, _) => {},
        Tm::Cast(_, _, _, _) => {},
        Tm::Lam(_, _) => {
            lemma_bind_scoped(t, next);
        },
        Tm::Let(_, _, _) => {
            lemma_bind_scoped(t, next);
        },
        Tm::App(_, _) => {
            lemma_list_scoped(t, next);
        },
        Tm::Builtin(_, _) => {
            lemma_list_scoped(t, next);
        },
        Tm::Constr(_, _) => {
            lemma_list_scoped(t, next);
        },
        Tm::Field(_, _, _) => {
            lemma_unary_scoped(t, next);
        },
        Tm::Trace(_, _) => {
            lemma_unary_scoped(t, next);
        },
        Tm::Delay(b) => {
            lemma_lower_scoped(*b, next);
            assert forall|x: usize| #[trigger] ufree(lower_tm(t, next), x) implies x <= largest(t) && x <= u32::MAX && free_in(t, x as u32) by {
                reveal(lower_tm);
                assert(lower_tm(t, next) == UTm::Delay(Box::new(lower_tm(*b, next))));
                assert(ufree(lower_tm(*b, next), x));
            }
        },
        Tm::Force(b) => {
            lemma_lower_scoped(*b, next);
            assert forall|x: usize| #[trigger] ufree(lower_tm(t, next), x) implies x <= largest(t) && x <= u32::MAX && free_in(t, x as u32) by {
                reveal(lower_tm);
                assert(lower_tm(t, next) == UTm::Force(Box::new(lower_tm(*b, next))));
                assert(ufree(lower_tm(*b, next), x));
            }
        },
        Tm::Case(kind, s, bs, d) => {
            if kind == CaseKind::Tag {
                lemma_tag_scoped(t, next);
            } else {
                lemma_value_scoped(t, next);
            }
        },
    }
}

/// `lemma_lower_scoped` for applications, builtin calls and constructors.
proof fn lemma_list_scoped(t: Tm, next: nat)
    requires
        t is App || t is Builtin || t is Constr,
        lowers(t, next),
        largest(t) < next,
    ensures
        forall|x: usize|
            #[trigger] ufree(lower_tm(t, next), x) ==> x <= largest(t) && x <= u32::MAX && free_in(t, x as u32),
    decreases t, 0nat,
{
    reveal(lower_tm);
    match t {
        Tm::App(f, args) => {
            lemma_lower_scoped(*f, next);
            let n1 = next + fresh_count(*f);
            let ls = lower_seq(args, n1);
            assert forall|i: int| 0 <= i < args.len() implies largest(#[trigger] args[i]) < n1 by {
                lemma_seq_max_ge(largests(args), i);
            }
            lemma_lower_seq_scoped(args, n1);
            assert forall|x: usize| #[trigger] ufree(lower_tm(t, next), x) implies x <= largest(t) && x <= u32::MAX && free_in(t, x as u32) by {
                lemma_ufree_applied(lower_tm(*f, next), ls, x);
                if !ufree(lower_tm(*f, next), x) {
                    let i = choose|i: int| 0 <= i < ls.len() && ufree(#[trigger] ls[i], x);
                    lemma_seq_max_ge(largests(args), i);
                    lemma_free_in_list(args, x as u32);
                }
            }
        },
        Tm::Builtin(f, args) => {
            let ls = lower_seq(args, next);
            assert forall|i: int| 0 <= i < args.len() implies largest(#[trigger] args[i]) < next by {
                lemma_seq_max_ge(largests(args), i);
            }
            lemma_lower_seq_scoped(args, next);
            assert forall|x: usize| #[trigger] ufree(lower_tm(t, next), x) implies x <= largest(t) && x <= u32::MAX && free_in(t, x as u32) by {
                lemma_ufree_builtin(f, ls, x);
                let i = choose|i: int| 0 <= i < ls.len() && ufree(#[trigger] ls[i], x);
                lemma_seq_max_ge(largests(args), i);
                lemma_free_in_list(args, x as u32);
            }
        },
        Tm::Constr(tag, fs) => {
            let ls = lower_seq(fs, next);
            assert forall|i: int| 0 <= i < fs.len() implies largest(#[trigger] fs[i]) < next by {
                lemma_seq_max_ge(largests(fs), i);
            }
            lemma_lower_seq_scoped(fs, next);
            assert forall|x: usize| #[trigger] ufree(lower_tm(t, next), x) implies x <= largest(t) && x <= u32::MAX && free_in(t, x as u32) by {
                lemma_ufree_list(ls, x);
                let i = choose|i: int| 0 <= i < ls.len() && ufree(#[trigger] ls[i], x);
                lemma_seq_max_ge(largests(fs), i);
                lemma_free_in_list(fs, x as u32);
            }
        },
        _ => {},
    }
}

/// `lemma_lower_scoped` for lambdas and lets.
proof fn lemma_bind_scoped(t: Tm, next: nat)
    requires
        t is Lam || t is Let,
        lowers(t, next),
        largest(t) < next,
    ensures
        forall|x: usize|
            #[trigger] ufree(lower_tm(t, next), x) ==> x <= largest(t) && x <= u32::MAX && free_in(t, x as u32),
    decreases t, 0nat,
{
    reveal(lower_tm);
    match t {
        Tm::Lam(ps, b) => {
            lemma_lower_scoped(*b, next);
            assert forall|x: usize| #[trigger] ufree(lower_tm(t, next), x) implies x <= largest(t) && x <= u32::MAX && free_in(t, x as u32) by {
                lemma_ufree_lambdas(u_uniques(ps), lower_tm(*b, next), x);
                if binder_uniques(ps).contains(x as u32) {
                    let k = choose|k: int| 0 <= k < binder_uniques(ps).len() && binder_uniques(ps)[k] == x as u32;
                    assert(u_uniques(ps)[k] == x);
                }
            }
        },
        Tm::Let(b, v, body) => {
            lemma_lower_scoped(*body, next);
            lemma_lower_scoped(*v, next + fresh_count(*body));
            let lam = UTm::Lam(b.name.unique as usize, Box::new(lower_tm(*body, next)));
            assert forall|x: usize| #[trigger] ufree(lower_tm(t, next), x) implies x <= largest(t) && x <= u32::MAX && free_in(t, x as u32) by {
                assert(lower_tm(t, next) == UTm::App(Box::new(lam), Box::new(lower_tm(*v, next + fresh_count(*body)))));
                if ufree(lam, x) {
                    assert(x != b.name.unique as usize && ufree(lower_tm(*body, next), x));
                    assert(free_in(*body, x as u32));
                    assert(b.name.unique != x as u32);
                } else {
                    assert(ufree(lower_tm(*v, next + fresh_count(*body)), x));
                    assert(free_in(*v, x as u32));
                }
            }
        },
        _ => {},
    }
}

/// `lemma_lower_scoped` for field projections and traces.
proof fn lemma_unary_scoped(t: Tm, next: nat)
    requires
        t is Field || t is Trace,
        lowers(t, next),
        largest(t) < next,
    ensures
        forall|x: usize|
            #[trigger] ufree(lower_tm(t, next), x) ==> x <= largest(t) && x <= u32::MAX && free_in(t, x as u32),
    decreases t, 0nat,
{
    reveal(lower_tm);
    match t {
        Tm::Field(r, i, a) => {
            lemma_lower_scoped(*r, next + a as nat);
            let pick = lambdas(unique_range(next, a as nat), UTm::Var((next + i) as usize));
            assert forall|x: usize| #[trigger] ufree(lower_tm(t, next), x) implies x <= largest(t) && x <= u32::MAX && free_in(t, x as u32) by {
                if !ufree(lower_tm(*r, next + a as nat), x) {
                    lemma_ufree_list(seq![pick], x);
                    let q = choose|q: int| 0 <= q < 1 && ufree(#[trigger] seq![pick][q], x);
                    lemma_ufree_lambdas(unique_range(next, a as nat), UTm::Var((next + i) as usize), x);
                    assert(unique_range(next, a as nat)[i as int] == x);
                }
            }
        },
        Tm::Trace(m, b) => {
            lemma_lower_scoped(*m, next);
            lemma_lower_scoped(*b, next + fresh_count(*m));
            let args = seq![lower_tm(*m, next), UTm::Delay(Box::new(lower_tm(*b, next + fresh_count(*m))))];
            assert forall|x: usize| #[trigger] ufree(lower_tm(t, next), x) implies x <= largest(t) && x <= u32::MAX && free_in(t, x as u32) by {
                assert(lower_tm(t, next) == UTm::Force(Box::new(ubuiltin(DefaultFunction::Trace, args))));
                assert(ufree(ubuiltin(DefaultFunction::Trace, args), x));
                lemma_ufree_builtin(DefaultFunction::Trace, args, x);
                let q = choose|q: int| 0 <= q < args.len() && ufree(#[trigger] args[q], x);
                if q == 1 {
                    assert(ufree(lower_tm(*b, next + fresh_count(*m)), x));
                } else {
                    assert(ufree(lower_tm(*m, next), x));
                }
            }
        },
        _ => {},
    }
}

/// `lemma_lower_scoped` for a constructor case.
proof fn lemma_tag_scoped(t: Tm, next: nat)
    requires
        t matches Tm::Case(kind, _, _, _) && kind == CaseKind::Tag,
        lowers(t, next),
        largest(t) < next,
    ensures
        forall|x: usize|
            #[trigger] ufree(lower_tm(t, next), x) ==> x <= largest(t) && x <= u32::MAX && free_in(t, x as u32),
    decreases t, 0nat,
{
    lemma_lower_tag(t, next);
    match t {
        Tm::Case(_, s, bs, _) => {
            let order = tag_order(bs);
            let c = branch_costs(bs);
            let total = sum_in_order(c, order, bs.len() as int);
            let arms = tag_arms_spec(bs, next);
            assert(fresh_count(t) == fresh_count(*s) + total);
            lemma_lower_scoped(*s, next + total);
            assert forall|x: usize| #[trigger] ufree(lower_tm(t, next), x) implies x <= largest(t) && x <= u32::MAX && free_in(t, x as u32) by {
                if !ufree(lower_tm(*s, next + total), x) {
                    lemma_ufree_list(arms, x);
                    let i = choose|i: int| 0 <= i < arms.len() && ufree(#[trigger] arms[i], x);
                    let j = order[i];
                    assert(0 <= j < bs.len());
                    let start = next + sum_in_order(c, order, i);
                    lemma_ufree_lambdas(u_uniques(bs[j].binders), lower_tm(bs[j].body, start), x);
                    lemma_sum_in_order_mono(c, order, i + 1, bs.len() as int);
                    assert(c[j] == fresh_count(bs[j].body));
                    assert(bodies_lowerable(bs));
                    assert(lowerable(bs[j].body));
                    lemma_seq_max_ge(branch_maxes(bs), j);
                    assert(decreases_to!(t => bs));
                    assert(decreases_to!(bs => bs[j]));
                    assert(decreases_to!(bs[j] => bs[j].body));
                    lemma_lower_scoped(bs[j].body, start);
                    assert(ufree(lower_tm(bs[j].body, start), x));
                    if binder_uniques(bs[j].binders).contains(x as u32) {
                        let k = choose|k: int| 0 <= k < binder_uniques(bs[j].binders).len() && binder_uniques(bs[j].binders)[k] == x as u32;
                        assert(u_uniques(bs[j].binders)[k] == x);
                    }
                    lemma_free_in_branches(bs, x as u32);
                }
            }
        },
        _ => {},
    }
}

/// `lemma_lower_scoped` for a case on a value.
proof fn lemma_value_scoped(t: Tm, next: nat)
    requires
        t matches Tm::Case(kind, _, _, _) && kind != CaseKind::Tag,
        lowers(t, next),
        largest(t) < next,
    ensures
        forall|x: usize|
            #[trigger] ufree(lower_tm(t, next), x) ==> x <= largest(t) && x <= u32::MAX && free_in(t, x as u32),
    decreases t, 0nat,
{
    lemma_lower_value(t, next);
    match t {
        Tm::Case(kind, s, bs, d) => {
            let fd: nat = match d {
                Some(x) => fresh_count(*x),
                None => 0,
            };
            let base = next + 1 + fd;
            let c = case_costs(kind, bs);
            let bodies = case_bodies(kind, bs, base);
            let fallback = match d {
                Some(x) => lower_tm(*x, next + 1),
                None => UTm::Error,
            };
            let cr = case_result(kind, bs, UTm::Var(next as usize), bodies, fallback, base);
            assert(fresh_count(t) == fresh_count(*s) + base + sum(c) - next);
            lemma_lower_scoped(*s, base + sum(c));
            match d {
                Some(x) => {
                    assert(decreases_to!(t => d));
                    lemma_lower_scoped(*x, next + 1);
                },
                None => {},
            }
            assert forall|x: usize| #[trigger] ufree(lower_tm(t, next), x) implies x <= largest(t) && x <= u32::MAX && free_in(t, x as u32) by {
                if !ufree(lower_tm(*s, base + sum(c)), x) {
                    let lam = UTm::Lam(next as usize, Box::new(cr));
                    assert(lower_tm(t, next) == UTm::App(Box::new(lam), Box::new(lower_tm(*s, base + sum(c)))));
                    assert(ufree(lam, x));
                    assert(x != next as usize && ufree(cr, x));
                    assert(case_ok(kind, bs, d));
                    assert(bodies.len() == bs.len());
                    lemma_case_result_free(kind, bs, UTm::Var(next as usize), bodies, fallback, base, x);
                    if !ufree(fallback, x) {
                        let j = choose|j: int|
                            0 <= j < bs.len() && !u_uniques(bs[j].binders).contains(x) && ufree(#[trigger] bodies[j], x);
                        lemma_case_body(kind, bs, base, j);
                        let start = if kind == CaseKind::Int || kind == CaseKind::Bytes {
                            base + sum(c.skip(j + 1))
                        } else {
                            base + sum(c.take(j))
                        };
                        if kind == CaseKind::Int || kind == CaseKind::Bytes {
                            lemma_sum_skip(c, j);
                            lemma_sum_skip_le(c, j);
                        } else {
                            lemma_sum_take(c, j);
                        }
                        assert(c[j] >= fresh_count(bs[j].body));
                        assert(bodies_lowerable(bs));
                        assert(lowerable(bs[j].body));
                        lemma_seq_max_ge(branch_maxes(bs), j);
                        assert(decreases_to!(t => bs));
                        assert(decreases_to!(bs => bs[j]));
                        assert(decreases_to!(bs[j] => bs[j].body));
                        lemma_lower_scoped(bs[j].body, start);
                        if binder_uniques(bs[j].binders).contains(x as u32) {
                            let k = choose|k: int| 0 <= k < binder_uniques(bs[j].binders).len() && binder_uniques(bs[j].binders)[k] == x as u32;
                            assert(u_uniques(bs[j].binders)[k] == x);
                        }
                        lemma_free_in_branches(bs, x as u32);
                    }
                }
            }
        },
        _ => {},
    }
}

/// A closed Core term that lowers lowers to a closed UPLC term.
pub proof fn lemma_lower_closed(t: Tm)
    requires
        lowers(t, largest(t) + 1),
        forall|x: u32| !free_in(t, x),
    ensures
        uclosed(lower_tm(t, largest(t) + 1)),
{
    lemma_lower_scoped(t, largest(t) + 1);
    assert forall|x: usize| !#[trigger] ufree(lower_tm(t, largest(t) + 1), x) by {
        if ufree(lower_tm(t, largest(t) + 1), x) {
            assert(free_in(t, x as u32));
        }
    }
}

} // verus!
