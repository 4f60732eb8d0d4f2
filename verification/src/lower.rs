//! Structural lowering of Core to UPLC. Trait evidence, casts and recursive
//! groups are gone by now; what is left maps term for term.
//!
//! Lowering hands out fresh names for record projections and for the value a
//! non-constructor case inspects, counting up from one past the largest
//! unique of the input, so that no generated name meets an input name.
use vstd::prelude::*;
use crate::ir::{
    Binder, Branch, CaseKind, Constant, ConstantV, Core, DefaultFunction, Name, RecBinder, RecTm, Tm, BranchTm,
    TestV, Test, views, branch_views, group_views, lemma_views, duplicate_bytes,
};
use crate::emission::lemma_set_len_bound;
use crate::uplc::{
    Term, UName, UTm, forced, applied, ubuiltin, lazy_if, lambdas, term_views, lemma_term_views, var,
    apply, delay, force, lambda,
};

verus! {

/// Why a Core term cannot be lowered.
#[derive(Debug, PartialEq, Eq)]
pub enum Error {
    InvalidField { index: u16, arity: u16 },
    InvalidCase(&'static str),
    BuiltinArity,
    Unlowered(&'static str),
    NameOverflow,
}

/// The sum of a sequence of naturals.
pub open spec fn sum(s: Seq<nat>) -> nat
    decreases s.len(),
{
    if s.len() == 0 {
        0
    } else {
        sum(s.drop_last()) + s.last()
    }
}

/// The largest element of a sequence of naturals, or 0.
pub open spec fn seq_max(s: Seq<nat>) -> nat
    decreases s.len(),
{
    if s.len() == 0 {
        0
    } else if s.last() > seq_max(s.drop_last()) {
        s.last()
    } else {
        seq_max(s.drop_last())
    }
}

/// The uniques of binders, as UPLC uniques.
pub open spec fn u_uniques(bs: Seq<Binder>) -> Seq<usize> {
    Seq::new(bs.len(), |i: int| bs[i].name.unique as usize)
}

/// `count` consecutive uniques from `start`.
pub open spec fn unique_range(start: nat, count: nat) -> Seq<usize> {
    Seq::new(count, |k: int| (start + k) as usize)
}

/// The branch of a constructor case whose tag is `i`.
pub open spec fn tag_branch(bs: Seq<BranchTm>, i: int) -> int {
    choose|j: int| 0 <= j < bs.len() && bs[j].test == TestV::Tag(i as u16)
}

/// The branches of a constructor case in tag order, by position.
pub open spec fn tag_order(bs: Seq<BranchTm>) -> Seq<int> {
    Seq::new(bs.len(), |i: int| tag_branch(bs, i))
}

/// The sum of `c` over the first `k` positions of `order`.
pub open spec fn sum_in_order(c: Seq<nat>, order: Seq<int>, k: int) -> nat
    decreases k,
{
    if k <= 0 {
        0
    } else {
        sum_in_order(c, order, k - 1) + c[order[k - 1]]
    }
}

/// Position of the first branch with test `test`.
pub open spec fn branch_with(bs: Seq<BranchTm>, test: TestV) -> int {
    choose|j: int| 0 <= j < bs.len() && bs[j].test == test
}

/// Some branch has test `test`.
pub open spec fn has_branch(bs: Seq<BranchTm>, test: TestV) -> bool {
    exists|j: int| 0 <= j < bs.len() && bs[j].test == test
}

/// The fresh names that lowering each term takes.
pub open spec fn costs(s: Seq<Tm>) -> Seq<nat>
    decreases s,
{
    Seq::new(
        s.len(),
        |i: int|
            if 0 <= i < s.len() {
                fresh_count(s[i])
            } else {
                0
            },
    )
}

/// The fresh names that lowering each branch body takes.
pub open spec fn branch_costs(bs: Seq<BranchTm>) -> Seq<nat>
    decreases bs,
{
    Seq::new(
        bs.len(),
        |i: int|
            if 0 <= i < bs.len() {
                fresh_count(bs[i].body)
            } else {
                0
            },
    )
}

/// As `branch_costs`, with the name for the pair of a constructor branch of a
/// Data case.
pub open spec fn data_costs(bs: Seq<BranchTm>) -> Seq<nat>
    decreases bs,
{
    Seq::new(
        bs.len(),
        |i: int|
            if 0 <= i < bs.len() {
                fresh_count(bs[i].body) + if bs[i].test == TestV::DataConstr {
                    1nat
                } else {
                    0nat
                }
            } else {
                0
            },
    )
}

/// The number of fresh names that lowering `t` takes.
pub open spec fn fresh_count(t: Tm) -> nat
    decreases t,
{
    match t {
        Tm::Var(_) => 0,
        Tm::Lit(_) => 0,
        Tm::Error => 0,
        Tm::LetRec(_, _) => 0,
        Tm::Cast(_, _, _, _) => 0,
        Tm::Lam(_, b) => fresh_count(*b),
        Tm::App(f, args) => fresh_count(*f) + sum(costs(args)),
        Tm::Let(_, v, b) => fresh_count(*v) + fresh_count(*b),
        Tm::Case(kind, s, bs, d) => fresh_count(*s) + if kind == CaseKind::Tag {
            sum_in_order(branch_costs(bs), tag_order(bs), bs.len() as int)
        } else {
            1 + match d {
                Some(x) => fresh_count(*x),
                None => 0,
            } + if kind == CaseKind::Data {
                sum(data_costs(bs))
            } else {
                sum(branch_costs(bs))
            }
        },
        Tm::Constr(_, fs) => sum(costs(fs)),
        Tm::Field(r, _, a) => a as nat + fresh_count(*r),
        Tm::Builtin(_, args) => sum(costs(args)),
        Tm::Trace(m, b) => fresh_count(*m) + fresh_count(*b),
        Tm::Delay(b) => fresh_count(*b),
        Tm::Force(b) => fresh_count(*b),
    }
}

/// The shapes of Plutus Data, in the order in which `ChooseData` takes the
/// arm for each: constructor, map, list, integer, byte string.
pub enum DataShape {
    OfConstr,
    OfMap,
    OfList,
    OfInt,
    OfBytes,
}

/// The shape of Data for which `ChooseData` selects its argument at
/// position `k` (counting the arms from 0).
pub open spec fn chosen_shape(k: int) -> DataShape {
    if k == 0 {
        DataShape::OfConstr
    } else if k == 1 {
        DataShape::OfMap
    } else if k == 2 {
        DataShape::OfList
    } else if k == 3 {
        DataShape::OfInt
    } else {
        DataShape::OfBytes
    }
}

/// The one shape of Data that an unwrapping builtin accepts; applied to
/// Data of any other shape it fails.
pub open spec fn accepted_shape(f: DefaultFunction) -> Option<DataShape> {
    match f {
        DefaultFunction::UnConstrData => Some(DataShape::OfConstr),
        DefaultFunction::UnMapData => Some(DataShape::OfMap),
        DefaultFunction::UnListData => Some(DataShape::OfList),
        DefaultFunction::UnIData => Some(DataShape::OfInt),
        DefaultFunction::UnBData => Some(DataShape::OfBytes),
        _ => None,
    }
}

/// The shape of Data that a branch test matches.
pub open spec fn test_shape(t: TestV) -> Option<DataShape> {
    match t {
        TestV::DataConstr => Some(DataShape::OfConstr),
        TestV::DataMap => Some(DataShape::OfMap),
        TestV::DataList => Some(DataShape::OfList),
        TestV::DataI => Some(DataShape::OfInt),
        TestV::DataB => Some(DataShape::OfBytes),
        _ => None,
    }
}

/// A Data case lowers each branch into the arm that `ChooseData` takes for
/// the shape the branch tests, and that arm unwraps the value with the
/// builtin that accepts exactly that shape: no arm unwraps Data of a shape
/// other than the one dispatched to it.
pub proof fn lemma_data_arms_unwrap_their_shape(k: int)
    requires
        0 <= k < 5,
    ensures
        test_shape(data_test(k)) == Some(chosen_shape(k)),
        accepted_shape(data_unwrap(k)) == Some(chosen_shape(k)),
        forall|b: BranchTm, body: UTm, value: UTm, pair: usize| #[trigger] data_arm(k, b, body, value, pair) matches UTm::App(
            _,
            a,
        ) && *a == ubuiltin(data_unwrap(k), seq![value]),
{
}

/// The Data test of position `k` of `ChooseData`, and the builtin that
/// unwraps it.
pub open spec fn data_test(k: int) -> TestV {
    if k == 0 {
        TestV::DataConstr
    } else if k == 1 {
        TestV::DataMap
    } else if k == 2 {
        TestV::DataList
    } else if k == 3 {
        TestV::DataI
    } else {
        TestV::DataB
    }
}

pub open spec fn data_unwrap(k: int) -> DefaultFunction {
    if k == 0 {
        DefaultFunction::UnConstrData
    } else if k == 1 {
        DefaultFunction::UnMapData
    } else if k == 2 {
        DefaultFunction::UnListData
    } else if k == 3 {
        DefaultFunction::UnIData
    } else {
        DefaultFunction::UnBData
    }
}

/// The fields a Data branch binds.
pub open spec fn data_arity(test: TestV) -> nat {
    if test == TestV::DataConstr {
        2
    } else {
        1
    }
}

/// The position of a Data test in `ChooseData`.
pub open spec fn is_data_test(test: TestV) -> bool {
    test == TestV::DataConstr || test == TestV::DataMap || test == TestV::DataList || test
        == TestV::DataI || test == TestV::DataB
}

/// The literal a branch of an integer or bytes case compares against.
pub open spec fn literal(test: TestV) -> UTm {
    match test {
        TestV::Int(i) => UTm::Const(ConstantV::Integer(i)),
        TestV::Bytes(b) => UTm::Const(ConstantV::ByteString(b)),
        _ => UTm::Error,
    }
}

/// The comparison of an integer or bytes case.
pub open spec fn equality(kind: CaseKind) -> DefaultFunction {
    if kind == CaseKind::Int {
        DefaultFunction::EqualsInteger
    } else {
        DefaultFunction::EqualsByteString
    }
}

/// The chain of comparisons of a literal case from position `j` on, ending
/// in `fallback`.
pub open spec fn literal_chain(conds: Seq<UTm>, bodies: Seq<UTm>, fallback: UTm, j: int) -> UTm
    decreases conds.len() - j,
{
    if j >= conds.len() || j < 0 {
        fallback
    } else {
        lazy_if(conds[j], bodies[j], literal_chain(conds, bodies, fallback, j + 1))
    }
}

/// The fresh names each branch of a non-constructor case takes.
pub open spec fn case_costs(kind: CaseKind, bs: Seq<BranchTm>) -> Seq<nat> {
    if kind == CaseKind::Data {
        data_costs(bs)
    } else {
        branch_costs(bs)
    }
}

/// The lowered branch bodies of a non-constructor case whose branches start
/// counting fresh names at `base`: integer and bytes cases lower them last
/// to first, the other kinds first to last.
pub open spec fn case_bodies(kind: CaseKind, bs: Seq<BranchTm>, base: nat) -> Seq<UTm>
    decreases bs,
{
    Seq::new(
        bs.len(),
        |j: int|
            if 0 <= j < bs.len() {
                lower_tm(
                    bs[j].body,
                    if kind == CaseKind::Int || kind == CaseKind::Bytes {
                        base + sum(case_costs(kind, bs).skip(j + 1))
                    } else {
                        base + sum(case_costs(kind, bs).take(j))
                    },
                )
            } else {
                UTm::Error
            },
    )
}

/// The lowered body of the branch with test `test`, or `fallback`.
pub open spec fn arm_or(bs: Seq<BranchTm>, bodies: Seq<UTm>, test: TestV, fallback: UTm) -> UTm {
    if has_branch(bs, test) {
        bodies[branch_with(bs, test)]
    } else {
        fallback
    }
}

pub open spec fn bool_result(bs: Seq<BranchTm>, value: UTm, bodies: Seq<UTm>, fallback: UTm) -> UTm {
    lazy_if(
        value,
        arm_or(bs, bodies, TestV::True, fallback),
        arm_or(bs, bodies, TestV::False, fallback),
    )
}

pub open spec fn literal_conds(kind: CaseKind, bs: Seq<BranchTm>, value: UTm) -> Seq<UTm> {
    Seq::new(bs.len(), |j: int| ubuiltin(equality(kind), seq![value, literal(bs[j].test)]))
}

pub open spec fn literal_result(kind: CaseKind, bs: Seq<BranchTm>, value: UTm, bodies: Seq<UTm>, fallback: UTm) -> UTm {
    literal_chain(literal_conds(kind, bs, value), bodies, fallback, 0)
}

/// A cons branch applied to the head and tail of the inspected list.
pub open spec fn cons_arm(b: BranchTm, body: UTm, value: UTm) -> UTm {
    UTm::App(
        Box::new(
            UTm::App(
                Box::new(lambdas(u_uniques(b.binders), body)),
                Box::new(ubuiltin(DefaultFunction::HeadList, seq![value])),
            ),
        ),
        Box::new(ubuiltin(DefaultFunction::TailList, seq![value])),
    )
}

pub open spec fn list_result(bs: Seq<BranchTm>, value: UTm, bodies: Seq<UTm>, fallback: UTm) -> UTm {
    lazy_if(
        ubuiltin(DefaultFunction::NullList, seq![value]),
        arm_or(bs, bodies, TestV::Nil, fallback),
        if has_branch(bs, TestV::Cons) {
            let j = branch_with(bs, TestV::Cons);
            cons_arm(bs[j], bodies[j], value)
        } else {
            fallback
        },
    )
}

/// The arm of a Data case for the branch `b`, whose pair name (for a
/// constructor branch) is `pair`.
pub open spec fn data_arm(k: int, b: BranchTm, body: UTm, value: UTm, pair: usize) -> UTm {
    let function = lambdas(u_uniques(b.binders), body);
    let unwrapped = ubuiltin(data_unwrap(k), seq![value]);
    if k == 0 {
        UTm::App(
            Box::new(
                UTm::Lam(
                    pair,
                    Box::new(
                        UTm::App(
                            Box::new(
                                UTm::App(
                                    Box::new(function),
                                    Box::new(ubuiltin(DefaultFunction::FstPair, seq![UTm::Var(pair)])),
                                ),
                            ),
                            Box::new(ubuiltin(DefaultFunction::SndPair, seq![UTm::Var(pair)])),
                        ),
                    ),
                ),
            ),
            Box::new(unwrapped),
        )
    } else {
        UTm::App(Box::new(function), Box::new(unwrapped))
    }
}

/// The pair name of branch `j` of a Data case: taken after its body.
pub open spec fn pair_name(bs: Seq<BranchTm>, base: nat, j: int) -> usize {
    (base + sum(data_costs(bs).take(j)) + fresh_count(bs[j].body)) as usize
}

pub open spec fn data_arms(bs: Seq<BranchTm>, value: UTm, bodies: Seq<UTm>, fallback: UTm, base: nat) -> Seq<UTm> {
    Seq::new(
        5,
        |k: int|
            if has_branch(bs, data_test(k)) {
                let j = branch_with(bs, data_test(k));
                data_arm(k, bs[j], bodies[j], value, pair_name(bs, base, j))
            } else {
                fallback
            },
    )
}

pub open spec fn data_result(bs: Seq<BranchTm>, value: UTm, bodies: Seq<UTm>, fallback: UTm, base: nat) -> UTm {
    let arms = data_arms(bs, value, bodies, fallback, base);
    UTm::Force(
        Box::new(
            ubuiltin(
                DefaultFunction::ChooseData,
                seq![
                    value,
                    UTm::Delay(Box::new(arms[0])),
                    UTm::Delay(Box::new(arms[1])),
                    UTm::Delay(Box::new(arms[2])),
                    UTm::Delay(Box::new(arms[3])),
                    UTm::Delay(Box::new(arms[4])),
                ],
            ),
        ),
    )
}

/// What a non-constructor case evaluates once it has bound the inspected
/// value to `value`.
pub open spec fn case_result(
    kind: CaseKind,
    bs: Seq<BranchTm>,
    value: UTm,
    bodies: Seq<UTm>,
    fallback: UTm,
    base: nat,
) -> UTm {
    if kind == CaseKind::Bool {
        bool_result(bs, value, bodies, fallback)
    } else if kind == CaseKind::Int || kind == CaseKind::Bytes {
        literal_result(kind, bs, value, bodies, fallback)
    } else if kind == CaseKind::List {
        list_result(bs, value, bodies, fallback)
    } else {
        data_result(bs, value, bodies, fallback, base)
    }
}

/// Lowering of each term of `s`, the fresh names counted from `next`.
pub open spec fn lower_seq(s: Seq<Tm>, next: nat) -> Seq<UTm>
    decreases s,
{
    Seq::new(
        s.len(),
        |i: int|
            if 0 <= i < s.len() {
                lower_tm(s[i], next + sum(costs(s).take(i)))
            } else {
                UTm::Error
            },
    )
}

/// The lowering of `t`, the fresh names counted from `next`.
#[verifier::opaque]
pub open spec fn lower_tm(t: Tm, next: nat) -> UTm
    decreases t,
{
    match t {
        Tm::Var(n) => UTm::Var(n.unique as usize),
        Tm::Lit(k) => UTm::Const(k),
        Tm::Lam(ps, b) => lambdas(u_uniques(ps), lower_tm(*b, next)),
        Tm::App(f, args) => applied(lower_tm(*f, next), lower_seq(args, next + fresh_count(*f))),
        Tm::Let(b, v, body) => UTm::App(
            Box::new(UTm::Lam(b.name.unique as usize, Box::new(lower_tm(*body, next)))),
            Box::new(lower_tm(*v, next + fresh_count(*body))),
        ),
        Tm::Builtin(f, args) => ubuiltin(f, lower_seq(args, next)),
        Tm::Constr(tag, fs) => UTm::Constr(tag as usize, lower_seq(fs, next)),
        Tm::Field(r, i, a) => UTm::Case(
            Box::new(lower_tm(*r, next + a as nat)),
            seq![lambdas(unique_range(next, a as nat), UTm::Var((next + i) as usize))],
        ),
        Tm::Trace(m, b) => UTm::Force(
            Box::new(
                ubuiltin(
                    DefaultFunction::Trace,
                    seq![lower_tm(*m, next), UTm::Delay(Box::new(lower_tm(*b, next + fresh_count(*m))))],
                ),
            ),
        ),
        Tm::Error => UTm::Error,
        Tm::Delay(b) => UTm::Delay(Box::new(lower_tm(*b, next))),
        Tm::Force(b) => UTm::Force(Box::new(lower_tm(*b, next))),
        Tm::Case(kind, s, bs, d) => if kind == CaseKind::Tag {
            let order = tag_order(bs);
            let c = branch_costs(bs);
            UTm::Case(
                Box::new(lower_tm(*s, next + sum_in_order(c, order, bs.len() as int))),
                Seq::new(
                    bs.len(),
                    |i: int|
                        if 0 <= order[i] < bs.len() {
                            lambdas(
                                u_uniques(bs[order[i]].binders),
                                lower_tm(bs[order[i]].body, next + sum_in_order(c, order, i)),
                            )
                        } else {
                            UTm::Error
                        },
                ),
            )
        } else {
            let name = next as usize;
            let fallback = match d {
                Some(x) => lower_tm(*x, next + 1),
                None => UTm::Error,
            };
            let base = next + 1 + match d {
                Some(x) => fresh_count(*x),
                None => 0,
            };
            let c = case_costs(kind, bs);
            UTm::App(
                Box::new(
                    UTm::Lam(
                        name,
                        Box::new(
                            case_result(kind, bs, UTm::Var(name), case_bodies(kind, bs, base), fallback, base),
                        ),
                    ),
                ),
                Box::new(lower_tm(*s, base + sum(c))),
            )
        },
        Tm::LetRec(_, _) => UTm::Error,
        Tm::Cast(_, _, _, _) => UTm::Error,
    }
}


/// Every term of `s` can be lowered.
pub open spec fn all_lowerable(s: Seq<Tm>) -> bool
    decreases s,
{
    forall|i: int| 0 <= i < s.len() ==> lowerable(#[trigger] s[i])
}

/// Every branch body can be lowered.
pub open spec fn bodies_lowerable(bs: Seq<BranchTm>) -> bool
    decreases bs,
{
    forall|i: int| 0 <= i < bs.len() ==> lowerable(#[trigger] bs[i].body)
}

/// No two branches share a test.
pub open spec fn distinct_tests(bs: Seq<BranchTm>) -> bool {
    forall|j: int, k: int| 0 <= j < k < bs.len() ==> bs[j].test != bs[k].test
}

/// A branch suits a case of `kind` with `n` branches.
pub open spec fn branch_fits(kind: CaseKind, b: BranchTm, n: nat) -> bool {
    match kind {
        CaseKind::Tag => b.test matches TestV::Tag(t) && (t as nat) < n,
        CaseKind::Bool => b.binders.len() == 0 && (b.test == TestV::True || b.test == TestV::False),
        CaseKind::Int => b.binders.len() == 0 && b.test is Int,
        CaseKind::Bytes => b.binders.len() == 0 && b.test is Bytes,
        CaseKind::List => (b.test == TestV::Nil && b.binders.len() == 0) || (b.test == TestV::Cons
            && b.binders.len() == 2),
        CaseKind::Data => is_data_test(b.test) && b.binders.len() == data_arity(b.test),
    }
}

/// The branches and default of a case have the shape its kind needs: a
/// constructor case covers the tags `0..n` once each and has no default;
/// every other kind has at most one branch per test.
pub open spec fn case_ok(kind: CaseKind, bs: Seq<BranchTm>, d: Option<Box<Tm>>) -> bool {
    &&& (kind == CaseKind::Tag ==> d is None)
    &&& forall|j: int| 0 <= j < bs.len() ==> #[trigger] branch_fits(kind, bs[j], bs.len())
    &&& distinct_tests(bs)
}

/// `t` can be lowered: no recursive group or cast is left, every field
/// projection is in range, no builtin is over-applied, every case is well formed.
pub open spec fn lowerable(t: Tm) -> bool
    decreases t,
{
    match t {
        Tm::Var(_) => true,
        Tm::Lit(_) => true,
        Tm::Error => true,
        Tm::Lam(_, b) => lowerable(*b),
        Tm::App(f, args) => lowerable(*f) && all_lowerable(args),
        Tm::Let(_, v, b) => lowerable(*v) && lowerable(*b),
        Tm::LetRec(_, _) => false,
        Tm::Cast(_, _, _, _) => false,
        Tm::Case(kind, s, bs, d) => lowerable(*s) && bodies_lowerable(bs) && match d {
            Some(x) => lowerable(*x),
            None => true,
        } && case_ok(kind, bs, d),
        Tm::Constr(_, fs) => all_lowerable(fs),
        Tm::Field(r, i, a) => i < a && lowerable(*r),
        Tm::Builtin(f, args) => args.len() <= f.spec_arity() && all_lowerable(args),
        Tm::Trace(m, b) => lowerable(*m) && lowerable(*b),
        Tm::Delay(b) => lowerable(*b),
        Tm::Force(b) => lowerable(*b),
    }
}

/// Lowering of `t` may stop with `e`: some node of `t` cannot be lowered
/// and `e` is the error that node gives. A recursive group or a cast gives
/// `Unlowered`, a field out of range gives `InvalidField` with its index and
/// arity, an over-applied builtin gives `BuiltinArity`, a case whose branches
/// do not have the shape its kind needs gives `InvalidCase`.
pub open spec fn faults(t: Tm, e: Error) -> bool
    decreases t,
{
    match t {
        Tm::Var(_) => false,
        Tm::Lit(_) => false,
        Tm::Error => false,
        Tm::Lam(_, b) => faults(*b, e),
        Tm::App(f, args) => faults(*f, e) || any_faults(args, e),
        Tm::Let(_, v, b) => faults(*v, e) || faults(*b, e),
        Tm::LetRec(_, _) => e is Unlowered,
        Tm::Cast(_, _, _, _) => e is Unlowered,
        Tm::Case(kind, s, bs, d) => faults(*s, e) || body_faults(bs, e) || (match d {
            Some(x) => faults(*x, e),
            None => false,
        }) || (!case_ok(kind, bs, d) && e is InvalidCase),
        Tm::Constr(_, fs) => any_faults(fs, e),
        Tm::Field(r, i, a) => (i >= a && e == Error::InvalidField { index: i, arity: a }) || faults(*r, e),
        Tm::Builtin(f, args) => (args.len() > f.spec_arity() && e is BuiltinArity) || any_faults(args, e),
        Tm::Trace(m, b) => faults(*m, e) || faults(*b, e),
        Tm::Delay(b) => faults(*b, e),
        Tm::Force(b) => faults(*b, e),
    }
}

/// Some term of `s` faults with `e`.
pub open spec fn any_faults(s: Seq<Tm>, e: Error) -> bool
    decreases s,
{
    exists|i: int| 0 <= i < s.len() && faults(#[trigger] s[i], e)
}

/// Some branch body of `bs` faults with `e`.
pub open spec fn body_faults(bs: Seq<BranchTm>, e: Error) -> bool
    decreases bs,
{
    exists|i: int| 0 <= i < bs.len() && faults(#[trigger] bs[i].body, e)
}

/// Lowering of `t` succeeds from `next`: it can be lowered and its fresh
/// names fit.
pub open spec fn lowers(t: Tm, next: nat) -> bool {
    lowerable(t) && next + fresh_count(t) <= usize::MAX
}

pub proof fn lemma_sum_take(s: Seq<nat>, i: int)
    requires
        0 <= i < s.len(),
    ensures
        sum(s.take(i + 1)) == sum(s.take(i)) + s[i],
        sum(s.take(i)) + s[i] <= sum(s),
{
    assert(s.take(i + 1).drop_last() =~= s.take(i));
    lemma_sum_prefix(s, i + 1);
}

pub proof fn lemma_sum_prefix(s: Seq<nat>, i: int)
    requires
        0 <= i <= s.len(),
    ensures
        sum(s.take(i)) <= sum(s),
    decreases s.len() - i,
{
    if i < s.len() {
        lemma_sum_prefix(s, i + 1);
        assert(s.take(i + 1).drop_last() =~= s.take(i));
    } else {
        assert(s.take(i) =~= s);
    }
}

/// The UPLC uniques of a list of names.
pub open spec fn unique_views(s: Seq<UName>) -> Seq<usize> {
    Seq::new(s.len(), |i: int| s[i].unique)
}

/// `body` under lambdas binding `names`, the first outermost.
fn wrap_lambdas(names: Vec<UName>, body: Term) -> (r: Term)
    ensures
        r@ == lambdas(unique_views(names@), body@),
{
    let ghost ps = unique_views(names@);
    let mut names = names;
    let mut t = body;
    let mut i = names.len();
    proof {
        assert(ps.take(i as int) =~= ps);
    }
    while i > 0
        invariant
            i == names@.len(),
            i <= ps.len(),
            forall|k: int| 0 <= k < i ==> #[trigger] names@[k].unique == ps[k],
            lambdas(ps.take(i as int), t@) == lambdas(ps, body@),
        decreases i,
    {
        let n = names.pop().unwrap();
        proof {
            assert(ps.take(i as int).drop_last() =~= ps.take(i - 1));
            assert(ps.take(i as int).last() == n.unique);
        }
        t = lambda(n, t);
        i -= 1;
    }
    proof {
        assert(ps.take(0) =~= Seq::<usize>::empty());
    }
    t
}

/// `h` applied to each of `args`, left to right.
fn apply_all(h: Term, args: Vec<Term>) -> (r: Term)
    ensures
        r@ == applied(h@, term_views(args@)),
{
    let ghost a = term_views(args@);
    let mut args = args;
    let mut t = h;
    let mut i: usize = 0;
    let n = args.len();
    while i < n
        invariant
            n == a.len(),
            i <= n,
            args@.len() == n - i,
            forall|k: int| 0 <= k < args@.len() ==> #[trigger] args@[k]@ == a[i + k],
            t@ == applied(h@, a.take(i as int)),
        decreases n - i,
    {
        let x = args.remove(0);
        proof {
            assert(a.take(i + 1).drop_last() =~= a.take(i as int));
        }
        t = apply(t, x);
        i += 1;
    }
    proof {
        assert(a.take(n as int) =~= a);
    }
    t
}

/// The largest unique that `t` mentions, as a binder or a variable.
pub open spec fn largest(t: Tm) -> nat
    decreases t,
{
    match t {
        Tm::Var(n) => n.unique as nat,
        Tm::Lit(_) => 0,
        Tm::Error => 0,
        Tm::Lam(ps, b) => max2(binders_max(ps), largest(*b)),
        Tm::App(f, args) => max2(largest(*f), seq_max(largests(args))),
        Tm::Let(b, v, body) => max2(b.name.unique as nat, max2(largest(*v), largest(*body))),
        Tm::LetRec(rbs, body) => max2(seq_max(group_maxes(rbs)), largest(*body)),
        Tm::Case(_, s, bs, d) => max2(
            largest(*s),
            max2(
                seq_max(branch_maxes(bs)),
                match d {
                    Some(x) => largest(*x),
                    None => 0,
                },
            ),
        ),
        Tm::Constr(_, fs) => seq_max(largests(fs)),
        Tm::Field(r, _, _) => largest(*r),
        Tm::Builtin(_, args) => seq_max(largests(args)),
        Tm::Cast(_, _, _, a) => largest(*a),
        Tm::Trace(m, b) => max2(largest(*m), largest(*b)),
        Tm::Delay(b) => largest(*b),
        Tm::Force(b) => largest(*b),
    }
}

/// The largest unique of each branch: its fields and its body.
pub open spec fn branch_maxes(bs: Seq<BranchTm>) -> Seq<nat>
    decreases bs,
{
    Seq::new(
        bs.len(),
        |i: int|
            if 0 <= i < bs.len() {
                max2(binders_max(bs[i].binders), largest(bs[i].body))
            } else {
                0
            },
    )
}

/// The largest unique of each member of a recursive group.
pub open spec fn group_maxes(rbs: Seq<RecTm>) -> Seq<nat>
    decreases rbs,
{
    Seq::new(
        rbs.len(),
        |i: int|
            if 0 <= i < rbs.len() {
                max2(rbs[i].binder.name.unique as nat, max2(binders_max(rbs[i].params), largest(rbs[i].body)))
            } else {
                0
            },
    )
}

pub open spec fn largests(s: Seq<Tm>) -> Seq<nat>
    decreases s,
{
    Seq::new(
        s.len(),
        |i: int|
            if 0 <= i < s.len() {
                largest(s[i])
            } else {
                0
            },
    )
}

pub open spec fn max2(a: nat, b: nat) -> nat {
    if a >= b {
        a
    } else {
        b
    }
}

pub open spec fn binders_max(bs: Seq<Binder>) -> nat {
    seq_max(Seq::new(bs.len(), |i: int| bs[i].name.unique as nat))
}



/// The lowering pass: the next fresh unique to hand out.
struct Lower {
    next_unique: usize,
}

/// The UPLC name of a Core name.
fn name_of(n: &Name) -> (r: UName)
    ensures
        r.unique == n.unique as usize,
{
    UName { text: n.text.clone(), unique: n.unique as usize }
}

/// `func`, forced as its type requires, applied to `args`.
fn builtin(func: DefaultFunction, args: Vec<Term>) -> (r: Term)
    ensures
        r@ == ubuiltin(func, term_views(args@)),
{
    let mut t = Term::Builtin(func);
    let k = func.force_count();
    let mut i: usize = 0;
    while i < k
        invariant
            i <= k,
            k == func.spec_force_count(),
            t@ == forced(UTm::Builtin(func), i as nat),
        decreases k - i,
    {
        t = force(t);
        i += 1;
    }
    apply_all(t, args)
}

/// Adding the test of branch `j - 1` to the tests of branches `j..`.
proof fn lemma_seen_step(before: Seq<Test>, seen: Seq<Test>, bv: Seq<BranchTm>, j: int)
    requires
        0 < j <= bv.len(),
        seen.len() == before.len() + 1,
        forall|i: int| 0 <= i < before.len() ==> seen[i] == before[i],
        seen[before.len() as int]@ == bv[j - 1].test,
        !seen_has(before, bv[j - 1].test),
        forall|x: TestV|
            #![trigger seen_has(before, x)]
            #![trigger suffix_has(bv, j, x)]
            seen_has(before, x) <==> suffix_has(bv, j, x),
        forall|k1: int, k2: int| j <= k1 < k2 < bv.len() ==> bv[k1].test != bv[k2].test,
    ensures
        forall|x: TestV|
            #![trigger seen_has(seen, x)]
            #![trigger suffix_has(bv, j - 1, x)]
            seen_has(seen, x) <==> suffix_has(bv, j - 1, x),
        forall|k1: int, k2: int| j - 1 <= k1 < k2 < bv.len() ==> bv[k1].test != bv[k2].test,
{
    let k = j - 1;
    assert forall|x: TestV| #![trigger seen_has(seen, x)] #![trigger suffix_has(bv, k, x)]
        seen_has(seen, x) <==> suffix_has(bv, k, x) by {
        if seen_has(seen, x) {
            let i = choose|i: int| 0 <= i < seen.len() && (#[trigger] seen[i])@ == x;
            if i < before.len() {
                assert(before[i] == seen[i]);
                assert(seen_has(before, x));
                assert(suffix_has(bv, j, x));
                let k3 = choose|k3: int| j <= k3 < bv.len() && (#[trigger] bv[k3]).test == x;
                assert(k <= k3);
            } else {
                assert(bv[k].test == x);
            }
        }
        if suffix_has(bv, k, x) {
            let k2 = choose|k2: int| k <= k2 < bv.len() && (#[trigger] bv[k2]).test == x;
            if k2 == k {
                assert(seen[before.len() as int]@ == x);
            } else {
                assert(suffix_has(bv, j, x));
                assert(seen_has(before, x));
                let i = choose|i: int| 0 <= i < before.len() && (#[trigger] before[i])@ == x;
                assert(seen[i] == before[i]);
            }
        }
    }
    assert forall|k1: int, k2: int| k <= k1 < k2 < bv.len() implies bv[k1].test != bv[k2].test by {
        if k1 == k && bv[k1].test == bv[k2].test {
            let x = bv[k2].test;
            assert(suffix_has(bv, j, x));
            assert(seen_has(before, x));
        }
    }
}

/// Some test in `seen` is `x`.
pub open spec fn seen_has(seen: Seq<Test>, x: TestV) -> bool {
    exists|i: int| 0 <= i < seen.len() && (#[trigger] seen[i])@ == x
}

/// Some branch from position `j` on has test `x`.
pub open spec fn suffix_has(bs: Seq<BranchTm>, j: int, x: TestV) -> bool {
    exists|k: int| j <= k < bs.len() && (#[trigger] bs[k]).test == x
}

/// The literal a branch test of an integer or bytes case compares against.
fn literal_of(kind: CaseKind, test: &Test) -> (r: Option<Term>)
    ensures
        r is Some <==> ((kind == CaseKind::Int && test@ is Int) || (kind == CaseKind::Bytes && test@ is Bytes)),
        r matches Some(t) ==> t@ == literal(test@),
{
    match test {
        Test::Int(i) => if kind == CaseKind::Int {
            Some(Term::Constant(Constant::Integer(*i)))
        } else {
            None
        },
        Test::Bytes(b) => if kind == CaseKind::Bytes {
            Some(Term::Constant(Constant::ByteString(duplicate_bytes(b))))
        } else {
            None
        },
        _ => None,
    }
}

/// The builtin that unwraps the Data shape of position `index`.
fn data_unwrap_of(index: usize) -> (r: DefaultFunction)
    requires
        index < 5,
    ensures
        r == data_unwrap(index as int),
        accepted_shape(r) == Some(chosen_shape(index as int)),
{
    if index == 0 {
        DefaultFunction::UnConstrData
    } else if index == 1 {
        DefaultFunction::UnMapData
    } else if index == 2 {
        DefaultFunction::UnListData
    } else if index == 3 {
        DefaultFunction::UnIData
    } else {
        DefaultFunction::UnBData
    }
}

/// The comparison builtin of an integer or bytes case.
fn equality_of(kind: CaseKind) -> (r: DefaultFunction)
    ensures
        r == equality(kind),
{
    if kind == CaseKind::Int {
        DefaultFunction::EqualsInteger
    } else {
        DefaultFunction::EqualsByteString
    }
}

/// Whether two byte strings are equal.
fn bytes_equal(a: &Vec<u8>, b: &Vec<u8>) -> (r: bool)
    ensures
        r == (a@ == b@),
{
    if a.len() != b.len() {
        return false;
    }
    let mut i: usize = 0;
    while i < a.len()
        invariant
            i <= a@.len(),
            a@.len() == b@.len(),
            forall|k: int| 0 <= k < i ==> a@[k] == b@[k],
        decreases a@.len() - i,
    {
        if a[i] != b[i] {
            return false;
        }
        i += 1;
    }
    assert(a@ =~= b@);
    true
}

/// Whether two branch tests are the same test.
fn same_test(a: &Test, b: &Test) -> (r: bool)
    ensures
        r == (a@ == b@),
{
    match (a, b) {
        (Test::Tag(x), Test::Tag(y)) => *x == *y,
        (Test::True, Test::True) => true,
        (Test::False, Test::False) => true,
        (Test::Int(x), Test::Int(y)) => *x == *y,
        (Test::Bytes(x), Test::Bytes(y)) => bytes_equal(x, y),
        (Test::Nil, Test::Nil) => true,
        (Test::Cons, Test::Cons) => true,
        (Test::DataConstr, Test::DataConstr) => true,
        (Test::DataMap, Test::DataMap) => true,
        (Test::DataList, Test::DataList) => true,
        (Test::DataI, Test::DataI) => true,
        (Test::DataB, Test::DataB) => true,
        _ => false,
    }
}

/// Whether `seen` holds the test `t`.
fn contains_test(seen: &Vec<Test>, t: &Test) -> (r: bool)
    ensures
        r == seen_has(seen@, t@),
{
    let mut i: usize = 0;
    while i < seen.len()
        invariant
            i <= seen@.len(),
            forall|k: int| 0 <= k < i ==> (#[trigger] seen@[k])@ != t@,
        decreases seen@.len() - i,
    {
        if same_test(&seen[i], t) {
            return true;
        }
        i += 1;
    }
    false
}

/// `func` applied to one argument.
fn builtin1(func: DefaultFunction, arg: Term) -> (r: Term)
    ensures
        r@ == ubuiltin(func, seq![arg@]),
{
    let args = vec![arg];
    proof {
        assert(term_views(args@) =~= seq![arg@]);
    }
    builtin(func, args)
}

/// `func` applied to two arguments.
fn builtin2(func: DefaultFunction, a: Term, b: Term) -> (r: Term)
    ensures
        r@ == ubuiltin(func, seq![a@, b@]),
{
    let args = vec![a, b];
    proof {
        assert(term_views(args@) =~= seq![a@, b@]);
    }
    builtin(func, args)
}

/// `if c then y else n`, evaluating only the chosen branch.
fn lazy_if_term(c: Term, y: Term, n: Term) -> (r: Term)
    ensures
        r@ == lazy_if(c@, y@, n@),
{
    let args = vec![c, delay(y), delay(n)];
    proof {
        assert(term_views(args@) =~= seq![c@, UTm::Delay(Box::new(y@)), UTm::Delay(Box::new(n@))]);
    }
    force(builtin(DefaultFunction::IfThenElse, args))
}

/// `body` under lambdas binding the names of `params`.
fn lambda_over(params: &Vec<Binder>, body: Term) -> (r: Term)
    ensures
        r@ == lambdas(u_uniques(params@), body@),
{
    let mut names: Vec<UName> = Vec::new();
    let mut i: usize = 0;
    while i < params.len()
        invariant
            i <= params@.len(),
            names@.len() == i,
            forall|k: int| 0 <= k < i ==> #[trigger] names@[k].unique == params@[k].name.unique as usize,
        decreases params@.len() - i,
    {
        names.push(name_of(&params[i].name));
        i += 1;
    }
    proof {
        assert(unique_views(names@) =~= u_uniques(params@));
    }
    wrap_lambdas(names, body)
}

impl Lower {
    /// The next fresh name.
    fn fresh(&mut self) -> (res: Result<UName, Error>)
        ensures
            res is Ok <==> old(self).next_unique < usize::MAX,
            res matches Err(e) ==> e is NameOverflow,
            res matches Ok(n) ==> n.unique == old(self).next_unique && final(self).next_unique
                == old(self).next_unique + 1,
    {
        let unique = self.next_unique;
        match unique.checked_add(1) {
            Some(next) => {
                self.next_unique = next;
                Ok(UName { text: "generated".to_string(), unique })
            },
            None => Err(Error::NameOverflow),
        }
    }

    /// Lower each of `items` in order.
    fn terms(&mut self, items: &Vec<Core>) -> (res: Result<Vec<Term>, Error>)
        ensures
            res is Ok <==> (all_lowerable(views(items@)) && old(self).next_unique + sum(costs(views(items@)))
                <= usize::MAX),
            res matches Ok(v) ==> term_views(v@) == lower_seq(views(items@), old(self).next_unique as nat),
            res matches Err(e) ==> e is NameOverflow || any_faults(views(items@), e),
            res matches Err(e) && e is NameOverflow ==> old(self).next_unique + sum(costs(views(items@))) > usize::MAX,
            res is Ok ==> final(self).next_unique == old(self).next_unique + sum(costs(views(items@))),
        decreases items, 3nat,
    {
        let ghost s = views(items@);
        let ghost c = costs(s);
        let ghost start = self.next_unique as nat;
        let mut out: Vec<Term> = Vec::new();
        let mut i: usize = 0;
        while i < items.len()
            invariant
                i <= items@.len(),
                s == views(items@),
                c == costs(s),
                c.len() == s.len(),
                start == old(self).next_unique,
                self.next_unique == start + sum(c.take(i as int)),
                out@.len() == i,
                forall|k: int| 0 <= k < i ==> lowerable(#[trigger] s[k]),
                forall|k: int| 0 <= k < i ==> (#[trigger] out@[k])@ == lower_tm(s[k], start + sum(c.take(k))),
            decreases items@.len() - i,
        {
            proof {
                assert(decreases_to!(*items => items[i as int]));
                lemma_sum_take(c, i as int);
                assert(s[i as int] == items@[i as int]@);
            }
            match self.term(&items[i]) {
                Ok(t) => {
                    out.push(t);
                },
                Err(e) => {
                    proof {
                        assert(c[i as int] == fresh_count(s[i as int]));
                        let ni = start + sum(c.take(i as int));
                        assert(!lowers(s[i as int], ni));
                        if lowerable(s[i as int]) {
                            assert(ni + c[i as int] > usize::MAX);
                        } else {
                            assert(!all_lowerable(s));
                        }
                    }
                    return Err(e);
                },
            }
            i += 1;
        }
        proof {
            assert(c.take(i as int) =~= c);
            assert forall|k: int| 0 <= k < s.len() implies #[trigger] term_views(out@)[k] == lower_seq(s, start)[k] by {
                assert(term_views(out@)[k] == out@[k]@);
                assert(out@[k]@ == lower_tm(s[k], start + sum(c.take(k))));
                assert(lower_seq(s, start)[k] == lower_tm(s[k], start + sum(costs(s).take(k)))) by {
                    reveal(lower_tm);
                }
            }
            assert(term_views(out@) =~= lower_seq(s, start));
        }
        Ok(out)
    }

    /// Lower `core`.
    fn term(&mut self, core: &Core) -> (res: Result<Term, Error>)
        ensures
            res is Ok <==> lowers(core@, old(self).next_unique as nat),
            res matches Ok(u) ==> u@ == lower_tm(core@, old(self).next_unique as nat),
            res matches Err(e) ==> e is NameOverflow || faults(core@, e),
            res matches Err(e) && e is NameOverflow ==> old(self).next_unique + fresh_count(core@) > usize::MAX,
            res is Ok ==> final(self).next_unique == old(self).next_unique + fresh_count(core@),
        decreases core, 3nat,
    {
        proof {
            lemma_views(*core);
        }
        let ghost start = self.next_unique as nat;
        match core {
            Core::Var(n) => {
                let r = var(name_of(n));
                proof {
                    assert(r@ == lower_tm(core@, start)) by {
                        reveal(lower_tm);
                    }
                }
                Ok(r)
            },
            Core::Lit(c) => {
                let r = Term::Constant(c.duplicate());
                proof {
                    assert(r@ == lower_tm(core@, start)) by {
                        reveal(lower_tm);
                    }
                }
                Ok(r)
            },
            Core::Lam { params, body } => {
                match self.term(body) {
                    Ok(b) => {
                        let r = lambda_over(params, b);
                        proof {
                            assert(r@ == lower_tm(core@, start)) by {
                                reveal(lower_tm);
                            }
                        }
                        Ok(r)
                    },
                    Err(e) => Err(e),
                }
            },
            Core::App { .. } => self.app(core),
            Core::Let { .. } => self.let_in(core),
            Core::Builtin { .. } => self.builtin_call(core),
            Core::Case { .. } => self.case(core),
            Core::Constr { .. } => self.constr(core),
            Core::Field { .. } => self.field(core),
            Core::Trace { .. } => self.trace(core),
            Core::Error => {
                proof {
                    assert(Term::Error@ == lower_tm(core@, start)) by {
                        reveal(lower_tm);
                    }
                }
                Ok(Term::Error)
            },
            Core::Delay(t) => match self.term(t) {
                Ok(t) => {
                    let r = delay(t);
                    proof {
                        assert(r@ == lower_tm(core@, start)) by {
                            reveal(lower_tm);
                        }
                    }
                    Ok(r)
                },
                Err(e) => Err(e),
            },
            Core::Force(t) => match self.term(t) {
                Ok(t) => {
                    let r = force(t);
                    proof {
                        assert(r@ == lower_tm(core@, start)) by {
                            reveal(lower_tm);
                        }
                    }
                    Ok(r)
                },
                Err(e) => Err(e),
            },
            Core::LetRec { .. } => Err(Error::Unlowered("recursion")),
            Core::Cast { .. } => Err(Error::Unlowered("cast")),
        }
    }


    /// Lowering of an application: the function, then each argument.
    fn app(&mut self, core: &Core) -> (res: Result<Term, Error>)
        requires
            core is App,
        ensures
            res is Ok <==> lowers(core@, old(self).next_unique as nat),
            res matches Ok(u) ==> u@ == lower_tm(core@, old(self).next_unique as nat),
            res matches Err(e) ==> e is NameOverflow || faults(core@, e),
            res matches Err(e) && e is NameOverflow ==> old(self).next_unique + fresh_count(core@) > usize::MAX,
            res is Ok ==> final(self).next_unique == old(self).next_unique + fresh_count(core@),
        decreases core, 1nat,
    {
        proof {
            lemma_views(*core);
        }
        let ghost start = self.next_unique as nat;
        match core {
            Core::App { func, args } => {
                proof {
                    assert(decreases_to!(*core => (*core)->App_args));
                }
                let f = match self.term(func) {
                    Ok(f) => f,
                    Err(e) => {
                        return Err(e);
                    },
                };
                match self.terms(args) {
                    Ok(a) => {
                        let r = apply_all(f, a);
                        proof {
                            assert(r@ == lower_tm(core@, start)) by {
                                reveal(lower_tm);
                            }
                        }
                        Ok(r)
                    },
                    Err(e) => Err(e),
                }
            },
            _ => Err(Error::BuiltinArity),
        }
    }

    /// Lowering of a let: `(\x. body) value`, the body first.
    fn let_in(&mut self, core: &Core) -> (res: Result<Term, Error>)
        requires
            core is Let,
        ensures
            res is Ok <==> lowers(core@, old(self).next_unique as nat),
            res matches Ok(u) ==> u@ == lower_tm(core@, old(self).next_unique as nat),
            res matches Err(e) ==> e is NameOverflow || faults(core@, e),
            res matches Err(e) && e is NameOverflow ==> old(self).next_unique + fresh_count(core@) > usize::MAX,
            res is Ok ==> final(self).next_unique == old(self).next_unique + fresh_count(core@),
        decreases core, 1nat,
    {
        let ghost start = self.next_unique as nat;
        match core {
            Core::Let { binder, value, body } => {
                let b = match self.term(body) {
                    Ok(b) => b,
                    Err(e) => {
                        return Err(e);
                    },
                };
                match self.term(value) {
                    Ok(v) => {
                        let r = apply(lambda(name_of(&binder.name), b), v);
                        proof {
                            assert(r@ == lower_tm(core@, start)) by {
                                reveal(lower_tm);
                            }
                        }
                        Ok(r)
                    },
                    Err(e) => Err(e),
                }
            },
            _ => Err(Error::BuiltinArity),
        }
    }

    /// Lowering of a builtin call, which may not be over-applied.
    fn builtin_call(&mut self, core: &Core) -> (res: Result<Term, Error>)
        requires
            core is Builtin,
        ensures
            res is Ok <==> lowers(core@, old(self).next_unique as nat),
            res matches Ok(u) ==> u@ == lower_tm(core@, old(self).next_unique as nat),
            res matches Err(e) ==> e is NameOverflow || faults(core@, e),
            res matches Err(e) && e is NameOverflow ==> old(self).next_unique + fresh_count(core@) > usize::MAX,
            res is Ok ==> final(self).next_unique == old(self).next_unique + fresh_count(core@),
        decreases core, 1nat,
    {
        proof {
            lemma_views(*core);
        }
        let ghost start = self.next_unique as nat;
        match core {
            Core::Builtin { function, args } => {
                proof {
                    assert(decreases_to!(*core => (*core)->Builtin_args));
                }
                if args.len() > function.arity() {
                    return Err(Error::BuiltinArity);
                }
                match self.terms(args) {
                    Ok(a) => {
                        let r = builtin(*function, a);
                        proof {
                            assert(r@ == lower_tm(core@, start)) by {
                                reveal(lower_tm);
                            }
                        }
                        Ok(r)
                    },
                    Err(e) => Err(e),
                }
            },
            _ => Err(Error::BuiltinArity),
        }
    }

    /// Lowering of a constructor application.
    fn constr(&mut self, core: &Core) -> (res: Result<Term, Error>)
        requires
            core is Constr,
        ensures
            res is Ok <==> lowers(core@, old(self).next_unique as nat),
            res matches Ok(u) ==> u@ == lower_tm(core@, old(self).next_unique as nat),
            res matches Err(e) ==> e is NameOverflow || faults(core@, e),
            res matches Err(e) && e is NameOverflow ==> old(self).next_unique + fresh_count(core@) > usize::MAX,
            res is Ok ==> final(self).next_unique == old(self).next_unique + fresh_count(core@),
        decreases core, 1nat,
    {
        proof {
            lemma_views(*core);
        }
        let ghost start = self.next_unique as nat;
        match core {
            Core::Constr { tag, fields } => {
                proof {
                    assert(decreases_to!(*core => (*core)->Constr_fields));
                }
                match self.terms(fields) {
                    Ok(f) => {
                        let t = Term::Constr(*tag as usize, f);
                        proof {
                            lemma_term_views(t);
                            assert(t@ == lower_tm(core@, start)) by {
                                reveal(lower_tm);
                            }
                        }
                        Ok(t)
                    },
                    Err(e) => Err(e),
                }
            },
            _ => Err(Error::BuiltinArity),
        }
    }

    /// Lowering of a trace: the message, then the delayed body.
    fn trace(&mut self, core: &Core) -> (res: Result<Term, Error>)
        requires
            core is Trace,
        ensures
            res is Ok <==> lowers(core@, old(self).next_unique as nat),
            res matches Ok(u) ==> u@ == lower_tm(core@, old(self).next_unique as nat),
            res matches Err(e) ==> e is NameOverflow || faults(core@, e),
            res matches Err(e) && e is NameOverflow ==> old(self).next_unique + fresh_count(core@) > usize::MAX,
            res is Ok ==> final(self).next_unique == old(self).next_unique + fresh_count(core@),
        decreases core, 1nat,
    {
        let ghost start = self.next_unique as nat;
        match core {
            Core::Trace { message, body } => {
                let m = match self.term(message) {
                    Ok(m) => m,
                    Err(e) => {
                        return Err(e);
                    },
                };
                match self.term(body) {
                    Ok(b) => {
                        let args = vec![m, delay(b)];
                        proof {
                            assert(term_views(args@) =~= seq![m@, UTm::Delay(Box::new(b@))]);
                        }
                        let r = force(builtin(DefaultFunction::Trace, args));
                        proof {
                            assert(r@ == lower_tm(core@, start)) by {
                                reveal(lower_tm);
                            }
                        }
                        Ok(r)
                    },
                    Err(e) => Err(e),
                }
            },
            _ => Err(Error::BuiltinArity),
        }
    }

    /// Lowering of a field projection: a case with one arm that selects the field.
    fn field(&mut self, core: &Core) -> (res: Result<Term, Error>)
        requires
            core is Field,
        ensures
            res is Ok <==> lowers(core@, old(self).next_unique as nat),
            res matches Ok(u) ==> u@ == lower_tm(core@, old(self).next_unique as nat),
            res matches Err(e) ==> e is NameOverflow || faults(core@, e),
            res matches Err(e) && e is NameOverflow ==> old(self).next_unique + fresh_count(core@) > usize::MAX,
            res is Ok ==> final(self).next_unique == old(self).next_unique + fresh_count(core@),
        decreases core, 1nat,
    {
        let ghost start = self.next_unique as nat;
        match core {
            Core::Field { record, index, arity } => {
                if *index >= *arity {
                    return Err(Error::InvalidField { index: *index, arity: *arity });
                }
                let mut params: Vec<UName> = Vec::new();
                let mut k: u16 = 0;
                while k < *arity
                    invariant
                        k <= *arity,
                        start == old(self).next_unique,
                        *arity as nat <= fresh_count(core@),
                        self.next_unique == start + k,
                        params@.len() == k,
                        forall|j: int| 0 <= j < k ==> #[trigger] params@[j].unique == (start + j) as usize,
                    decreases *arity - k,
                {
                    match self.fresh() {
                        Ok(n) => {
                            params.push(n);
                        },
                        Err(e) => {
                            proof {
                                assert(start + k == usize::MAX);
                            }
                            return Err(e);
                        },
                    }
                    k += 1;
                }
                let i = *index as usize;
                let selector = var(UName { text: params[i].text.clone(), unique: params[i].unique });
                proof {
                    assert(unique_views(params@) =~= unique_range(start, *arity as nat));
                }
                let selector = wrap_lambdas(params, selector);
                match self.term(record) {
                    Ok(r) => {
                        let arms = vec![selector];
                        let t = Term::Case(Box::new(r), arms);
                        proof {
                            lemma_term_views(t);
                            assert(term_views(arms@) =~= seq![selector@]);
                            assert(t@ == lower_tm(core@, start)) by {
                                reveal(lower_tm);
                            }
                        }
                        Ok(t)
                    },
                    Err(e) => Err(e),
                }
            },
            _ => Err(Error::BuiltinArity),
        }
    }

    /// Lowering of a case, by its kind.
    fn case(&mut self, core: &Core) -> (res: Result<Term, Error>)
        requires
            core is Case,
        ensures
            res is Ok <==> lowers(core@, old(self).next_unique as nat),
            res matches Ok(u) ==> u@ == lower_tm(core@, old(self).next_unique as nat),
            res matches Err(e) ==> e is NameOverflow || faults(core@, e),
            res matches Err(e) && e is NameOverflow ==> old(self).next_unique + fresh_count(core@) > usize::MAX,
            res is Ok ==> final(self).next_unique == old(self).next_unique + fresh_count(core@),
        decreases core, 2nat,
    {
        match core {
            Core::Case { kind, .. } => {
                if *kind == CaseKind::Tag {
                    self.case_tag(core)
                } else {
                    self.case_value(core)
                }
            },
            _ => Err(Error::BuiltinArity),
        }
    }

    /// A constructor case: one arm per tag, in tag order.
    fn case_tag(&mut self, core: &Core) -> (res: Result<Term, Error>)
        requires
            core matches Core::Case { kind, .. } && kind == CaseKind::Tag,
        ensures
            res is Ok <==> lowers(core@, old(self).next_unique as nat),
            res matches Ok(u) ==> u@ == lower_tm(core@, old(self).next_unique as nat),
            res matches Err(e) ==> e is NameOverflow || faults(core@, e),
            res matches Err(e) && e is NameOverflow ==> old(self).next_unique + fresh_count(core@) > usize::MAX,
            res is Ok ==> final(self).next_unique == old(self).next_unique + fresh_count(core@),
        decreases core, 1nat,
    {
        proof {
            lemma_views(*core);
        }
        let ghost start = self.next_unique as nat;
        match core {
            Core::Case { kind, scrutinee, branches, default } => {
                let ghost bv = branch_views(branches@);
                let ghost d = match default {
                    Some(x) => Some(Box::new(x@)),
                    None => None,
                };
                let ghost t = core@;
                proof {
                    assert(t == Tm::Case(*kind, Box::new(scrutinee@), bv, d));
                }
                if default.is_some() {
                    return Err(Error::InvalidCase("tag defaults must be expanded using constructor arities"));
                }
                let n = branches.len();
                let slot = match tag_slots(branches) {
                    Ok(slot) => slot,
                    Err(e) => {
                        proof {
                            assert(bv.len() == branches@.len());
                            if forall|j: int| 0 <= j < bv.len() ==> #[trigger] branch_fits(CaseKind::Tag, bv[j], bv.len()) {
                                assert(!distinct_tests(bv));
                            }
                        }
                        return Err(e);
                    },
                };
                let ghost order = tag_order(bv);
                let ghost c = branch_costs(bv);
                let arms = match self.tag_arms(core, branches, &slot) {
                    Ok(arms) => arms,
                    Err(e) => {
                        proof {
                            assert(fresh_count(t) == fresh_count(scrutinee@) + sum_in_order(c, order, n as int));
                        }
                        return Err(e);
                    },
                };
                proof {
                    assert(fresh_count(t) == fresh_count(scrutinee@) + sum_in_order(c, order, n as int));
                }
                match self.term(scrutinee) {
                    Ok(s) => {
                        let r = Term::Case(Box::new(s), arms);
                        proof {
                            lemma_term_views(r);
                            assert forall|k: int| 0 <= k < n implies #[trigger] term_views(arms@)[k] == tag_arms_spec(bv, start)[k] by {
                                assert(slot@[k] < n);
                                assert(term_views(arms@)[k] == arms@[k]@);
                            }
                            assert(term_views(arms@) =~= tag_arms_spec(bv, start));
                            lemma_lower_tag(t, start);
                        }
                        Ok(r)
                    },
                    Err(e) => Err(e),
                }
            },
            _ => Err(Error::BuiltinArity),
        }
    }

    /// The arms of a constructor case, in tag order.
    fn tag_arms(&mut self, core: &Core, branches: &Vec<Branch>, slot: &Vec<usize>) -> (res: Result<Vec<Term>, Error>)
        requires
            core is Case,
            core->Case_branches == *branches,
            forall|j: int|
                0 <= j < branches@.len() ==> #[trigger] branch_fits(
                    CaseKind::Tag,
                    branch_views(branches@)[j],
                    branches@.len() as nat,
                ),
            distinct_tests(branch_views(branches@)),
            slot@.len() == branches@.len(),
            forall|x: int|
                #![trigger slot@[x]]
                0 <= x < branches@.len() ==> slot@[x] < branches@.len() && tag_order(branch_views(branches@))[x]
                    == slot@[x] as int,
        ensures
            res is Ok <==> bodies_lowerable(branch_views(branches@)) && old(self).next_unique + sum_in_order(
                branch_costs(branch_views(branches@)),
                tag_order(branch_views(branches@)),
                branches@.len() as int,
            ) <= usize::MAX,
            res is Ok ==> final(self).next_unique == old(self).next_unique + sum_in_order(
                branch_costs(branch_views(branches@)),
                tag_order(branch_views(branches@)),
                branches@.len() as int,
            ),
            res matches Err(e) ==> e is NameOverflow || body_faults(branch_views(branches@), e),
            res matches Err(e) && e is NameOverflow ==> old(self).next_unique + sum_in_order(
                branch_costs(branch_views(branches@)),
                tag_order(branch_views(branches@)),
                branches@.len() as int,
            ) > usize::MAX,
            res matches Ok(arms) ==> arms@.len() == branches@.len() && forall|k: int|
                0 <= k < branches@.len() ==> (#[trigger] arms@[k])@ == lambdas(
                    u_uniques(branch_views(branches@)[tag_order(branch_views(branches@))[k]].binders),
                    lower_tm(
                        branch_views(branches@)[tag_order(branch_views(branches@))[k]].body,
                        old(self).next_unique as nat + sum_in_order(
                            branch_costs(branch_views(branches@)),
                            tag_order(branch_views(branches@)),
                            k,
                        ),
                    ),
                ),
        decreases core, 0nat,
    {
        let ghost bv = branch_views(branches@);
        let ghost order = tag_order(bv);
        let ghost c = branch_costs(bv);
        let ghost start = self.next_unique as nat;
        let n = branches.len();
        let mut arms: Vec<Term> = Vec::new();
        let mut i: usize = 0;
        while i < n
            invariant
                n == bv.len(),
                n == branches@.len(),
                bv == branch_views(branches@),
                core is Case,
                (*core)->Case_branches == *branches,
                forall|j: int| 0 <= j < bv.len() ==> #[trigger] branch_fits(CaseKind::Tag, bv[j], bv.len()),
                distinct_tests(bv),
                order == tag_order(bv),
                c == branch_costs(bv),
                start == old(self).next_unique,
                i <= n,
                slot@.len() == n,
                forall|x: int| #![trigger slot@[x]] 0 <= x < n ==> slot@[x] < n && order[x] == slot@[x] as int,
                self.next_unique == start + sum_in_order(c, order, i as int),
                arms@.len() == i,
                forall|k: int| 0 <= k < i ==> lowerable(#[trigger] bv[order[k]].body),
                forall|k: int|
                    0 <= k < i ==> (#[trigger] arms@[k])@ == lambdas(
                        u_uniques(bv[order[k]].binders),
                        lower_tm(bv[order[k]].body, start + sum_in_order(c, order, k)),
                    ),
            decreases n - i,
        {
            let jj = slot[i];
            let b = &branches[jj];
            proof {
                assert(decreases_to!(*core => (*core)->Case_branches));
                assert(decreases_to!(*branches => branches@));
                assert(decreases_to!(branches@ => branches@[jj as int]));
                assert(decreases_to!(branches@[jj as int] => branches@[jj as int].body));
                assert(bv[jj as int] == branches@[jj as int]@);
                assert(c[jj as int] == fresh_count(bv[jj as int].body));
            }
            match self.term(&b.body) {
                Ok(body) => {
                    arms.push(lambda_over(&b.binders, body));
                },
                Err(e) => {
                    proof {
                        lemma_sum_in_order_mono(c, order, i + 1, n as int);
                        if !lowerable(bv[jj as int].body) {
                            assert(!bodies_lowerable(bv));
                        }
                    }
                    return Err(e);
                },
            }
            i += 1;
        }
        proof {
            assert forall|k: int| 0 <= k < bv.len() implies lowerable(#[trigger] bv[k].body) by {
                assert(branch_fits(CaseKind::Tag, bv[k], bv.len()));
                let y = bv[k].test->Tag_0;
                assert(bv[k].test == TestV::Tag((y as int) as u16));
                let w = tag_branch(bv, y as int);
                assert(0 <= w < bv.len() && bv[w].test == TestV::Tag((y as int) as u16));
                if w != k {
                    assert(!distinct_tests(bv));
                }
                assert(order[y as int] == k);
                assert(slot@[y as int] < n);
            }
        }
        Ok(arms)
    }

    /// A case on a value: bind the value to a fresh name, then test it.
    fn case_value(&mut self, core: &Core) -> (res: Result<Term, Error>)
        requires
            core matches Core::Case { kind, .. } && kind != CaseKind::Tag,
        ensures
            res is Ok <==> lowers(core@, old(self).next_unique as nat),
            res matches Ok(u) ==> u@ == lower_tm(core@, old(self).next_unique as nat),
            res matches Err(e) ==> e is NameOverflow || faults(core@, e),
            res matches Err(e) && e is NameOverflow ==> old(self).next_unique + fresh_count(core@) > usize::MAX,
            res is Ok ==> final(self).next_unique == old(self).next_unique + fresh_count(core@),
        decreases core, 1nat,
    {
        proof {
            lemma_views(*core);
        }
        let ghost start = self.next_unique as nat;
        match core {
            Core::Case { kind, scrutinee, branches, default } => {
                let ghost bv = branch_views(branches@);
                let ghost d = match default {
                    Some(x) => Some(Box::new(x@)),
                    None => None,
                };
                let ghost t = core@;
                let ghost dc: nat = match d {
                    Some(x) => fresh_count(*x),
                    None => 0,
                };
                let ghost c = case_costs(*kind, bv);
                proof {
                    assert(t == Tm::Case(*kind, Box::new(scrutinee@), bv, d));
                    assert(fresh_count(t) == fresh_count(scrutinee@) + 1 + dc + sum(c));
                }
                let name = match self.fresh() {
                    Ok(n) => n,
                    Err(e) => {
                        return Err(e);
                    },
                };
                let fallback = match default {
                    Some(x) => match self.term(x) {
                        Ok(f) => f,
                        Err(e) => {
                            return Err(e);
                        },
                    },
                    None => Term::Error,
                };
                let ghost base = self.next_unique as nat;
                proof {
                    assert(base == start + 1 + dc);
                }
                let result = match kind {
                    CaseKind::Bool => self.case_bool(core, branches, &name, fallback),
                    CaseKind::Int => self.case_literal(core, *kind, branches, &name, fallback),
                    CaseKind::Bytes => self.case_literal(core, *kind, branches, &name, fallback),
                    CaseKind::List => self.case_list(core, branches, &name, fallback),
                    CaseKind::Data => self.case_data(core, branches, &name, fallback),
                    CaseKind::Tag => Err(Error::BuiltinArity),
                };
                let result = match result {
                    Ok(r) => r,
                    Err(e) => {
                        return Err(e);
                    },
                };
                match self.term(scrutinee) {
                    Ok(sc) => {
                        let ghost gr = result@;
                        let ghost gs = sc@;
                        let r = apply(lambda(name, result), sc);
                        proof {
                            lemma_lower_value(t, start);
                        }
                        Ok(r)
                    },
                    Err(e) => Err(e),
                }
            },
            _ => Err(Error::BuiltinArity),
        }
    }

    /// The branches of a boolean case.
    #[verifier::rlimit(50)]
    fn case_bool(&mut self, core: &Core, branches: &Vec<Branch>, name: &UName, fallback: Term) -> (res: Result<Term, Error>)
        requires
            core is Case,
            core->Case_branches == *branches,
        ensures
            res is Ok <==> arms_ok(CaseKind::Bool, branch_views(branches@), old(self).next_unique as nat),
            res matches Err(e) ==> e is NameOverflow || body_faults(branch_views(branches@), e) || (e is InvalidCase
                && !case_ok(CaseKind::Bool, branch_views(branches@), None)),
            res matches Err(e) && e is NameOverflow ==> old(self).next_unique + sum(case_costs(CaseKind::Bool, branch_views(branches@)))
                > usize::MAX,
            res is Ok ==> final(self).next_unique == old(self).next_unique + sum(case_costs(CaseKind::Bool, branch_views(branches@))),
            res matches Ok(r) ==> r@ == case_result(
                CaseKind::Bool,
                branch_views(branches@),
                UTm::Var(name.unique),
                case_bodies(CaseKind::Bool, branch_views(branches@), old(self).next_unique as nat),
                fallback@,
                old(self).next_unique as nat,
            ),
        decreases core, 0nat,
    {
        let ghost bv = branch_views(branches@);
        let ghost kind = CaseKind::Bool;
        let ghost c = case_costs(kind, bv);
        let ghost base = self.next_unique as nat;
        let ghost bodies = case_bodies(kind, bv, base);
        let n = branches.len();
        let mut lowered: Vec<Term> = Vec::new();
        let mut yes: Option<usize> = None;
        let mut no: Option<usize> = None;
        let mut j: usize = 0;
        while j < n
            invariant
                n == bv.len(),
                n == branches@.len(),
                bv == branch_views(branches@),
                kind == CaseKind::Bool,
                c == case_costs(kind, bv),
                c.len() == n,
                bodies == case_bodies(kind, bv, base),
                core is Case,
                (*core)->Case_branches == *branches,
                base == old(self).next_unique,
                j <= n,
                self.next_unique == base + sum(c.take(j as int)),
                lowered@.len() == j,
                forall|k: int| 0 <= k < j ==> (#[trigger] lowered@[k])@ == bodies[k],
                forall|k: int| 0 <= k < j ==> #[trigger] branch_fits(kind, bv[k], n as nat),
                forall|k: int| 0 <= k < j ==> lowerable(#[trigger] bv[k].body),
                forall|k1: int, k2: int| 0 <= k1 < k2 < j ==> bv[k1].test != bv[k2].test,
                yes matches Some(p) ==> p < j && bv[p as int].test == TestV::True,
                yes is None ==> forall|k: int| 0 <= k < j ==> bv[k].test != TestV::True,
                no matches Some(p) ==> p < j && bv[p as int].test == TestV::False,
                no is None ==> forall|k: int| 0 <= k < j ==> bv[k].test != TestV::False,
            decreases n - j,
        {
            let b = &branches[j];
            proof {
                assert(bv[j as int] == branches@[j as int]@);
                assert(decreases_to!(*core => (*core)->Case_branches));
                assert(decreases_to!(*branches => branches@));
                assert(decreases_to!(branches@ => branches@[j as int]));
                assert(decreases_to!(branches@[j as int] => branches@[j as int].body));
            }
            if b.binders.len() != 0 {
                proof {
                    assert(!branch_fits(kind, bv[j as int], n as nat));
                }
                return Err(Error::InvalidCase("boolean branches bind no fields"));
            }
            let is_true = match b.test {
                Test::True => true,
                Test::False => false,
                _ => {
                    proof {
                        assert(!branch_fits(kind, bv[j as int], n as nat));
                    }
                    return Err(Error::InvalidCase("non-boolean test"));
                },
            };
            if (is_true && yes.is_some()) || (!is_true && no.is_some()) {
                proof {
                    let k = if is_true { yes->0 as int } else { no->0 as int };
                    assert(bv[k].test == bv[j as int].test);
                    assert(!distinct_tests(bv));
                }
                return Err(Error::InvalidCase("duplicate boolean branch"));
            }
            proof {
                lemma_sum_take(c, j as int);
                assert(c[j as int] == fresh_count(bv[j as int].body));
            }
            match self.term(&b.body) {
                Ok(body) => {
                    proof {
                        lemma_case_body(kind, bv, base, j as int);
                    }
                    lowered.push(body);
                    if is_true {
                        yes = Some(j);
                    } else {
                        no = Some(j);
                    }
                },
                Err(e) => {
                    proof {
                        if !lowerable(bv[j as int].body) {
                            assert(!bodies_lowerable(bv));
                        }
                    }
                    return Err(e);
                },
            }
            j += 1;
        }
        proof {
            assert(c.take(n as int) =~= c);
        }
        let y = match yes {
            Some(p) => lowered[p].duplicate(),
            None => fallback.duplicate(),
        };
        let o = match no {
            Some(p) => lowered[p].duplicate(),
            None => fallback,
        };
        let r = lazy_if_term(var(name.duplicate()), y, o);
        proof {
            lemma_arm_or(bv, bodies, TestV::True, fallback@, y@);
            lemma_arm_or(bv, bodies, TestV::False, fallback@, o@);
        }
        Ok(r)
    }

    /// The branches of an integer or bytes case: a chain of comparisons,
    /// built from the last branch to the first.
    #[verifier::rlimit(80)]
    fn case_literal(&mut self, core: &Core, kind: CaseKind, branches: &Vec<Branch>, name: &UName, fallback: Term) -> (res: Result<Term, Error>)
        requires
            core is Case,
            core->Case_branches == *branches,
            kind == CaseKind::Int || kind == CaseKind::Bytes,
        ensures
            res is Ok <==> arms_ok(kind, branch_views(branches@), old(self).next_unique as nat),
            res matches Err(e) ==> e is NameOverflow || body_faults(branch_views(branches@), e) || (e is InvalidCase
                && !case_ok(kind, branch_views(branches@), None)),
            res matches Err(e) && e is NameOverflow ==> old(self).next_unique + sum(case_costs(kind, branch_views(branches@)))
                > usize::MAX,
            res is Ok ==> final(self).next_unique == old(self).next_unique + sum(case_costs(kind, branch_views(branches@))),
            res matches Ok(r) ==> r@ == case_result(
                kind,
                branch_views(branches@),
                UTm::Var(name.unique),
                case_bodies(kind, branch_views(branches@), old(self).next_unique as nat),
                fallback@,
                old(self).next_unique as nat,
            ),
        decreases core, 0nat,
    {
        let ghost bv = branch_views(branches@);
        let ghost c = case_costs(kind, bv);
        let ghost base = self.next_unique as nat;
        let ghost bodies = case_bodies(kind, bv, base);
        let ghost value = UTm::Var(name.unique);
        let ghost conds = literal_conds(kind, bv, value);
        let n = branches.len();
        let mut rest = fallback;
        let mut seen: Vec<Test> = Vec::new();
        let mut j: usize = n;
        proof {
            assert(c.skip(n as int) =~= Seq::<nat>::empty());
        }
        while j > 0
            invariant
                n == bv.len(),
                n == branches@.len(),
                bv == branch_views(branches@),
                kind == CaseKind::Int || kind == CaseKind::Bytes,
                c == case_costs(kind, bv),
                c.len() == n,
                bodies == case_bodies(kind, bv, base),
                value == UTm::Var(name.unique),
                conds == literal_conds(kind, bv, value),
                core is Case,
                (*core)->Case_branches == *branches,
                base == old(self).next_unique,
                j <= n,
                self.next_unique == base + sum(c.skip(j as int)),
                rest@ == literal_chain(conds, bodies, fallback@, j as int),
                forall|k: int| j <= k < n ==> #[trigger] branch_fits(kind, bv[k], n as nat),
                forall|k: int| j <= k < n ==> lowerable(#[trigger] bv[k].body),
                forall|k1: int, k2: int| j <= k1 < k2 < n ==> bv[k1].test != bv[k2].test,
                forall|x: TestV|
                    #![trigger seen_has(seen@, x)]
                    #![trigger suffix_has(bv, j as int, x)]
                    seen_has(seen@, x) <==> suffix_has(bv, j as int, x),
            decreases j,
        {
            let k = j - 1;
            let b = &branches[k];
            proof {
                assert(bv[k as int] == branches@[k as int]@);
                assert(decreases_to!(*core => (*core)->Case_branches));
                assert(decreases_to!(*branches => branches@));
                assert(decreases_to!(branches@ => branches@[k as int]));
                assert(decreases_to!(branches@[k as int] => branches@[k as int].body));
            }
            if b.binders.len() != 0 || contains_test(&seen, &b.test) {
                proof {
                    if b.binders.len() != 0 {
                        assert(!branch_fits(kind, bv[k as int], n as nat));
                    } else {
                        let x = bv[k as int].test;
                        assert(seen_has(seen@, x));
                        assert(suffix_has(bv, j as int, x));
                        let k2 = choose|k2: int| j <= k2 < bv.len() && (#[trigger] bv[k2]).test == x;
                        assert(!distinct_tests(bv));
                    }
                }
                return Err(Error::InvalidCase("invalid literal branch"));
            }
            let ghost before = seen@;
            seen.push(b.test.duplicate());
            let lit = match literal_of(kind, &b.test) {
                Some(lit) => lit,
                None => {
                    proof {
                        assert(!branch_fits(kind, bv[k as int], n as nat));
                    }
                    return Err(Error::InvalidCase("literal test has wrong kind"));
                },
            };
            let condition = builtin2(equality_of(kind), var(name.duplicate()), lit);
            proof {
                lemma_sum_skip(c, k as int);
                lemma_sum_skip_le(c, k as int);
                assert(c[k as int] == fresh_count(bv[k as int].body));
            }
            match self.term(&b.body) {
                Ok(body) => {
                    proof {
                        lemma_case_body(kind, bv, base, k as int);
                        assert(condition@ == conds[k as int]);
                    }
                    rest = lazy_if_term(condition, body, rest);
                },
                Err(e) => {
                    proof {
                        if !lowerable(bv[k as int].body) {
                            assert(!bodies_lowerable(bv));
                        }
                    }
                    return Err(e);
                },
            }
            proof {
                lemma_seen_step(before, seen@, bv, j as int);
            }
            j = k;
        }
        proof {
            assert(c.skip(0) =~= c);
        }
        Ok(rest)
    }

    /// The branches of a list case: at most one `Nil` and one `Cons`.
    fn case_list(&mut self, core: &Core, branches: &Vec<Branch>, name: &UName, fallback: Term) -> (res: Result<Term, Error>)
        requires
            core is Case,
            core->Case_branches == *branches,
        ensures
            res is Ok <==> arms_ok(CaseKind::List, branch_views(branches@), old(self).next_unique as nat),
            res matches Err(e) ==> e is NameOverflow || body_faults(branch_views(branches@), e) || (e is InvalidCase
                && !case_ok(CaseKind::List, branch_views(branches@), None)),
            res matches Err(e) && e is NameOverflow ==> old(self).next_unique + sum(case_costs(CaseKind::List, branch_views(branches@)))
                > usize::MAX,
            res is Ok ==> final(self).next_unique == old(self).next_unique + sum(case_costs(CaseKind::List, branch_views(branches@))),
            res matches Ok(r) ==> r@ == case_result(
                CaseKind::List,
                branch_views(branches@),
                UTm::Var(name.unique),
                case_bodies(CaseKind::List, branch_views(branches@), old(self).next_unique as nat),
                fallback@,
                old(self).next_unique as nat,
            ),
        decreases core, 0nat,
    {
        let ghost bv = branch_views(branches@);
        let ghost kind = CaseKind::List;
        let ghost c = case_costs(kind, bv);
        let ghost base = self.next_unique as nat;
        let ghost bodies = case_bodies(kind, bv, base);
        let n = branches.len();
        let mut lowered: Vec<Term> = Vec::new();
        let mut nil: Option<usize> = None;
        let mut cons: Option<usize> = None;
        let mut j: usize = 0;
        while j < n
            invariant
                n == bv.len(),
                n == branches@.len(),
                bv == branch_views(branches@),
                kind == CaseKind::List,
                c == case_costs(kind, bv),
                c.len() == n,
                bodies == case_bodies(kind, bv, base),
                core is Case,
                (*core)->Case_branches == *branches,
                base == old(self).next_unique,
                j <= n,
                self.next_unique == base + sum(c.take(j as int)),
                lowered@.len() == j,
                forall|k: int| 0 <= k < j ==> (#[trigger] lowered@[k])@ == bodies[k],
                forall|k: int| 0 <= k < j ==> #[trigger] branch_fits(kind, bv[k], n as nat),
                forall|k: int| 0 <= k < j ==> lowerable(#[trigger] bv[k].body),
                forall|k1: int, k2: int| 0 <= k1 < k2 < j ==> bv[k1].test != bv[k2].test,
                nil matches Some(p) ==> p < j && bv[p as int].test == TestV::Nil,
                nil is None ==> forall|k: int| 0 <= k < j ==> bv[k].test != TestV::Nil,
                cons matches Some(p) ==> p < j && bv[p as int].test == TestV::Cons,
                cons is None ==> forall|k: int| 0 <= k < j ==> bv[k].test != TestV::Cons,
            decreases n - j,
        {
            let b = &branches[j];
            proof {
                assert(bv[j as int] == branches@[j as int]@);
                assert(decreases_to!(*core => (*core)->Case_branches));
                assert(decreases_to!(*branches => branches@));
                assert(decreases_to!(branches@ => branches@[j as int]));
                assert(decreases_to!(branches@[j as int] => branches@[j as int].body));
            }
            let is_nil = match b.test {
                Test::Nil => true,
                Test::Cons => false,
                _ => {
                    proof {
                        assert(!branch_fits(kind, bv[j as int], n as nat));
                    }
                    return Err(Error::InvalidCase("invalid list branch"));
                },
            };
            let fits = if is_nil {
                nil.is_none() && b.binders.len() == 0
            } else {
                cons.is_none() && b.binders.len() == 2
            };
            if !fits {
                proof {
                    if is_nil && nil.is_some() {
                        assert(bv[nil->0 as int].test == bv[j as int].test);
                        assert(!distinct_tests(bv));
                    } else if !is_nil && cons.is_some() {
                        assert(bv[cons->0 as int].test == bv[j as int].test);
                        assert(!distinct_tests(bv));
                    } else {
                        assert(!branch_fits(kind, bv[j as int], n as nat));
                    }
                }
                return Err(Error::InvalidCase("invalid list branch"));
            }
            proof {
                lemma_sum_take(c, j as int);
                assert(c[j as int] == fresh_count(bv[j as int].body));
            }
            match self.term(&b.body) {
                Ok(body) => {
                    proof {
                        lemma_case_body(kind, bv, base, j as int);
                    }
                    lowered.push(body);
                    if is_nil {
                        nil = Some(j);
                    } else {
                        cons = Some(j);
                    }
                },
                Err(e) => {
                    proof {
                        if !lowerable(bv[j as int].body) {
                            assert(!bodies_lowerable(bv));
                        }
                    }
                    return Err(e);
                },
            }
            j += 1;
        }
        proof {
            assert(c.take(n as int) =~= c);
        }
        let nil_arm = match nil {
            Some(p) => lowered[p].duplicate(),
            None => fallback.duplicate(),
        };
        let cons_term = match cons {
            Some(p) => {
                let head = builtin1(DefaultFunction::HeadList, var(name.duplicate()));
                let tail = builtin1(DefaultFunction::TailList, var(name.duplicate()));
                let function = lambda_over(&branches[p].binders, lowered[p].duplicate());
                proof {
                    assert(branches@[p as int]@.binders == branches@[p as int].binders@);
                }
                apply(apply(function, head), tail)
            },
            None => fallback,
        };
        let null = builtin1(DefaultFunction::NullList, var(name.duplicate()));
        let r = lazy_if_term(null, nil_arm, cons_term);
        proof {
            let value = UTm::Var(name.unique);
            lemma_arm_or(bv, bodies, TestV::Nil, fallback@, nil_arm@);
            if cons.is_some() {
                lemma_branch_with(bv, TestV::Cons, cons->0 as int);
            } else {
                assert(!has_branch(bv, TestV::Cons));
            }
        }
        Ok(r)
    }

    /// The branches of a Data case: one arm per Data shape, chosen by
    /// `ChooseData`; a constructor arm splits the pair it unwraps.
    #[verifier::rlimit(80)]
    fn case_data(&mut self, core: &Core, branches: &Vec<Branch>, name: &UName, fallback: Term) -> (res: Result<Term, Error>)
        requires
            core is Case,
            core->Case_branches == *branches,
        ensures
            res is Ok <==> arms_ok(CaseKind::Data, branch_views(branches@), old(self).next_unique as nat),
            res matches Err(e) ==> e is NameOverflow || body_faults(branch_views(branches@), e) || (e is InvalidCase
                && !case_ok(CaseKind::Data, branch_views(branches@), None)),
            res matches Err(e) && e is NameOverflow ==> old(self).next_unique + sum(case_costs(CaseKind::Data, branch_views(branches@)))
                > usize::MAX,
            res is Ok ==> final(self).next_unique == old(self).next_unique + sum(case_costs(CaseKind::Data, branch_views(branches@))),
            res matches Ok(r) ==> r@ == case_result(
                CaseKind::Data,
                branch_views(branches@),
                UTm::Var(name.unique),
                case_bodies(CaseKind::Data, branch_views(branches@), old(self).next_unique as nat),
                fallback@,
                old(self).next_unique as nat,
            ),
        decreases core, 0nat,
    {
        let ghost bv = branch_views(branches@);
        let ghost kind = CaseKind::Data;
        let ghost c = case_costs(kind, bv);
        let ghost base = self.next_unique as nat;
        let ghost bodies = case_bodies(kind, bv, base);
        let ghost value = UTm::Var(name.unique);
        let n = branches.len();
        let mut arms: Vec<Term> = vec![Term::Error, Term::Error, Term::Error, Term::Error, Term::Error];
        let mut pos: Vec<usize> = vec![n, n, n, n, n];
        let mut j: usize = 0;
        while j < n
            invariant
                n == bv.len(),
                n == branches@.len(),
                bv == branch_views(branches@),
                kind == CaseKind::Data,
                c == case_costs(kind, bv),
                c.len() == n,
                bodies == case_bodies(kind, bv, base),
                value == UTm::Var(name.unique),
                core is Case,
                (*core)->Case_branches == *branches,
                base == old(self).next_unique,
                j <= n,
                self.next_unique == base + sum(c.take(j as int)),
                arms@.len() == 5,
                pos@.len() == 5,
                forall|k: int| 0 <= k < j ==> #[trigger] branch_fits(kind, bv[k], n as nat),
                forall|k: int| 0 <= k < j ==> lowerable(#[trigger] bv[k].body),
                forall|k1: int, k2: int| 0 <= k1 < k2 < j ==> bv[k1].test != bv[k2].test,
                forall|x: int|
                    #![trigger pos@[x]]
                    0 <= x < 5 && pos@[x] != n ==> pos@[x] < j && bv[pos@[x] as int].test == data_test(x)
                        && arms@[x]@ == data_arm(
                        x,
                        bv[pos@[x] as int],
                        bodies[pos@[x] as int],
                        value,
                        pair_name(bv, base, pos@[x] as int),
                    ),
                forall|x: int|
                    #![trigger pos@[x]]
                    0 <= x < 5 && pos@[x] == n ==> forall|k: int| 0 <= k < j ==> bv[k].test != data_test(x),
            decreases n - j,
        {
            let b = &branches[j];
            proof {
                assert(bv[j as int] == branches@[j as int]@);
                assert(decreases_to!(*core => (*core)->Case_branches));
                assert(decreases_to!(*branches => branches@));
                assert(decreases_to!(branches@ => branches@[j as int]));
                assert(decreases_to!(branches@[j as int] => branches@[j as int].body));
            }
            let (index, arity): (usize, usize) = match b.test {
                Test::DataConstr => (0, 2),
                Test::DataMap => (1, 1),
                Test::DataList => (2, 1),
                Test::DataI => (3, 1),
                Test::DataB => (4, 1),
                _ => {
                    proof {
                        assert(!branch_fits(kind, bv[j as int], n as nat));
                    }
                    return Err(Error::InvalidCase("non-Data test"));
                },
            };
            proof {
                assert(bv[j as int].test == data_test(index as int));
                assert(arity == data_arity(bv[j as int].test));
            }
            if pos[index] != n || b.binders.len() != arity {
                proof {
                    if pos@[index as int] != n {
                        assert(bv[pos@[index as int] as int].test == bv[j as int].test);
                        assert(!distinct_tests(bv));
                    } else {
                        assert(!branch_fits(kind, bv[j as int], n as nat));
                    }
                }
                return Err(Error::InvalidCase("invalid Data branch"));
            }
            proof {
                lemma_sum_take(c, j as int);
                assert(c[j as int] == fresh_count(bv[j as int].body) + if index == 0 { 1nat } else { 0nat });
            }
            let body = match self.term(&b.body) {
                Ok(body) => body,
                Err(e) => {
                    proof {
                        if !lowerable(bv[j as int].body) {
                            assert(!bodies_lowerable(bv));
                        }
                    }
                    return Err(e);
                },
            };
            proof {
                lemma_case_body(kind, bv, base, j as int);
            }
            let function = lambda_over(&b.binders, body);
            let unwrapped = builtin1(data_unwrap_of(index), var(name.duplicate()));
            let arm = if index == 0 {
                let pair = match self.fresh() {
                    Ok(p) => p,
                    Err(e) => {
                        return Err(e);
                    },
                };
                let fst = builtin1(DefaultFunction::FstPair, var(pair.duplicate()));
                let snd = builtin1(DefaultFunction::SndPair, var(pair.duplicate()));
                apply(lambda(pair, apply(apply(function, fst), snd)), unwrapped)
            } else {
                apply(function, unwrapped)
            };
            proof {
                assert(arm@ == data_arm(index as int, bv[j as int], bodies[j as int], value, pair_name(bv, base, j as int)));
            }
            let ghost old_pos = pos@;
            let ghost old_arms = arms@;
            arms.set(index, arm);
            pos.set(index, j);
            proof {
                assert forall|x: int| #![trigger pos@[x]] 0 <= x < 5 && pos@[x] != n implies pos@[x] < j + 1
                    && bv[pos@[x] as int].test == data_test(x) && arms@[x]@ == data_arm(
                    x,
                    bv[pos@[x] as int],
                    bodies[pos@[x] as int],
                    value,
                    pair_name(bv, base, pos@[x] as int),
                ) by {
                    if x != index {
                        assert(pos@[x] == old_pos[x]);
                        assert(arms@[x] == old_arms[x]);
                    }
                }
                assert forall|x: int| #![trigger pos@[x]] 0 <= x < 5 && pos@[x] == n implies forall|k: int|
                    0 <= k < j + 1 ==> bv[k].test != data_test(x) by {
                    assert(x != index);
                    assert(pos@[x] == old_pos[x]);
                    if data_test(x) == bv[j as int].test {
                        assert(data_test(x) == data_test(index as int));
                    }
                }
                assert forall|k1: int, k2: int| 0 <= k1 < k2 < j + 1 implies bv[k1].test != bv[k2].test by {
                    if k2 == j && bv[k1].test == bv[k2].test {
                        assert(old_pos[index as int] == n);
                    }
                }
            }
            j += 1;
        }
        proof {
            assert(c.take(n as int) =~= c);
        }
        let r = choose_data(name, &arms, &pos, n, fallback);
        proof {
            let da = data_arms(bv, value, bodies, fallback@, base);
            assert forall|x: int| 0 <= x < 5 implies #[trigger] chosen(arms@, pos@, n, fallback@, x) == da[x] by {
                if pos@[x] != n {
                    lemma_branch_with(bv, data_test(x), pos@[x] as int);
                } else {
                    assert(!has_branch(bv, data_test(x)));
                }
            }
            assert(chosen(arms@, pos@, n, fallback@, 0) == da[0]);
            assert(chosen(arms@, pos@, n, fallback@, 1) == da[1]);
            assert(chosen(arms@, pos@, n, fallback@, 2) == da[2]);
            assert(chosen(arms@, pos@, n, fallback@, 3) == da[3]);
            assert(chosen(arms@, pos@, n, fallback@, 4) == da[4]);
        }
        Ok(r)
    }
}

/// The arm of Data shape `i`: the one built, or the fallback.
pub open spec fn chosen(arms: Seq<Term>, pos: Seq<usize>, n: usize, fallback: UTm, i: int) -> UTm {
    if pos[i] != n {
        arms[i]@
    } else {
        fallback
    }
}

/// `ChooseData` over the inspected value and the five delayed arms.
fn choose_data(name: &UName, arms: &Vec<Term>, pos: &Vec<usize>, n: usize, fallback: Term) -> (r: Term)
    requires
        arms@.len() == 5,
        pos@.len() == 5,
    ensures
        r@ == UTm::Force(
            Box::new(
                ubuiltin(
                    DefaultFunction::ChooseData,
                    seq![
                        UTm::Var(name.unique),
                        UTm::Delay(Box::new(chosen(arms@, pos@, n, fallback@, 0))),
                        UTm::Delay(Box::new(chosen(arms@, pos@, n, fallback@, 1))),
                        UTm::Delay(Box::new(chosen(arms@, pos@, n, fallback@, 2))),
                        UTm::Delay(Box::new(chosen(arms@, pos@, n, fallback@, 3))),
                        UTm::Delay(Box::new(chosen(arms@, pos@, n, fallback@, 4))),
                    ],
                ),
            ),
        ),
{
    let mut args: Vec<Term> = vec![var(name.duplicate())];
    let mut k: usize = 0;
    while k < 5
        invariant
            k <= 5,
            arms@.len() == 5,
            pos@.len() == 5,
            args@.len() == k + 1,
            args@[0]@ == UTm::Var(name.unique),
            forall|i: int|
                1 <= i <= k ==> (#[trigger] args@[i])@ == UTm::Delay(Box::new(chosen(arms@, pos@, n, fallback@, i - 1))),
        decreases 5 - k,
    {
        let arm = if pos[k] != n {
            arms[k].duplicate()
        } else {
            fallback.duplicate()
        };
        let ghost prev = args@;
        args.push(delay(arm));
        proof {
            assert forall|i: int| 1 <= i <= k + 1 implies (#[trigger] args@[i])@ == UTm::Delay(
                Box::new(chosen(arms@, pos@, n, fallback@, i - 1)),
            ) by {
                if i <= k {
                    assert(args@[i] == prev[i]);
                }
            }
        }
        k += 1;
    }
    proof {
        assert(term_views(args@) =~= seq![
            UTm::Var(name.unique),
            UTm::Delay(Box::new(chosen(arms@, pos@, n, fallback@, 0))),
            UTm::Delay(Box::new(chosen(arms@, pos@, n, fallback@, 1))),
            UTm::Delay(Box::new(chosen(arms@, pos@, n, fallback@, 2))),
            UTm::Delay(Box::new(chosen(arms@, pos@, n, fallback@, 3))),
            UTm::Delay(Box::new(chosen(arms@, pos@, n, fallback@, 4))),
        ]) by {
            assert(args@[1]@ == UTm::Delay(Box::new(chosen(arms@, pos@, n, fallback@, 0))));
            assert(args@[2]@ == UTm::Delay(Box::new(chosen(arms@, pos@, n, fallback@, 1))));
            assert(args@[3]@ == UTm::Delay(Box::new(chosen(arms@, pos@, n, fallback@, 2))));
            assert(args@[4]@ == UTm::Delay(Box::new(chosen(arms@, pos@, n, fallback@, 3))));
            assert(args@[5]@ == UTm::Delay(Box::new(chosen(arms@, pos@, n, fallback@, 4))));
        }
    }
    force(builtin(DefaultFunction::ChooseData, args))
}

/// The branches of a non-constructor case suit its kind, their bodies can be
/// lowered, and their fresh names, counted from `base`, fit.
pub open spec fn arms_ok(kind: CaseKind, bs: Seq<BranchTm>, base: nat) -> bool {
    &&& forall|j: int| 0 <= j < bs.len() ==> #[trigger] branch_fits(kind, bs[j], bs.len())
    &&& distinct_tests(bs)
    &&& bodies_lowerable(bs)
    &&& base + sum(case_costs(kind, bs)) <= usize::MAX
}

/// One lowered branch body of a non-constructor case.
pub proof fn lemma_case_body(kind: CaseKind, bs: Seq<BranchTm>, base: nat, j: int)
    requires
        0 <= j < bs.len(),
    ensures
        case_bodies(kind, bs, base).len() == bs.len(),
        case_bodies(kind, bs, base)[j] == lower_tm(
            bs[j].body,
            if kind == CaseKind::Int || kind == CaseKind::Bytes {
                base + sum(case_costs(kind, bs).skip(j + 1))
            } else {
                base + sum(case_costs(kind, bs).take(j))
            },
        ),
{
    reveal(lower_tm);
}

pub proof fn lemma_sum_first(s: Seq<nat>)
    requires
        s.len() > 0,
    ensures
        sum(s) == s[0] + sum(s.drop_first()),
    decreases s.len(),
{
    if s.len() > 1 {
        lemma_sum_first(s.drop_last());
        assert(s.drop_last().drop_first() =~= s.drop_first().drop_last());
        assert(s.drop_first().last() == s.last());
    } else {
        assert(s.drop_first() =~= Seq::<nat>::empty());
        assert(s.drop_last() =~= Seq::<nat>::empty());
    }
}

/// A suffix sum, one element at a time.
pub proof fn lemma_sum_skip(s: Seq<nat>, k: int)
    requires
        0 <= k < s.len(),
    ensures
        sum(s.skip(k)) == s[k] + sum(s.skip(k + 1)),
{
    lemma_sum_first(s.skip(k));
    assert(s.skip(k).drop_first() =~= s.skip(k + 1));
}

/// A suffix sum is at most the whole sum.
pub proof fn lemma_sum_skip_le(s: Seq<nat>, k: int)
    requires
        0 <= k <= s.len(),
    ensures
        sum(s.skip(k)) <= sum(s),
    decreases k,
{
    if k > 0 {
        lemma_sum_skip_le(s, k - 1);
        lemma_sum_skip(s, k - 1);
    } else {
        assert(s.skip(0) =~= s);
    }
}

/// With distinct tests, the branch with a test is the one at `p`.
proof fn lemma_branch_with(bs: Seq<BranchTm>, test: TestV, p: int)
    requires
        distinct_tests(bs),
        0 <= p < bs.len(),
        bs[p].test == test,
    ensures
        has_branch(bs, test),
        branch_with(bs, test) == p,
{
    let w = branch_with(bs, test);
    if w != p {
        if w < p {
            assert(bs[w].test != bs[p].test);
        } else {
            assert(bs[p].test != bs[w].test);
        }
    }
}

/// With distinct tests, `arm_or` picks the one branch with the test.
proof fn lemma_arm_or(bs: Seq<BranchTm>, bodies: Seq<UTm>, test: TestV, fallback: UTm, r: UTm)
    requires
        distinct_tests(bs),
        has_branch(bs, test) ==> exists|k: int| 0 <= k < bs.len() && bs[k].test == test && r == bodies[k],
        !has_branch(bs, test) ==> r == fallback,
    ensures
        arm_or(bs, bodies, test, fallback) == r,
{
    if has_branch(bs, test) {
        let k = choose|k: int| 0 <= k < bs.len() && bs[k].test == test && r == bodies[k];
        let w = branch_with(bs, test);
        if w != k {
            if w < k {
                assert(bs[w].test != bs[k].test);
            } else {
                assert(bs[k].test != bs[w].test);
            }
        }
    }
}

/// The lowering of a non-constructor case.
pub proof fn lemma_lower_value(t: Tm, next: nat)
    requires
        t matches Tm::Case(kind, _, _, _) && kind != CaseKind::Tag,
    ensures
        t matches Tm::Case(kind, s, bs, d) && lower_tm(t, next) == UTm::App(
            Box::new(
                UTm::Lam(
                    next as usize,
                    Box::new(
                        case_result(
                            kind,
                            bs,
                            UTm::Var(next as usize),
                            case_bodies(
                                kind,
                                bs,
                                next + 1 + match d {
                                    Some(x) => fresh_count(*x),
                                    None => 0,
                                },
                            ),
                            match d {
                                Some(x) => lower_tm(*x, next + 1),
                                None => UTm::Error,
                            },
                            next + 1 + match d {
                                Some(x) => fresh_count(*x),
                                None => 0,
                            },
                        ),
                    ),
                ),
            ),
            Box::new(
                lower_tm(
                    *s,
                    next + 1 + match d {
                        Some(x) => fresh_count(*x),
                        None => 0,
                    } + sum(case_costs(kind, bs)),
                ),
            ),
        ),
{
    reveal(lower_tm);
}

/// The position of the branch for each tag of a constructor case, when the
/// branches cover the tags `0..n` once each.
fn tag_slots(branches: &Vec<Branch>) -> (res: Result<Vec<usize>, Error>)
    ensures
        res matches Err(e) ==> e is InvalidCase,
        res is Ok <==> (forall|j: int| 0 <= j < branches@.len() ==> #[trigger] branch_fits(
            CaseKind::Tag,
            branch_views(branches@)[j],
            branches@.len() as nat,
        )) && distinct_tests(branch_views(branches@)),
        res matches Ok(slot) ==> slot@.len() == branches@.len() && forall|x: int|
            #![trigger slot@[x]]
            0 <= x < branches@.len() ==> slot@[x] < branches@.len() && tag_order(branch_views(branches@))[x]
                == slot@[x] as int,
{
    let ghost bv = branch_views(branches@);
    let n = branches.len();
    let mut slot: Vec<usize> = Vec::new();
    let mut i: usize = 0;
    while i < n
        invariant
            i <= n,
            slot@.len() == i,
            forall|k: int| 0 <= k < i ==> slot@[k] == n,
        decreases n - i,
    {
        slot.push(n);
        i += 1;
    }
    let ghost mut filled: Set<int> = Set::empty();
    let mut j: usize = 0;
    while j < n
        invariant
            n == bv.len(),
            bv == branch_views(branches@),
            j <= n,
            slot@.len() == n,
            filled.finite(),
            filled.len() == j,
            forall|x: int| #[trigger] filled.contains(x) <==> (0 <= x < n && slot@[x] != n),
            forall|x: int|
                0 <= x < n && slot@[x] != n ==> slot@[x] < j && x <= u16::MAX
                    && bv[slot@[x] as int].test == TestV::Tag(x as u16),
            forall|k: int|
                0 <= k < j ==> ((#[trigger] bv[k]).test matches TestV::Tag(x) && (x as int) < n
                    && slot@[x as int] == k),
        decreases n - j,
    {
        let ghost before = slot@;
        match branches[j].test {
            Test::Tag(x) => {
                let xi = x as usize;
                if xi < n && slot[xi] == n {
                    slot.set(xi, j);
                    proof {
                        assert(!filled.contains(xi as int));
                        filled = filled.insert(xi as int);
                        assert forall|k: int| 0 <= k < j + 1 implies ((#[trigger] bv[k]).test matches TestV::Tag(y)
                            && (y as int) < n && slot@[y as int] == k) by {
                            if k < j {
                                let y = bv[k].test->Tag_0;
                                assert(before[y as int] == k);
                                assert(y as int != xi as int);
                            }
                        }
                    }
                } else {
                    proof {
                        if xi < n {
                            let k = slot@[xi as int] as int;
                            assert(bv[k].test == bv[j as int].test);
                            assert(!distinct_tests(bv));
                        } else {
                            assert(!branch_fits(CaseKind::Tag, bv[j as int], n as nat));
                        }
                    }
                    return Err(Error::InvalidCase("tag branches must cover consecutive unique tags"));
                }
            },
            _ => {
                proof {
                    assert(!branch_fits(CaseKind::Tag, bv[j as int], n as nat));
                }
                return Err(Error::InvalidCase("tag branches must cover consecutive unique tags"));
            },
        }
        j += 1;
    }
    let ghost order = tag_order(bv);
    proof {
        lemma_set_len_bound(filled, n as int);
        assert forall|x: int| #![trigger slot@[x]] 0 <= x < n implies slot@[x] < n && bv[slot@[x] as int].test == TestV::Tag(
            x as u16,
        ) && order[x] == slot@[x] as int by {
            assert(filled.contains(x));
            assert(slot@[x] != n);
            assert(x <= u16::MAX);
            let w = slot@[x] as int;
            assert(0 <= w < n && bv[w].test == TestV::Tag(x as u16));
            let k = tag_branch(bv, x);
            assert(0 <= k < n && bv[k].test == TestV::Tag(x as u16));
            assert(bv[k].test matches TestV::Tag(y) && (y as int) < n && slot@[y as int] == k);
            let y = bv[k].test->Tag_0;
            assert(y == x as u16);
            assert(y as int == x);
            assert(order[x] == k);
        }
        assert forall|k1: int, k2: int| 0 <= k1 < k2 < bv.len() implies bv[k1].test != bv[k2].test by {
            let y1 = bv[k1].test->Tag_0;
            let y2 = bv[k2].test->Tag_0;
            assert(slot@[y1 as int] == k1);
            assert(slot@[y2 as int] == k2);
        }
        assert forall|x: int| 0 <= x < n implies slot@[x] < n && order[x] == slot@[x] as int by {
            assert(slot@[x] < n && bv[slot@[x] as int].test == TestV::Tag(x as u16) && order[x] == slot@[x] as int);
        }
    }
    proof {
        assert forall|j: int| 0 <= j < branches@.len() implies #[trigger] branch_fits(CaseKind::Tag, bv[j], n as nat) by {
            assert(bv[j].test matches TestV::Tag(x) && (x as int) < n && slot@[x as int] == j);
        }
    }
    Ok(slot)
}

/// The arms of a constructor case, in tag order, their fresh names counted
/// from `next`.
pub open spec fn tag_arms_spec(bs: Seq<BranchTm>, next: nat) -> Seq<UTm> {
    Seq::new(
        bs.len(),
        |i: int|
            if 0 <= tag_order(bs)[i] < bs.len() {
                lambdas(
                    u_uniques(bs[tag_order(bs)[i]].binders),
                    lower_tm(bs[tag_order(bs)[i]].body, next + sum_in_order(branch_costs(bs), tag_order(bs), i)),
                )
            } else {
                UTm::Error
            },
    )
}

/// The lowering of a constructor case.
pub proof fn lemma_lower_tag(t: Tm, next: nat)
    requires
        t matches Tm::Case(kind, _, _, _) && kind == CaseKind::Tag,
    ensures
        t matches Tm::Case(_, s, bs, _) && lower_tm(t, next) == UTm::Case(
            Box::new(lower_tm(*s, next + sum_in_order(branch_costs(bs), tag_order(bs), bs.len() as int))),
            tag_arms_spec(bs, next),
        ),
{
    reveal(lower_tm);
    match t {
        Tm::Case(_, s, bs, _) => {
            let l = lower_tm(t, next);
            let order = tag_order(bs);
            let c = branch_costs(bs);
            match l {
                UTm::Case(sc, arms) => {
                    assert(*sc == lower_tm(*s, next + sum_in_order(c, order, bs.len() as int)));
                    assert(arms.len() == bs.len());
                    assert forall|i: int| 0 <= i < bs.len() implies #[trigger] arms[i] == tag_arms_spec(bs, next)[i] by {
                    }
                    assert(arms =~= tag_arms_spec(bs, next));
                },
                _ => {
                    assert(false);
                },
            }
        },
        _ => {},
    }
}

pub proof fn lemma_sum_in_order_mono(c: Seq<nat>, order: Seq<int>, i: int, k: int)
    requires
        i <= k,
    ensures
        sum_in_order(c, order, i) <= sum_in_order(c, order, k),
    decreases k - i,
{
    if i < k {
        lemma_sum_in_order_mono(c, order, i, k - 1);
    }
}


/// `seq_max` of a prefix, one element at a time.
pub proof fn lemma_seq_max_take(s: Seq<nat>, i: int)
    requires
        0 <= i < s.len(),
    ensures
        seq_max(s.take(i + 1)) == max2(seq_max(s.take(i)), s[i]),
{
    assert(s.take(i + 1).drop_last() =~= s.take(i));
}

/// The largest unique of a list of binders.
fn binders_largest(bs: &Vec<Binder>) -> (r: usize)
    ensures
        r == binders_max(bs@),
        r <= u32::MAX,
{
    let ghost s = Seq::new(bs@.len(), |i: int| bs@[i].name.unique as nat);
    let mut r: usize = 0;
    let mut i: usize = 0;
    while i < bs.len()
        invariant
            i <= bs@.len(),
            s == Seq::new(bs@.len(), |i: int| bs@[i].name.unique as nat),
            r == seq_max(s.take(i as int)),
            r <= u32::MAX,
        decreases bs@.len() - i,
    {
        proof {
            lemma_seq_max_take(s, i as int);
        }
        let u = bs[i].name.unique as usize;
        if u > r {
            r = u;
        }
        i += 1;
    }
    proof {
        assert(s.take(i as int) =~= s);
    }
    r
}

/// The largest unique of a list of terms.
fn terms_largest(items: &Vec<Core>) -> (r: usize)
    ensures
        r == seq_max(largests(views(items@))),
        r <= u32::MAX,
    decreases items,
{
    let ghost s = largests(views(items@));
    let mut r: usize = 0;
    let mut i: usize = 0;
    while i < items.len()
        invariant
            i <= items@.len(),
            s == largests(views(items@)),
            s.len() == items@.len(),
            r == seq_max(s.take(i as int)),
            r <= u32::MAX,
        decreases items@.len() - i,
    {
        proof {
            lemma_seq_max_take(s, i as int);
            assert(decreases_to!(*items => items[i as int]));
        }
        let u = largest_name(&items[i]);
        if u > r {
            r = u;
        }
        i += 1;
    }
    proof {
        assert(s.take(i as int) =~= s);
    }
    r
}

/// The largest unique that `core` mentions, as a binder or a variable.
fn largest_name(core: &Core) -> (r: usize)
    ensures
        r == largest(core@),
        r <= u32::MAX,
    decreases core,
{
    proof {
        lemma_views(*core);
    }
    match core {
        Core::Var(n) => n.unique as usize,
        Core::Lit(_) => 0,
        Core::Error => 0,
        Core::Lam { params, body } => {
            let a = binders_largest(params);
            let b = largest_name(body);
            if a >= b { a } else { b }
        },
        Core::App { func, args } => {
            proof {
                assert(decreases_to!(*core => (*core)->App_args));
            }
            let a = largest_name(func);
            let b = terms_largest(args);
            if a >= b { a } else { b }
        },
        Core::Let { binder, value, body } => {
            let a = binder.name.unique as usize;
            let v = largest_name(value);
            let b = largest_name(body);
            let m = if v >= b { v } else { b };
            if a >= m { a } else { m }
        },
        Core::LetRec { binders, body } => {
            proof {
                assert(decreases_to!(*core => (*core)->LetRec_binders));
            }
            let g = group_largest(binders);
            let b = largest_name(body);
            if g >= b { g } else { b }
        },
        Core::Case { scrutinee, branches, default, .. } => {
            proof {
                assert(decreases_to!(*core => (*core)->Case_branches));
            }
            let a = largest_name(scrutinee);
            let b = branches_largest(branches);
            let d = match default {
                Some(x) => largest_name(x),
                None => 0,
            };
            let m = if b >= d { b } else { d };
            if a >= m { a } else { m }
        },
        Core::Constr { fields, .. } => {
            proof {
                assert(decreases_to!(*core => (*core)->Constr_fields));
            }
            terms_largest(fields)
        },
        Core::Field { record, .. } => largest_name(record),
        Core::Builtin { args, .. } => {
            proof {
                assert(decreases_to!(*core => (*core)->Builtin_args));
            }
            terms_largest(args)
        },
        Core::Cast { arg, .. } => largest_name(arg),
        Core::Trace { message, body } => {
            let a = largest_name(message);
            let b = largest_name(body);
            if a >= b { a } else { b }
        },
        Core::Delay(b) => largest_name(b),
        Core::Force(b) => largest_name(b),
    }
}

/// The largest unique of the branches of a case.
fn branches_largest(items: &Vec<Branch>) -> (r: usize)
    ensures
        r == seq_max(branch_maxes(branch_views(items@))),
        r <= u32::MAX,
    decreases items,
{
    let ghost bv = branch_views(items@);
    let ghost s = branch_maxes(bv);
    let mut r: usize = 0;
    let mut i: usize = 0;
    while i < items.len()
        invariant
            i <= items@.len(),
            bv == branch_views(items@),
            s.len() == items@.len(),
            forall|k: int| 0 <= k < s.len() ==> #[trigger] s[k] == max2(binders_max(bv[k].binders), largest(bv[k].body)),
            r == seq_max(s.take(i as int)),
            r <= u32::MAX,
        decreases items@.len() - i,
    {
        proof {
            lemma_seq_max_take(s, i as int);
            assert(decreases_to!(*items => items@));
            assert(decreases_to!(items@ => items@[i as int]));
            assert(decreases_to!(items@[i as int] => items@[i as int].body));
            assert(bv[i as int] == items@[i as int]@);
        }
        let a = binders_largest(&items[i].binders);
        let b = largest_name(&items[i].body);
        let u = if a >= b { a } else { b };
        if u > r {
            r = u;
        }
        i += 1;
    }
    proof {
        assert(s.take(i as int) =~= s);
    }
    r
}

/// The largest unique of a recursive group.
fn group_largest(items: &Vec<RecBinder>) -> (r: usize)
    ensures
        r == seq_max(group_maxes(group_views(items@))),
        r <= u32::MAX,
    decreases items,
{
    let ghost gv = group_views(items@);
    let ghost s = group_maxes(gv);
    let mut r: usize = 0;
    let mut i: usize = 0;
    while i < items.len()
        invariant
            i <= items@.len(),
            gv == group_views(items@),
            s.len() == items@.len(),
            forall|k: int|
                0 <= k < s.len() ==> #[trigger] s[k] == max2(
                    gv[k].binder.name.unique as nat,
                    max2(binders_max(gv[k].params), largest(gv[k].body)),
                ),
            r == seq_max(s.take(i as int)),
            r <= u32::MAX,
        decreases items@.len() - i,
    {
        proof {
            lemma_seq_max_take(s, i as int);
            assert(decreases_to!(*items => items@));
            assert(decreases_to!(items@ => items@[i as int]));
            assert(decreases_to!(items@[i as int] => items@[i as int].body));
            assert(gv[i as int] == items@[i as int]@);
        }
        let a = items[i].binder.name.unique as usize;
        let p = binders_largest(&items[i].params);
        let b = largest_name(&items[i].body);
        let m = if p >= b { p } else { b };
        let u = if a >= m { a } else { m };
        if u > r {
            r = u;
        }
        i += 1;
    }
    proof {
        assert(s.take(i as int) =~= s);
    }
    r
}

/// Lower `core` to UPLC, with fresh names counted from one past the largest
/// unique of `core`.
pub fn lower(core: &Core) -> (res: Result<Term, Error>)
    ensures
        res is Ok <==> lowers(core@, largest(core@) + 1),
        res matches Ok(u) ==> u@ == lower_tm(core@, largest(core@) + 1),
        res matches Err(e) ==> e is NameOverflow || faults(core@, e),
        res matches Err(e) && e is NameOverflow ==> largest(core@) + 1 + fresh_count(core@) > usize::MAX,
{
    let largest = largest_name(core);
    match largest.checked_add(1) {
        Some(next) => {
            let mut pass = Lower { next_unique: next };
            pass.term(core)
        },
        None => Err(Error::NameOverflow),
    }
}

} // verus!
