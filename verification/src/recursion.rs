//! Remove recursive function groups using self-application and dispatchers.
//! Generated names come from the builder's supply and avoid every unique of
//! the input.
use vstd::prelude::*;
use crate::ir::{
    Core, Name, Binder, Branch, RecBinder, Tm, BranchTm, RecTm, Ty, Builder, views, branch_views,
    group_views, binder_uniques, group_uniques, lemma_views, free_in, free_in_list, lemma_free_in_list,
    free_in_branches, lemma_free_in_branches, free_in_group, lemma_free_in_group,
};
use std::collections::HashSet;
use crate::lower::{sum, lemma_sum_take, lemma_sum_prefix};
use crate::ir::duplicate_binders;
use crate::ir::duplicate_u16s;

verus! {

/// The unshadowed saturated-or-not calls `f(args)` in `t`, in traversal
/// order, each with the scope it occurs in. Only binders inside `t` shadow.
pub open spec fn calls(t: Tm, f: u32, scope: Seq<u32>) -> Seq<(Seq<Tm>, Seq<u32>)>
    decreases t,
{
    match t {
        Tm::Var(_) => Seq::empty(),
        Tm::Lit(_) => Seq::empty(),
        Tm::Error => Seq::empty(),
        Tm::Lam(params, body) => calls(*body, f, scope + binder_uniques(params)),
        Tm::App(func, args) => (if is_call_head(*func, f, scope) {
            seq![(args, scope)]
        } else {
            Seq::empty()
        }) + calls(*func, f, scope) + calls_list(args, f, scope),
        Tm::Let(binder, value, body) => calls(*value, f, scope) + calls(
            *body,
            f,
            scope.push(binder.name.unique),
        ),
        Tm::LetRec(binders, body) => calls_group(binders, f, scope + group_uniques(binders)) + calls(
            *body,
            f,
            scope + group_uniques(binders),
        ),
        Tm::Case(_, scrutinee, branches, default) => calls(*scrutinee, f, scope) + calls_branches(
            branches,
            f,
            scope,
        ) + match default {
            Some(d) => calls(*d, f, scope),
            None => Seq::empty(),
        },
        Tm::Constr(_, fields) => calls_list(fields, f, scope),
        Tm::Field(record, _, _) => calls(*record, f, scope),
        Tm::Builtin(_, args) => calls_list(args, f, scope),
        Tm::Cast(_, _, _, arg) => calls(*arg, f, scope),
        Tm::Trace(message, body) => calls(*message, f, scope) + calls(*body, f, scope),
        Tm::Delay(b) => calls(*b, f, scope),
        Tm::Force(b) => calls(*b, f, scope),
    }
}

pub open spec fn calls_list(s: Seq<Tm>, f: u32, scope: Seq<u32>) -> Seq<(Seq<Tm>, Seq<u32>)>
    decreases s,
{
    if s.len() == 0 {
        Seq::empty()
    } else {
        calls_list(s.drop_last(), f, scope) + calls(s.last(), f, scope)
    }
}

pub open spec fn calls_branches(s: Seq<BranchTm>, f: u32, scope: Seq<u32>) -> Seq<
    (Seq<Tm>, Seq<u32>),
>
    decreases s,
{
    if s.len() == 0 {
        Seq::empty()
    } else {
        calls_branches(s.drop_last(), f, scope) + calls(
            s.last().body,
            f,
            scope + binder_uniques(s.last().binders),
        )
    }
}

pub open spec fn calls_group(s: Seq<RecTm>, f: u32, scope: Seq<u32>) -> Seq<(Seq<Tm>, Seq<u32>)>
    decreases s,
{
    if s.len() == 0 {
        Seq::empty()
    } else {
        calls_group(s.drop_last(), f, scope) + calls(s.last().body, f, scope + binder_uniques(s.last().params))
    }
}

/// `t` is the variable `f`, not shadowed in `scope`.
pub open spec fn is_call_head(t: Tm, f: u32, scope: Seq<u32>) -> bool {
    match t {
        Tm::Var(g) => g.unique == f && !scope.contains(f),
        _ => false,
    }
}

/// Some unshadowed occurrence of `f` in `t` is not the head of a call:
/// `f` is used first-class.
pub open spec fn stray(t: Tm, f: u32, scope: Seq<u32>) -> bool
    decreases t,
{
    match t {
        Tm::Var(g) => g.unique == f && !scope.contains(f),
        Tm::Lit(_) => false,
        Tm::Error => false,
        Tm::Lam(params, body) => stray(*body, f, scope + binder_uniques(params)),
        Tm::App(func, args) => (!is_call_head(*func, f, scope) && stray(*func, f, scope)) || stray_list(
            args,
            f,
            scope,
        ),
        Tm::Let(binder, value, body) => stray(*value, f, scope) || stray(
            *body,
            f,
            scope.push(binder.name.unique),
        ),
        Tm::LetRec(binders, body) => stray_group(binders, f, scope + group_uniques(binders)) || stray(
            *body,
            f,
            scope + group_uniques(binders),
        ),
        Tm::Case(_, scrutinee, branches, default) => stray(*scrutinee, f, scope) || stray_branches(
            branches,
            f,
            scope,
        ) || match default {
            Some(d) => stray(*d, f, scope),
            None => false,
        },
        Tm::Constr(_, fields) => stray_list(fields, f, scope),
        Tm::Field(record, _, _) => stray(*record, f, scope),
        Tm::Builtin(_, args) => stray_list(args, f, scope),
        Tm::Cast(_, _, _, arg) => stray(*arg, f, scope),
        Tm::Trace(message, body) => stray(*message, f, scope) || stray(*body, f, scope),
        Tm::Delay(b) => stray(*b, f, scope),
        Tm::Force(b) => stray(*b, f, scope),
    }
}

pub open spec fn stray_list(s: Seq<Tm>, f: u32, scope: Seq<u32>) -> bool
    decreases s,
{
    if s.len() == 0 {
        false
    } else {
        stray_list(s.drop_last(), f, scope) || stray(s.last(), f, scope)
    }
}

pub open spec fn stray_branches(s: Seq<BranchTm>, f: u32, scope: Seq<u32>) -> bool
    decreases s,
{
    if s.len() == 0 {
        false
    } else {
        stray_branches(s.drop_last(), f, scope) || stray(
            s.last().body,
            f,
            scope + binder_uniques(s.last().binders),
        )
    }
}

pub open spec fn stray_group(s: Seq<RecTm>, f: u32, scope: Seq<u32>) -> bool
    decreases s,
{
    if s.len() == 0 {
        false
    } else {
        stray_group(s.drop_last(), f, scope) || stray(s.last().body, f, scope + binder_uniques(s.last().params))
    }
}

/// The call passes the unshadowed parameter `p` unchanged at position `i`.
pub open spec fn forwards(call: (Seq<Tm>, Seq<u32>), i: int, p: u32) -> bool {
    &&& i < call.0.len()
    &&& match call.0[i] {
        Tm::Var(v) => v.unique == p && !call.1.contains(p),
        _ => false,
    }
}

/// Parameter `i` is static: every call in `cs` forwards it unchanged.
pub open spec fn is_static(cs: Seq<(Seq<Tm>, Seq<u32>)>, i: int, p: u32) -> bool {
    forall|k: int| 0 <= k < cs.len() ==> #[trigger] forwards(cs[k], i, p)
}

/// Some call in `cs` passes fewer than `n` arguments.
pub open spec fn has_short(cs: Seq<(Seq<Tm>, Seq<u32>)>, n: nat) -> bool {
    exists|k: int| 0 <= k < cs.len() && (#[trigger] cs[k]).0.len() < n
}

/// The positions `0..k` that are static, as `u16`, in increasing order.
pub open spec fn static_upto(cs: Seq<(Seq<Tm>, Seq<u32>)>, ps: Seq<u32>, k: nat) -> Seq<u16>
    decreases k,
{
    if k == 0 {
        Seq::empty()
    } else {
        let prev = static_upto(cs, ps, (k - 1) as nat);
        let i = k - 1;
        if i <= u16::MAX && is_static(cs, i, ps[i]) {
            prev.push(i as u16)
        } else {
            prev
        }
    }
}

/// The parameters of `f` (by their uniques `ps`) that every recursive call in
/// `body` forwards unchanged, in increasing order; empty unless `f` is
/// called, only ever in call position, and never with fewer arguments than
/// parameters. Positions past `u16::MAX` are not listed.
pub open spec fn spec_static_params(f: u32, ps: Seq<u32>, body: Tm) -> Seq<u16> {
    let cs = calls(body, f, Seq::empty());
    if cs.len() > 0 && !stray(body, f, Seq::empty()) && !has_short(cs, ps.len()) {
        static_upto(cs, ps, ps.len())
    } else {
        Seq::empty()
    }
}

/// What a walk has found so far about the calls of `f`.
struct Scan {
    any: bool,
    short: bool,
    stray: bool,
    ok: Vec<bool>,
}

spec fn scan_matches(st: Scan, cs: Seq<(Seq<Tm>, Seq<u32>)>, ps: Seq<u32>) -> bool {
    &&& st.ok@.len() == ps.len()
    &&& st.any == (cs.len() > 0)
    &&& st.short == has_short(cs, ps.len())
    &&& forall|i: int| 0 <= i < ps.len() ==> #[trigger] st.ok@[i] == is_static(cs, i, ps[i])
}

fn contains_unique(scope: &Vec<u32>, u: u32) -> (r: bool)
    ensures
        r == scope@.contains(u),
{
    let mut i: usize = 0;
    while i < scope.len()
        invariant
            i <= scope.len(),
            forall|j: int| 0 <= j < i ==> scope@[j] != u,
        decreases scope.len() - i,
    {
        if scope[i] == u {
            return true;
        }
        i += 1;
    }
    false
}

/// Record one call `f(args)` made under `scope`.
fn record_call(args: &Vec<Core>, ps: &Vec<u32>, scope: &Vec<u32>, st: &mut Scan, Ghost(cs): Ghost<Seq<(Seq<Tm>, Seq<u32>)>>)
    requires
        scan_matches(*old(st), cs, ps@),
    ensures
        scan_matches(*final(st), cs.push((views(args@), scope@)), ps@),
        final(st).stray == old(st).stray,
{
    let ghost call = (views(args@), scope@);
    let ghost cs2 = cs.push(call);
    st.any = true;
    if args.len() < ps.len() {
        st.short = true;
        assert(cs2[cs.len() as int] == call);
    }
    assert(has_short(cs2, ps@.len()) == (has_short(cs, ps@.len()) || args@.len() < ps@.len())) by {
        if has_short(cs2, ps@.len()) {
            let k = choose|k: int| 0 <= k < cs2.len() && (#[trigger] cs2[k]).0.len() < ps@.len();
            if k < cs.len() {
                assert(cs2[k] == cs[k]);
            }
        }
        if has_short(cs, ps@.len()) {
            let k = choose|k: int| 0 <= k < cs.len() && (#[trigger] cs[k]).0.len() < ps@.len();
            assert(cs2[k] == cs[k]);
        }
        if args@.len() < ps@.len() {
            assert(cs2[cs.len() as int] == call);
        }
    }
    let mut i: usize = 0;
    while i < ps.len()
        invariant
            i <= ps@.len(),
            st.ok@.len() == ps@.len(),
            st.any,
            st.short == has_short(cs2, ps@.len()),
            call == (views(args@), scope@),
            cs2 == cs.push(call),
            forall|j: int| 0 <= j < ps@.len() ==> #[trigger] old(st).ok@[j] == is_static(cs, j, ps@[j]),
            forall|j: int| 0 <= j < i ==> #[trigger] st.ok@[j] == is_static(cs2, j, ps@[j]),
            forall|j: int| i <= j < ps@.len() ==> #[trigger] st.ok@[j] == old(st).ok@[j],
            st.stray == old(st).stray,
        decreases ps@.len() - i,
    {
        let forwarded = if i < args.len() {
            match &args[i] {
                Core::Var(v) => v.unique == ps[i] && !contains_unique(scope, ps[i]),
                _ => false,
            }
        } else {
            false
        };
        assert(forwarded == forwards(call, i as int, ps@[i as int])) by {
            if i < args.len() {
                assert(call.0[i as int] == args@[i as int]@);
            }
        }
        assert(is_static(cs2, i as int, ps@[i as int]) == (is_static(cs, i as int, ps@[i as int]) && forwarded)) by {
            let p = ps@[i as int];
            if is_static(cs, i as int, p) && forwarded {
                assert forall|k: int| 0 <= k < cs2.len() implies #[trigger] forwards(cs2[k], i as int, p) by {
                    if k < cs.len() {
                        assert(cs2[k] == cs[k]);
                    }
                }
            }
            if is_static(cs2, i as int, p) {
                assert forall|k: int| 0 <= k < cs.len() implies #[trigger] forwards(cs[k], i as int, p) by {
                    assert(cs2[k] == cs[k]);
                    assert(forwards(cs2[k], i as int, p));
                }
                assert(forwards(cs2[cs.len() as int], i as int, p));
            }
        }
        if st.ok[i] && !forwarded {
            st.ok.set(i, false);
        }
        i += 1;
    }
}


fn push_binders(scope: &mut Vec<u32>, binders: &Vec<Binder>)
    ensures
        final(scope)@ == old(scope)@ + binder_uniques(binders@),
{
    let ghost start = scope@;
    let mut i: usize = 0;
    while i < binders.len()
        invariant
            i <= binders.len(),
            scope@ == start + binder_uniques(binders@).take(i as int),
        decreases binders.len() - i,
    {
        scope.push(binders[i].name.unique);
        i += 1;
        assert(binder_uniques(binders@).take(i as int) =~= binder_uniques(binders@).take(
            (i - 1) as int,
        ).push(binders@[i - 1].name.unique));
    }
    assert(binder_uniques(binders@).take(i as int) =~= binder_uniques(binders@));
}

fn push_group(scope: &mut Vec<u32>, binders: &Vec<RecBinder>)
    ensures
        final(scope)@ == old(scope)@ + group_uniques(group_views(binders@)),
{
    let ghost start = scope@;
    let mut i: usize = 0;
    while i < binders.len()
        invariant
            i <= binders.len(),
            scope@ == start + group_uniques(group_views(binders@)).take(i as int),
        decreases binders.len() - i,
    {
        scope.push(binders[i].binder.name.unique);
        i += 1;
        assert(group_uniques(group_views(binders@)).take(i as int) =~= group_uniques(group_views(binders@)).take(
            (i - 1) as int,
        ).push(binders@[i - 1].binder.name.unique));
    }
    assert(group_uniques(group_views(binders@)).take(i as int) =~= group_uniques(group_views(binders@)));
}

/// Walk `core` under `scope`, recording every call of `f` and whether `f`
/// is used other than as a call head.
fn scan(
    core: &Core,
    f: u32,
    ps: &Vec<u32>,
    scope: &mut Vec<u32>,
    st: &mut Scan,
    Ghost(cs): Ghost<Seq<(Seq<Tm>, Seq<u32>)>>,
)
    requires
        scan_matches(*old(st), cs, ps@),
    ensures
        final(scope)@ == old(scope)@,
        scan_matches(*final(st), cs + calls(core@, f, old(scope)@), ps@),
        final(st).stray == (old(st).stray || stray(core@, f, old(scope)@)),
    decreases core,
{
    let ghost s0 = scope@;
    let depth = scope.len();
    proof {
        lemma_views(*core);
    }
    match core {
        Core::Var(g) => {
            if g.unique == f && !contains_unique(scope, f) {
                st.stray = true;
            }
            assert(cs + calls(core@, f, s0) =~= cs);
        },
        Core::Lit(_) | Core::Error => {
            assert(cs + calls(core@, f, s0) =~= cs);
        },
        Core::Lam { params, body } => {
            push_binders(scope, params);
            scan(body, f, ps, scope, st, Ghost(cs));
            scope.truncate(depth);
            assert(scope@ =~= s0);
        },
        Core::App { func, args } => {
            let ghost head = if is_call_head(func@, f, s0) {
                seq![(views(args@), s0)]
            } else {
                Seq::empty()
            };
            let head_call = match &**func {
                Core::Var(g) => g.unique == f && !contains_unique(scope, f),
                _ => false,
            };
            assert(head_call == is_call_head(func@, f, s0));
            let old_stray = st.stray;
            if head_call {
                record_call(args, ps, scope, st, Ghost(cs));
                assert(cs.push((views(args@), s0)) =~= cs + head);
            } else {
                assert(cs + head =~= cs);
            }
            let stray_before = st.stray;
            scan(func, f, ps, scope, st, Ghost(cs + head));
            if head_call {
                // the head of a call is not a first-class use
                st.stray = stray_before;
            }
            proof {
                assert(decreases_to!(*core => (*core)->App_args));
            }
            scan_list(args, f, ps, scope, st, Ghost(cs + head + calls(func@, f, s0)));
            assert(cs + head + calls(func@, f, s0) + calls_list(views(args@), f, s0) =~= cs + calls(core@, f, s0));
        },
        Core::Let { binder, value, body } => {
            scan(value, f, ps, scope, st, Ghost(cs));
            scope.push(binder.name.unique);
            scan(body, f, ps, scope, st, Ghost(cs + calls(value@, f, s0)));
            scope.truncate(depth);
            assert(scope@ =~= s0);
            assert(cs + calls(value@, f, s0) + calls(body@, f, s0.push(binder.name.unique)) =~= cs + calls(core@, f, s0));
        },
        Core::LetRec { binders, body } => {
            push_group(scope, binders);
            let ghost g = scope@;
            proof {
                assert(decreases_to!(*core => (*core)->LetRec_binders));
            }
            scan_group(binders, f, ps, scope, st, Ghost(cs));
            scan(body, f, ps, scope, st, Ghost(cs + calls_group(group_views(binders@), f, g)));
            scope.truncate(depth);
            assert(scope@ =~= s0);
            assert(cs + calls_group(group_views(binders@), f, g) + calls(body@, f, g) =~= cs + calls(core@, f, s0));
        },
        Core::Case { scrutinee, branches, default, .. } => {
            scan(scrutinee, f, ps, scope, st, Ghost(cs));
            proof {
                assert(decreases_to!(*core => (*core)->Case_branches));
            }
            let ghost c1 = cs + calls(scrutinee@, f, s0);
            scan_branches(branches, f, ps, scope, st, Ghost(c1));
            let ghost c2 = c1 + calls_branches(branch_views(branches@), f, s0);
            match default {
                Some(d) => {
                    scan(d, f, ps, scope, st, Ghost(c2));
                    assert(c2 + calls(d@, f, s0) =~= cs + calls(core@, f, s0));
                },
                None => {
                    assert(c2 =~= cs + calls(core@, f, s0));
                },
            }
        },
        Core::Constr { fields, .. } => {
            proof {
                assert(decreases_to!(*core => (*core)->Constr_fields));
            }
            scan_list(fields, f, ps, scope, st, Ghost(cs));
        },
        Core::Builtin { args, .. } => {
            proof {
                assert(decreases_to!(*core => (*core)->Builtin_args));
            }
            scan_list(args, f, ps, scope, st, Ghost(cs));
        },
        Core::Field { record, .. } => {
            scan(record, f, ps, scope, st, Ghost(cs));
        },
        Core::Cast { arg, .. } => {
            scan(arg, f, ps, scope, st, Ghost(cs));
        },
        Core::Trace { message, body } => {
            scan(message, f, ps, scope, st, Ghost(cs));
            scan(body, f, ps, scope, st, Ghost(cs + calls(message@, f, s0)));
            assert(cs + calls(message@, f, s0) + calls(body@, f, s0) =~= cs + calls(core@, f, s0));
        },
        Core::Delay(body) | Core::Force(body) => {
            scan(body, f, ps, scope, st, Ghost(cs));
        },
    }
}

fn scan_list(
    items: &Vec<Core>,
    f: u32,
    ps: &Vec<u32>,
    scope: &mut Vec<u32>,
    st: &mut Scan,
    Ghost(cs): Ghost<Seq<(Seq<Tm>, Seq<u32>)>>,
)
    requires
        scan_matches(*old(st), cs, ps@),
    ensures
        final(scope)@ == old(scope)@,
        scan_matches(*final(st), cs + calls_list(views(items@), f, old(scope)@), ps@),
        final(st).stray == (old(st).stray || stray_list(views(items@), f, old(scope)@)),
    decreases items,
{
    let ghost s0 = scope@;
    let ghost stray0 = st.stray;
    let ghost vs = views(items@);
    let mut i: usize = 0;
    assert(vs.take(0) =~= Seq::<Tm>::empty());
    assert(cs + calls_list(vs.take(0), f, s0) =~= cs);
    while i < items.len()
        invariant
            i <= items.len(),
            scope@ == s0,
            vs == views(items@),
            scan_matches(*st, cs + calls_list(vs.take(i as int), f, s0), ps@),
            st.stray == (stray0 || stray_list(vs.take(i as int), f, s0)),
        decreases items.len() - i,
    {
        proof {
            assert(decreases_to!(*items => items[i as int]));
            assert(vs.take(i + 1).drop_last() =~= vs.take(i as int));
            assert(vs.take(i + 1).last() == items@[i as int]@);
        }
        let ghost before = cs + calls_list(vs.take(i as int), f, s0);
        scan(&items[i], f, ps, scope, st, Ghost(before));
        assert(before + calls(items@[i as int]@, f, s0) =~= cs + calls_list(vs.take(i + 1), f, s0));
        i += 1;
    }
    assert(vs.take(i as int) =~= vs);
}

fn scan_branches(
    items: &Vec<Branch>,
    f: u32,
    ps: &Vec<u32>,
    scope: &mut Vec<u32>,
    st: &mut Scan,
    Ghost(cs): Ghost<Seq<(Seq<Tm>, Seq<u32>)>>,
)
    requires
        scan_matches(*old(st), cs, ps@),
    ensures
        final(scope)@ == old(scope)@,
        scan_matches(*final(st), cs + calls_branches(branch_views(items@), f, old(scope)@), ps@),
        final(st).stray == (old(st).stray || stray_branches(branch_views(items@), f, old(scope)@)),
    decreases items,
{
    let ghost s0 = scope@;
    let ghost stray0 = st.stray;
    let ghost vs = branch_views(items@);
    let depth = scope.len();
    let mut i: usize = 0;
    assert(vs.take(0) =~= Seq::<BranchTm>::empty());
    assert(cs + calls_branches(vs.take(0), f, s0) =~= cs);
    while i < items.len()
        invariant
            i <= items.len(),
            depth == s0.len(),
            scope@ == s0,
            vs == branch_views(items@),
            scan_matches(*st, cs + calls_branches(vs.take(i as int), f, s0), ps@),
            st.stray == (stray0 || stray_branches(vs.take(i as int), f, s0)),
        decreases items.len() - i,
    {
        let branch = &items[i];
        proof {
            assert(decreases_to!(*items => items[i as int]));
            assert(decreases_to!(items[i as int] => items[i as int].body));
            assert(vs.take(i + 1).drop_last() =~= vs.take(i as int));
            assert(vs.take(i + 1).last() == items@[i as int]@);
        }
        let ghost before = cs + calls_branches(vs.take(i as int), f, s0);
        push_binders(scope, &branch.binders);
        scan(&branch.body, f, ps, scope, st, Ghost(before));
        scope.truncate(depth);
        assert(scope@ =~= s0);
        assert(before + calls(branch.body@, f, s0 + binder_uniques(branch.binders@)) =~= cs + calls_branches(vs.take(i + 1), f, s0));
        i += 1;
    }
    assert(vs.take(i as int) =~= vs);
}

fn scan_group(
    items: &Vec<RecBinder>,
    f: u32,
    ps: &Vec<u32>,
    scope: &mut Vec<u32>,
    st: &mut Scan,
    Ghost(cs): Ghost<Seq<(Seq<Tm>, Seq<u32>)>>,
)
    requires
        scan_matches(*old(st), cs, ps@),
    ensures
        final(scope)@ == old(scope)@,
        scan_matches(*final(st), cs + calls_group(group_views(items@), f, old(scope)@), ps@),
        final(st).stray == (old(st).stray || stray_group(group_views(items@), f, old(scope)@)),
    decreases items,
{
    let ghost s0 = scope@;
    let ghost stray0 = st.stray;
    let ghost vs = group_views(items@);
    let depth = scope.len();
    let mut i: usize = 0;
    assert(vs.take(0) =~= Seq::<RecTm>::empty());
    assert(cs + calls_group(vs.take(0), f, s0) =~= cs);
    while i < items.len()
        invariant
            i <= items.len(),
            depth == s0.len(),
            scope@ == s0,
            vs == group_views(items@),
            scan_matches(*st, cs + calls_group(vs.take(i as int), f, s0), ps@),
            st.stray == (stray0 || stray_group(vs.take(i as int), f, s0)),
        decreases items.len() - i,
    {
        let rb = &items[i];
        proof {
            assert(decreases_to!(*items => items[i as int]));
            assert(decreases_to!(items[i as int] => items[i as int].body));
            assert(vs.take(i + 1).drop_last() =~= vs.take(i as int));
            assert(vs.take(i + 1).last() == items@[i as int]@);
        }
        let ghost before = cs + calls_group(vs.take(i as int), f, s0);
        push_binders(scope, &rb.params);
        scan(&rb.body, f, ps, scope, st, Ghost(before));
        scope.truncate(depth);
        assert(scope@ =~= s0);
        assert(before + calls(rb.body@, f, s0 + binder_uniques(rb.params@)) =~= cs + calls_group(vs.take(i + 1), f, s0));
        i += 1;
    }
    assert(vs.take(i as int) =~= vs);
}

/// Parameters forwarded unchanged by every saturated self call. A
/// first-class use or a partial application disables static lifting.
pub fn static_params(f: &Name, params: &Vec<Binder>, body: &Core) -> (r: Vec<u16>)
    ensures
        r@ == spec_static_params(f.unique, binder_uniques(params@), body@),
{
    let ghost ps_spec = binder_uniques(params@);
    let mut ps: Vec<u32> = Vec::new();
    let mut ok: Vec<bool> = Vec::new();
    let mut i: usize = 0;
    while i < params.len()
        invariant
            i <= params.len(),
            ps@ == ps_spec.take(i as int),
            ok@.len() == i,
            forall|j: int| 0 <= j < i ==> #[trigger] ok@[j],
            ps_spec == binder_uniques(params@),
        decreases params.len() - i,
    {
        ps.push(params[i].name.unique);
        ok.push(true);
        i += 1;
        assert(ps@ =~= ps_spec.take(i as int));
    }
    assert(ps@ =~= ps_spec);
    let mut st = Scan { any: false, short: false, stray: false, ok };
    let ghost none: Seq<(Seq<Tm>, Seq<u32>)> = Seq::empty();
    assert(scan_matches(st, none, ps@));
    let mut scope: Vec<u32> = Vec::new();
    scan(body, f.unique, &ps, &mut scope, &mut st, Ghost(none));
    let ghost cs = calls(body@, f.unique, Seq::empty());
    assert(none + cs =~= cs);
    let mut result: Vec<u16> = Vec::new();
    if st.any && !st.stray && !st.short {
        let mut k: usize = 0;
        while k < ps.len()
            invariant
                k <= ps@.len(),
                ps@ == ps_spec,
                scan_matches(st, cs, ps@),
                result@ == static_upto(cs, ps_spec, k as nat),
            decreases ps@.len() - k,
        {
            if k <= 65535 && st.ok[k] {
                result.push(k as u16);
            }
            k += 1;
        }
    }
    result
}


/// Why a recursive group cannot be removed.
#[derive(Debug, PartialEq, Eq)]
pub enum Error {
    /// A member of a recursive group takes no parameters.
    RecursiveValue,
    /// A recursive group binds the same name twice.
    DuplicateBinder,
}

/// No recursive group is left in `t`.
pub open spec fn no_letrec(t: Tm) -> bool
    decreases t,
{
    match t {
        Tm::Var(_) => true,
        Tm::Lit(_) => true,
        Tm::Error => true,
        Tm::Lam(_, b) => no_letrec(*b),
        Tm::App(f, args) => no_letrec(*f) && forall|i: int| 0 <= i < args.len() ==> no_letrec(#[trigger] args[i]),
        Tm::Let(_, v, b) => no_letrec(*v) && no_letrec(*b),
        Tm::LetRec(_, _) => false,
        Tm::Case(_, s, bs, d) => no_letrec(*s) && (forall|i: int|
            0 <= i < bs.len() ==> no_letrec(#[trigger] bs[i].body)) && match d {
            Some(x) => no_letrec(*x),
            None => true,
        },
        Tm::Constr(_, fs) => forall|i: int| 0 <= i < fs.len() ==> no_letrec(#[trigger] fs[i]),
        Tm::Field(r, _, _) => no_letrec(*r),
        Tm::Builtin(_, args) => forall|i: int| 0 <= i < args.len() ==> no_letrec(#[trigger] args[i]),
        Tm::Cast(_, _, _, a) => no_letrec(*a),
        Tm::Trace(m, b) => no_letrec(*m) && no_letrec(*b),
        Tm::Delay(b) => no_letrec(*b),
        Tm::Force(b) => no_letrec(*b),
    }
}

/// `r` with its first `n` lets taken off.
pub open spec fn peel(r: Tm, n: nat) -> Tm
    decreases n,
{
    if n == 0 {
        r
    } else {
        match r {
            Tm::Let(_, _, c) => peel(*c, (n - 1) as nat),
            _ => Tm::Error,
        }
    }
}

/// The first `n` lets of `r` bind the members of `rbs`, in order.
pub open spec fn binds_members(r: Tm, rbs: Seq<RecTm>) -> bool {
    forall|k: int| 0 <= k < rbs.len() ==> (#[trigger] peel(r, k as nat) matches Tm::Let(y, _, _) && y == rbs[k].binder)
}

/// What the rewriter knows of a name it replaces: the term that stands for
/// a reference, and for direct calls the worker and the parameter positions
/// left out.
pub struct EntryV {
    pub unique: u32,
    pub value: Tm,
    pub direct: Option<(Tm, Seq<u16>)>,
}

pub open spec fn entry_view(e: Entry) -> EntryV {
    EntryV {
        unique: e.unique,
        value: e.value@,
        direct: match e.direct {
            Some(d) => Some((d.0@, d.1@)),
            None => None,
        },
    }
}

pub open spec fn env_view(env: Seq<Entry>) -> Seq<EntryV> {
    Seq::new(env.len(), |i: int| entry_view(env[i]))
}

/// The entries of `env` for names outside `names`, in order.
pub open spec fn minus(env: Seq<EntryV>, names: Seq<u32>) -> Seq<EntryV>
    decreases env.len(),
{
    if env.len() == 0 {
        Seq::empty()
    } else {
        let rest = minus(env.drop_last(), names);
        if names.contains(env.last().unique) {
            rest
        } else {
            rest.push(env.last())
        }
    }
}

/// Leaving out no name keeps the environment.
proof fn lemma_minus_nothing(env: Seq<EntryV>)
    ensures
        minus(env, Seq::empty()) == env,
    decreases env.len(),
{
    if env.len() > 0 {
        lemma_minus_nothing(env.drop_last());
        assert(env.drop_last().push(env.last()) =~= env);
    } else {
        assert(env =~= Seq::<EntryV>::empty());
    }
}

/// The first entry of `env` for `u`.
pub open spec fn find(env: Seq<EntryV>, u: u32) -> Option<EntryV>
    decreases env.len(),
{
    if env.len() == 0 {
        None
    } else {
        match find(env.drop_last(), u) {
            Some(e) => Some(e),
            None => if env.last().unique == u {
                Some(env.last())
            } else {
                None
            },
        }
    }
}

/// `excluded` lists position `i`.
pub open spec fn excludes(excluded: Seq<u16>, i: int) -> bool {
    exists|e: int| 0 <= e < excluded.len() && excluded[e] as int == i
}

/// How many of the positions before `n` `excluded` does not list.
pub open spec fn kept_before(excluded: Seq<u16>, n: int) -> nat
    decreases n,
{
    if n <= 0 {
        0
    } else {
        kept_before(excluded, n - 1) + if excludes(excluded, n - 1) {
            0nat
        } else {
            1nat
        }
    }
}

/// A kept position comes before every later count of kept positions.
proof fn lemma_kept_before_mono(excluded: Seq<u16>, j: int, k: int)
    requires
        0 <= j < k,
        !excludes(excluded, j),
    ensures
        kept_before(excluded, j) < kept_before(excluded, k),
    decreases k,
{
    if k > j + 1 {
        lemma_kept_before_mono(excluded, j, k - 1);
    }
}

/// The static parameters that the worker of `m` leaves out.
pub open spec fn single_statics(m: RecTm) -> Seq<u16> {
    kept_statics(m.static_params, spec_static_params(m.binder.name.unique, binder_uniques(m.params), m.body))
}

/// The parameters that the worker of `m` still takes.
pub open spec fn single_dynamic(m: RecTm) -> Seq<Binder> {
    dynamic_params(m.params, single_statics(m))
}

/// The worker's call of itself: `s s`, forced when it takes no parameter.
pub open spec fn self_call_tm(s: Binder, dynamic: Seq<Binder>) -> Tm {
    let raw = Tm::App(Box::new(Tm::Var(s.name)), seq![Tm::Var(s.name)]);
    if dynamic.len() == 0 {
        Tm::Force(Box::new(raw))
    } else {
        raw
    }
}

/// What a reference to `m` stands for inside its worker: the self call,
/// taken over fresh copies of the parameters when none is static.
pub open spec fn worker_value(m: RecTm, s: Binder, value: Tm) -> bool {
    let call = self_call_tm(s, single_dynamic(m));
    if single_statics(m).len() == 0 {
        exists|qs: Seq<Binder>| qs.len() == m.params.len() && value == Tm::Lam(qs, Box::new(Tm::App(Box::new(call), param_vars(qs))))
    } else {
        value == call
    }
}

/// The environment of the worker's body: `outer` without the parameters,
/// then `m` itself, whose direct calls go to the self call and leave out the
/// static parameters.
pub open spec fn worker_env(m: RecTm, s: Binder, value: Tm, outer: Seq<EntryV>) -> Seq<EntryV> {
    minus(outer, binder_uniques(m.params)).push(
        EntryV {
            unique: m.binder.name.unique,
            value,
            direct: Some((self_call_tm(s, single_dynamic(m)), single_statics(m))),
        },
    )
}

/// The term a `let` binds.
pub open spec fn let_value(t: Tm) -> Tm {
    match t {
        Tm::Let(_, v, _) => *v,
        _ => Tm::Error,
    }
}

/// The members of a group, each standing for the alias that the `k`-th let
/// of `c` binds.
pub open spec fn alias_env(rbs: Seq<RecTm>, c: Tm) -> Seq<EntryV> {
    Seq::new(rbs.len(), |k: int| EntryV { unique: rbs[k].binder.name.unique, value: let_value(peel(c, k as nat)), direct: None })
}

/// The worker and left-out positions for direct calls of `f`, when `f` is
/// a name that `env` gives a worker.
pub open spec fn direct_of(env: Seq<EntryV>, f: Tm) -> Option<(Tm, Seq<u16>)> {
    match f {
        Tm::Var(n) => match find(env, n.unique) {
            Some(e) => e.direct,
            None => None,
        },
        _ => None,
    }
}

/// `r` is what rewriting `t` gives where `env` replaces names. A reference
/// to a replaced name becomes its replacement; a direct call of a function
/// with a worker calls the worker with the static arguments left out; every
/// other node that is not a recursive group is kept, its parts rewritten in
/// turn with the names it binds no longer replaced. A group of one function
/// becomes a `let` of the function bound to its self-applied knot, whose
/// worker body is the function's body rewritten with the function standing
/// for its self call. A group of several becomes a `let` of the dispatcher,
/// whose arms are the members' bodies rewritten with each member standing for
/// its alias, around one `let` per member, in order, binding its alias. The
/// body of a group is rewritten without its members. An empty group is its
/// body. The fresh names are left open.
pub open spec fn rewritten(t: Tm, r: Tm, env: Seq<EntryV>) -> bool
    decreases t, 1nat,
{
    match t {
        Tm::Var(n) => match find(env, n.unique) {
            Some(e) => r == e.value,
            None => r == t,
        },
        Tm::Lam(ps, b) => r matches Tm::Lam(qs, c) && qs == ps && rewritten(*b, *c, minus(env, binder_uniques(ps))),
        Tm::App(f, args) => if let Some(d) = direct_of(env, *f) {
            r matches Tm::App(g, rs) && *g == d.0 && rs.len() == kept_before(d.1, args.len() as int) && forall|i: int|
                0 <= i < args.len() && !excludes(d.1, i) ==> rewritten(#[trigger] args[i], rs[kept_before(d.1, i) as int], env)
        } else {
            r matches Tm::App(g, rs) && rewritten(*f, *g, env) && rs.len() == args.len() && forall|i: int|
                0 <= i < args.len() ==> rewritten(#[trigger] args[i], rs[i], env)
        },
        Tm::Let(x, v, b) => r matches Tm::Let(y, w, c) && y == x && rewritten(*v, *w, env) && rewritten(
            *b,
            *c,
            minus(env, seq![x.name.unique]),
        ),
        Tm::LetRec(rbs, b) => {
            let outer = minus(env, group_uniques(rbs));
            if rbs.len() == 0 {
                rewritten(*b, r, env)
            } else if rbs.len() == 1 {
                &&& r matches Tm::Let(y, v, c) && y == rbs[0].binder && rewritten(*b, *c, outer)
                &&& exists|sb: Binder, w: Tm, value: Tm|
                    #![trigger single_definition(rbs[0], sb, w), worker_value(rbs[0], sb, value)]
                    let_value(r) == single_definition(rbs[0], sb, w) && worker_value(rbs[0], sb, value) && rewritten(
                        rbs[0].body,
                        w,
                        worker_env(rbs[0], sb, value, outer),
                    )
            } else {
                &&& r matches Tm::Let(cy, d, c) && binds_members(*c, rbs) && (forall|k: int|
                    0 <= k < rbs.len() ==> (#[trigger] peel(*c, k as nat) matches Tm::Let(_, a, _) && member_alias(
                    *a,
                    cy,
                    k,
                    rbs.len(),
                    rbs[k].params.len(),
                ))) && rewritten(*b, peel(*c, rbs.len()), outer)
                &&& exists|sel: Binder, arms: Seq<Tm>|
                    arms.len() == rbs.len() && let_value(r) == Tm::Lam(
                        seq![r->Let_0, sel],
                        Box::new(Tm::App(Box::new(Tm::Var(sel.name)), arms)),
                    ) && forall|k: int|
                        0 <= k < rbs.len() ==> (#[trigger] arms[k] matches Tm::Lam(ps, w) && ps == rbs[k].params
                            && rewritten(
                            rbs[k].body,
                            *w,
                            minus(outer + alias_env(rbs, *r->Let_2), binder_uniques(rbs[k].params)),
                        ))
            }
        },
        Tm::Case(k, sc, bs, d) => r matches Tm::Case(k2, sc2, bs2, d2) && k2 == k && rewritten(*sc, *sc2, env)
            && bs2.len() == bs.len() && (forall|i: int|
            0 <= i < bs.len() ==> (#[trigger] bs2[i]).test == bs[i].test && bs2[i].binders == bs[i].binders
                && rewritten(bs[i].body, bs2[i].body, minus(env, binder_uniques(bs[i].binders)))) && match d {
            Some(x) => d2 matches Some(y) && rewritten(*x, *y, env),
            None => d2 is None,
        },
        Tm::Constr(tag, fs) => r matches Tm::Constr(tag2, rs) && tag2 == tag && rs.len() == fs.len() && forall|i: int|
            0 <= i < fs.len() ==> rewritten(#[trigger] fs[i], rs[i], env),
        Tm::Field(x, i, a) => r matches Tm::Field(y, i2, a2) && i2 == i && a2 == a && rewritten(*x, *y, env),
        Tm::Builtin(f, args) => r matches Tm::Builtin(g, rs) && g == f && rs.len() == args.len() && forall|i: int|
            0 <= i < args.len() ==> rewritten(#[trigger] args[i], rs[i], env),
        Tm::Cast(k, from, to, x) => r matches Tm::Cast(k2, from2, to2, y) && k2 == k && from2 == from && to2 == to
            && rewritten(*x, *y, env),
        Tm::Trace(m, b) => r matches Tm::Trace(m2, c) && rewritten(*m, *m2, env) && rewritten(*b, *c, env),
        Tm::Delay(b) => r matches Tm::Delay(c) && rewritten(*b, *c, env),
        Tm::Force(b) => r matches Tm::Force(c) && rewritten(*b, *c, env),
        _ => r == t,
    }
}

/// The static parameters that a self-applied worker leaves out: those the
/// group member lists that the analysis confirms, in the listed order.
pub open spec fn kept_statics(listed: Seq<u16>, proven: Seq<u16>) -> Seq<u16>
    decreases listed.len(),
{
    if listed.len() == 0 {
        Seq::empty()
    } else {
        let rest = kept_statics(listed.drop_last(), proven);
        if proven.contains(listed.last()) {
            rest.push(listed.last())
        } else {
            rest
        }
    }
}

/// The parameters whose positions `statics` does not list, in order.
pub open spec fn dynamic_params(ps: Seq<Binder>, statics: Seq<u16>) -> Seq<Binder>
    decreases ps.len(),
{
    if ps.len() == 0 {
        Seq::empty()
    } else {
        let rest = dynamic_params(ps.drop_last(), statics);
        if exists|e: int| 0 <= e < statics.len() && statics[e] as int == ps.len() - 1 {
            rest
        } else {
            rest.push(ps.last())
        }
    }
}

/// The variables of `ps`, in order.
pub open spec fn param_vars(ps: Seq<Binder>) -> Seq<Tm> {
    Seq::new(ps.len(), |k: int| Tm::Var(ps[k].name))
}

/// The knot of a single recursive function: `\s. s s` applied to the worker
/// `\s dynamic... . body`, whose body is delayed when it takes no dynamic
/// parameter.
pub open spec fn knot_of(s: Binder, dynamic: Seq<Binder>, body: Tm) -> Tm {
    let raw = Tm::App(Box::new(Tm::Var(s.name)), seq![Tm::Var(s.name)]);
    let worker = if dynamic.len() == 0 {
        Tm::Delay(Box::new(body))
    } else {
        body
    };
    Tm::App(Box::new(Tm::Lam(seq![s], Box::new(raw))), seq![Tm::Lam(seq![s] + dynamic, Box::new(worker))])
}

/// What a single recursive function `m` is bound to once its recursion is
/// removed, with `s` the worker's self parameter and `body` the worker's
/// rewritten body: the knot itself when no parameter is static, otherwise a
/// function of all the parameters that ties the knot and passes the dynamic
/// ones on (forcing the knot when there are none).
pub open spec fn single_definition(m: RecTm, s: Binder, body: Tm) -> Tm {
    let statics = kept_statics(m.static_params, spec_static_params(m.binder.name.unique, binder_uniques(m.params), m.body));
    let dynamic = dynamic_params(m.params, statics);
    let k = knot_of(s, dynamic, body);
    if statics.len() == 0 {
        k
    } else {
        Tm::Lam(
            m.params,
            Box::new(
                if dynamic.len() == 0 {
                    Tm::Force(Box::new(k))
                } else {
                    Tm::App(Box::new(k), param_vars(dynamic))
                },
            ),
        )
    }
}

/// `a` is the alias of member `k` of a group of `n` around the dispatcher
/// `cycle`: over fresh copies of the member's `arity` parameters, `cycle`
/// applied to itself and to the selector of the `k`-th arm, then to the
/// parameters.
pub open spec fn member_alias(a: Tm, cycle: Binder, k: int, n: nat, arity: nat) -> bool {
    exists|qs: Seq<Binder>, picks: Seq<Binder>|
        qs.len() == arity && picks.len() == n && a == Tm::Lam(
            qs,
            Box::new(
                Tm::App(
                    Box::new(
                        Tm::App(
                            Box::new(Tm::Var(cycle.name)),
                            seq![Tm::Var(cycle.name), Tm::Lam(picks, Box::new(Tm::Var(picks[k].name)))],
                        ),
                    ),
                    param_vars(qs),
                ),
            ),
        )
}

/// `d` is the dispatcher of the group `rbs` bound to `cycle`: a function of
/// `cycle` and a selector that applies the selector to one arm per member,
/// each a function of that member's parameters.
pub open spec fn dispatcher_of(d: Tm, cycle: Binder, rbs: Seq<RecTm>) -> bool {
    exists|sel: Binder, arms: Seq<Tm>|
        arms.len() == rbs.len() && d == Tm::Lam(seq![cycle, sel], Box::new(Tm::App(Box::new(Tm::Var(sel.name)), arms)))
            && forall|k: int| 0 <= k < arms.len() ==> (#[trigger] arms[k] matches Tm::Lam(ps, _) && ps == rbs[k].params)
}


/// The members of a recursive group bind pairwise distinct names.
pub open spec fn distinct_group(rbs: Seq<RecTm>) -> bool {
    forall|j: int, k: int|
        0 <= j < k < rbs.len() ==> rbs[j].binder.name.unique != rbs[k].binder.name.unique
}

/// Every recursive group of `t` can be removed: each non-empty group has
/// members that all take parameters and bind distinct names.
pub open spec fn groups_ok(t: Tm) -> bool
    decreases t,
{
    match t {
        Tm::Var(_) => true,
        Tm::Lit(_) => true,
        Tm::Error => true,
        Tm::Lam(_, b) => groups_ok(*b),
        Tm::App(f, args) => groups_ok(*f) && forall|i: int| 0 <= i < args.len() ==> groups_ok(#[trigger] args[i]),
        Tm::Let(_, v, b) => groups_ok(*v) && groups_ok(*b),
        Tm::LetRec(rbs, body) => groups_ok(*body) && (forall|k: int|
            0 <= k < rbs.len() ==> groups_ok(#[trigger] rbs[k].body)) && (rbs.len() > 0 ==> (forall|k: int|
            0 <= k < rbs.len() ==> (#[trigger] rbs[k]).params.len() > 0) && distinct_group(rbs)),
        Tm::Case(_, s, bs, d) => groups_ok(*s) && (forall|i: int|
            0 <= i < bs.len() ==> groups_ok(#[trigger] bs[i].body)) && match d {
            Some(x) => groups_ok(*x),
            None => true,
        },
        Tm::Constr(_, fs) => forall|i: int| 0 <= i < fs.len() ==> groups_ok(#[trigger] fs[i]),
        Tm::Field(r, _, _) => groups_ok(*r),
        Tm::Builtin(_, args) => forall|i: int| 0 <= i < args.len() ==> groups_ok(#[trigger] args[i]),
        Tm::Cast(_, _, _, a) => groups_ok(*a),
        Tm::Trace(m, b) => groups_ok(*m) && groups_ok(*b),
        Tm::Delay(b) => groups_ok(*b),
        Tm::Force(b) => groups_ok(*b),
    }
}

/// A recursive group that cannot be removed, and why: a member without
/// parameters, or a name bound twice.
pub open spec fn group_fault(rbs: Seq<RecTm>, e: Error) -> bool {
    &&& rbs.len() > 0
    &&& match e {
        Error::RecursiveValue => exists|k: int| 0 <= k < rbs.len() && (#[trigger] rbs[k]).params.len() == 0,
        Error::DuplicateBinder => !distinct_group(rbs),
    }
}

/// `t` is a recursive group with a member that takes no parameters: a
/// value defined in terms of itself, which removal rejects before anything
/// else.
pub open spec fn valueless_group(t: Tm) -> bool {
    t matches Tm::LetRec(rbs, _) && exists|k: int| 0 <= k < rbs.len() && (#[trigger] rbs[k]).params.len() == 0
}

/// Some recursive group of `t`, at any depth, cannot be removed for the
/// reason `e`.
pub open spec fn fault(t: Tm, e: Error) -> bool
    decreases t,
{
    match t {
        Tm::Var(_) => false,
        Tm::Lit(_) => false,
        Tm::Error => false,
        Tm::Lam(_, b) => fault(*b, e),
        Tm::App(f, args) => fault(*f, e) || fault_list(args, e),
        Tm::Let(_, v, b) => fault(*v, e) || fault(*b, e),
        Tm::LetRec(rbs, body) => group_fault(rbs, e) || fault(*body, e) || fault_members(rbs, e),
        Tm::Case(_, s, bs, d) => fault(*s, e) || fault_branches(bs, e) || match d {
            Some(x) => fault(*x, e),
            None => false,
        },
        Tm::Constr(_, fs) => fault_list(fs, e),
        Tm::Field(r, _, _) => fault(*r, e),
        Tm::Builtin(_, args) => fault_list(args, e),
        Tm::Cast(_, _, _, a) => fault(*a, e),
        Tm::Trace(m, b) => fault(*m, e) || fault(*b, e),
        Tm::Delay(b) => fault(*b, e),
        Tm::Force(b) => fault(*b, e),
    }
}

pub open spec fn fault_list(s: Seq<Tm>, e: Error) -> bool
    decreases s,
{
    if s.len() == 0 {
        false
    } else {
        fault_list(s.drop_last(), e) || fault(s.last(), e)
    }
}

pub open spec fn fault_branches(s: Seq<BranchTm>, e: Error) -> bool
    decreases s,
{
    if s.len() == 0 {
        false
    } else {
        fault_branches(s.drop_last(), e) || fault(s.last().body, e)
    }
}

pub open spec fn fault_members(s: Seq<RecTm>, e: Error) -> bool
    decreases s,
{
    if s.len() == 0 {
        false
    } else {
        fault_members(s.drop_last(), e) || fault(s.last().body, e)
    }
}

proof fn lemma_fault_list(s: Seq<Tm>, e: Error, i: int)
    requires
        0 <= i < s.len(),
        fault(s[i], e),
    ensures
        fault_list(s, e),
    decreases s.len(),
{
    if i < s.len() - 1 {
        assert(s.drop_last()[i] == s[i]);
        lemma_fault_list(s.drop_last(), e, i);
    }
}

proof fn lemma_fault_branches(s: Seq<BranchTm>, e: Error, i: int)
    requires
        0 <= i < s.len(),
        fault(s[i].body, e),
    ensures
        fault_branches(s, e),
    decreases s.len(),
{
    if i < s.len() - 1 {
        assert(s.drop_last()[i] == s[i]);
        lemma_fault_branches(s.drop_last(), e, i);
    }
}

proof fn lemma_fault_members(s: Seq<RecTm>, e: Error, i: int)
    requires
        0 <= i < s.len(),
        fault(s[i].body, e),
    ensures
        fault_members(s, e),
    decreases s.len(),
{
    if i < s.len() - 1 {
        assert(s.drop_last()[i] == s[i]);
        lemma_fault_members(s.drop_last(), e, i);
    }
}

/// How many fresh names removing the groups of `t` takes at most: a single
/// recursive function takes one for its self argument and one per parameter
/// for its eta expansion; a group of `n` takes two for its cycle and
/// selector, and per member `n` selector parameters and one per parameter.
pub open spec fn demand(t: Tm) -> nat
    decreases t,
{
    match t {
        Tm::Var(_) => 0,
        Tm::Lit(_) => 0,
        Tm::Error => 0,
        Tm::Lam(_, b) => demand(*b),
        Tm::App(f, args) => demand(*f) + sum(demands(args)),
        Tm::Let(_, v, b) => demand(*v) + demand(*b),
        Tm::LetRec(rbs, body) => demand(*body) + if rbs.len() == 0 {
            0
        } else if rbs.len() == 1 {
            1 + rbs[0].params.len() + demand(rbs[0].body)
        } else {
            2 + sum(member_demands(rbs))
        },
        Tm::Case(_, s, bs, d) => demand(*s) + sum(branch_demands(bs)) + match d {
            Some(x) => demand(*x),
            None => 0,
        },
        Tm::Constr(_, fs) => sum(demands(fs)),
        Tm::Field(r, _, _) => demand(*r),
        Tm::Builtin(_, args) => sum(demands(args)),
        Tm::Cast(_, _, _, a) => demand(*a),
        Tm::Trace(m, b) => demand(*m) + demand(*b),
        Tm::Delay(b) => demand(*b),
        Tm::Force(b) => demand(*b),
    }
}

pub open spec fn demands(s: Seq<Tm>) -> Seq<nat>
    decreases s,
{
    Seq::new(
        s.len(),
        |i: int|
            if 0 <= i < s.len() {
                demand(s[i])
            } else {
                0
            },
    )
}

pub open spec fn branch_demands(bs: Seq<BranchTm>) -> Seq<nat>
    decreases bs,
{
    Seq::new(
        bs.len(),
        |i: int|
            if 0 <= i < bs.len() {
                demand(bs[i].body)
            } else {
                0
            },
    )
}

pub open spec fn member_demands(rbs: Seq<RecTm>) -> Seq<nat>
    decreases rbs,
{
    Seq::new(
        rbs.len(),
        |i: int|
            if 0 <= i < rbs.len() {
                rbs.len() + rbs[i].params.len() + demand(rbs[i].body)
            } else {
                0
            },
    )
}

/// How many names `t` mentions, counted with repetition: each variable and
/// each binder.
pub open spec fn name_count(t: Tm) -> nat
    decreases t,
{
    match t {
        Tm::Var(_) => 1,
        Tm::Lit(_) => 0,
        Tm::Error => 0,
        Tm::Lam(ps, b) => ps.len() + name_count(*b),
        Tm::App(f, args) => name_count(*f) + sum(name_counts(args)),
        Tm::Let(_, v, b) => 1 + name_count(*v) + name_count(*b),
        Tm::LetRec(rbs, body) => name_count(*body) + sum(member_name_counts(rbs)),
        Tm::Case(_, s, bs, d) => name_count(*s) + sum(branch_name_counts(bs)) + match d {
            Some(x) => name_count(*x),
            None => 0,
        },
        Tm::Constr(_, fs) => sum(name_counts(fs)),
        Tm::Field(r, _, _) => name_count(*r),
        Tm::Builtin(_, args) => sum(name_counts(args)),
        Tm::Cast(_, _, _, a) => name_count(*a),
        Tm::Trace(m, b) => name_count(*m) + name_count(*b),
        Tm::Delay(b) => name_count(*b),
        Tm::Force(b) => name_count(*b),
    }
}

pub open spec fn name_counts(s: Seq<Tm>) -> Seq<nat>
    decreases s,
{
    Seq::new(
        s.len(),
        |i: int|
            if 0 <= i < s.len() {
                name_count(s[i])
            } else {
                0
            },
    )
}

pub open spec fn member_name_counts(rbs: Seq<RecTm>) -> Seq<nat>
    decreases rbs,
{
    Seq::new(
        rbs.len(),
        |i: int|
            if 0 <= i < rbs.len() {
                1 + rbs[i].params.len() + name_count(rbs[i].body)
            } else {
                0
            },
    )
}

pub open spec fn branch_name_counts(bs: Seq<BranchTm>) -> Seq<nat>
    decreases bs,
{
    Seq::new(
        bs.len(),
        |i: int|
            if 0 <= i < bs.len() {
                bs[i].binders.len() + name_count(bs[i].body)
            } else {
                0
            },
    )
}

/// Appends the uniques of `bs` to `out`.
fn collect_binders(bs: &Vec<Binder>, out: &mut Vec<u32>)
    ensures
        final(out)@ == old(out)@ + binder_uniques(bs@),
{
    let ghost o = out@;
    let mut i: usize = 0;
    while i < bs.len()
        invariant
            i <= bs@.len(),
            out@ == o + binder_uniques(bs@).take(i as int),
        decreases bs@.len() - i,
    {
        out.push(bs[i].name.unique);
        i += 1;
        assert(out@ =~= o + binder_uniques(bs@).take(i as int));
    }
    assert(binder_uniques(bs@).take(i as int) =~= binder_uniques(bs@));
}

/// Appends every unique that `items` mention to `out`.
fn collect_list(items: &Vec<Core>, out: &mut Vec<u32>)
    ensures
        final(out)@.len() == old(out)@.len() + sum(name_counts(views(items@))),
    decreases items, 0nat,
{
    let ghost c = name_counts(views(items@));
    let mut i: usize = 0;
    while i < items.len()
        invariant
            i <= items@.len(),
            c == name_counts(views(items@)),
            c.len() == items@.len(),
            out@.len() == old(out)@.len() + sum(c.take(i as int)),
        decreases items@.len() - i,
    {
        proof {
            assert(decreases_to!(*items => items[i as int]));
            lemma_sum_take(c, i as int);
            assert(c[i as int] == name_count(items@[i as int]@));
        }
        collect_names(&items[i], out);
        i += 1;
    }
    assert(c.take(i as int) =~= c);
}

/// Appends every unique that `core` mentions, binders and variables, to
/// `out`.
fn collect_names(core: &Core, out: &mut Vec<u32>)
    ensures
        final(out)@.len() == old(out)@.len() + name_count(core@),
    decreases core, 1nat,
{
    proof {
        lemma_views(*core);
    }
    match core {
        Core::Var(n) => {
            out.push(n.unique);
        },
        Core::Lit(_) => {},
        Core::Error => {},
        Core::Lam { params, body } => {
            collect_binders(params, out);
            collect_names(body, out);
        },
        Core::App { func, args } => {
            collect_names(func, out);
            collect_list(args, out);
        },
        Core::Let { binder, value, body } => {
            out.push(binder.name.unique);
            collect_names(value, out);
            collect_names(body, out);
        },
        Core::LetRec { binders, body } => {
            collect_names(body, out);
            let ghost gv = group_views(binders@);
            let ghost c = member_name_counts(gv);
            let ghost o = out@;
            let mut k: usize = 0;
            while k < binders.len()
                invariant
                    k <= binders@.len(),
                    gv == group_views(binders@),
                    c == member_name_counts(gv),
                    c.len() == binders@.len(),
                    out@.len() == o.len() + sum(c.take(k as int)),
                    core is LetRec,
                    (*core)->LetRec_binders == *binders,
                decreases binders@.len() - k,
            {
                proof {
                    lemma_sum_take(c, k as int);
                    assert(gv[k as int] == binders@[k as int]@);
                    assert(c[k as int] == 1 + binders@[k as int].params@.len() + name_count(binders@[k as int].body@));
                    assert(decreases_to!(*core => (*core)->LetRec_binders));
                    assert(decreases_to!(*binders => binders@));
                    assert(decreases_to!(binders@ => binders@[k as int]));
                    assert(decreases_to!(binders@[k as int] => binders@[k as int].body));
                }
                out.push(binders[k].binder.name.unique);
                collect_binders(&binders[k].params, out);
                collect_names(&binders[k].body, out);
                k += 1;
            }
            assert(c.take(k as int) =~= c);
        },
        Core::Case { scrutinee, branches, default, .. } => {
            collect_names(scrutinee, out);
            let ghost bv = branch_views(branches@);
            let ghost c = branch_name_counts(bv);
            let ghost o = out@;
            let mut i: usize = 0;
            while i < branches.len()
                invariant
                    i <= branches@.len(),
                    bv == branch_views(branches@),
                    c == branch_name_counts(bv),
                    c.len() == branches@.len(),
                    out@.len() == o.len() + sum(c.take(i as int)),
                    core is Case,
                    (*core)->Case_branches == *branches,
                decreases branches@.len() - i,
            {
                proof {
                    lemma_sum_take(c, i as int);
                    assert(bv[i as int] == branches@[i as int]@);
                    assert(decreases_to!(*core => (*core)->Case_branches));
                    assert(decreases_to!(*branches => branches@));
                    assert(decreases_to!(branches@ => branches@[i as int]));
                    assert(decreases_to!(branches@[i as int] => branches@[i as int].body));
                }
                collect_binders(&branches[i].binders, out);
                collect_names(&branches[i].body, out);
                i += 1;
            }
            assert(c.take(i as int) =~= c);
            match default {
                Some(d) => {
                    collect_names(d, out);
                },
                None => {},
            }
        },
        Core::Constr { fields, .. } => {
            collect_list(fields, out);
        },
        Core::Field { record, .. } => {
            collect_names(record, out);
        },
        Core::Builtin { args, .. } => {
            collect_list(args, out);
        },
        Core::Cast { arg, .. } => {
            collect_names(arg, out);
        },
        Core::Trace { message, body } => {
            collect_names(message, out);
            collect_names(body, out);
        },
        Core::Delay(b) => {
            collect_names(b, out);
        },
        Core::Force(b) => {
            collect_names(b, out);
        },
    }
}

/// What a recursive function's name stands for while its group is removed:
/// the term that replaces a reference, and for the direct calls of a single
/// function, the worker to call and the parameters to leave out.
pub struct Entry {
    pub unique: u32,
    pub value: Core,
    pub direct: Option<(Core, Vec<u16>)>,
}

/// The environment binds `u`.
pub open spec fn env_has(env: Seq<Entry>, u: u32) -> bool {
    exists|i: int| 0 <= i < env.len() && (#[trigger] env[i]).unique == u
}

/// `x` is free in a replacement of the environment.
pub open spec fn env_free(env: Seq<Entry>, x: u32) -> bool {
    exists|i: int|
        0 <= i < env.len() && (free_in((#[trigger] env[i]).value@, x) || (env[i].direct matches Some(d)
            && free_in(d.0@, x)))
}

/// The replacements of the environment hold no recursive group.
pub open spec fn env_clean(env: Seq<Entry>) -> bool {
    forall|i: int|
        0 <= i < env.len() ==> no_letrec((#[trigger] env[i]).value@) && (env[i].direct matches Some(d)
            ==> no_letrec(d.0@))
}

/// Every name free in `r` is free in `t` and not replaced by the
/// environment, or is free in a replacement.
pub open spec fn rewrites_to(r: Tm, t: Tm, env: Seq<Entry>) -> bool {
    forall|x: u32| #[trigger] free_in(r, x) ==> (free_in(t, x) && !env_has(env, x)) || env_free(env, x)
}

/// `t` holds no recursive group and the environment replaces none of its
/// free names: rewriting leaves it as it is.
pub open spec fn untouched(t: Tm, env: Seq<Entry>) -> bool {
    &&& no_letrec(t)
    &&& forall|x: u32| #[trigger] free_in(t, x) ==> !env_has(env, x)
}

/// The body of `b` holds no recursive group, and the environment replaces
/// none of the names free in it beyond the branch's binders.
pub open spec fn branch_clear(b: BranchTm, env: Seq<Entry>) -> bool {
    &&& no_letrec(b.body)
    &&& forall|x: u32| #[trigger] free_in(b.body, x) && !binder_uniques(b.binders).contains(x) ==> !env_has(env, x)
}

/// The parts of a case expression that rewriting leaves as they are.
proof fn lemma_case_untouched(t: Tm, env: Seq<Entry>)
    requires
        t is Case,
        untouched(t, env),
    ensures
        match t {
            Tm::Case(_, s, bs, d) => untouched(*s, env) && (forall|k: int| 0 <= k < bs.len() ==> branch_clear(#[trigger] bs[k], env))
                && (d matches Some(x) ==> untouched(*x, env)),
            _ => true,
        },
{
    match t {
        Tm::Case(_, s, bs, d) => {
            assert forall|x: u32| #[trigger] free_in(*s, x) implies !env_has(env, x) by {
                assert(free_in(t, x));
            }
            assert forall|k: int| 0 <= k < bs.len() implies branch_clear(#[trigger] bs[k], env) by {
                assert(no_letrec(bs[k].body));
                assert forall|x: u32| #[trigger] free_in(bs[k].body, x) && !binder_uniques(bs[k].binders).contains(x) implies !env_has(env, x) by {
                    lemma_free_in_branches(bs, x);
                    assert(free_in(t, x));
                }
            }
            if d is Some {
                assert forall|x: u32| #[trigger] free_in(*d->0, x) implies !env_has(env, x) by {
                    assert(free_in(t, x));
                }
            }
        },
        _ => {},
    }
}

/// The elements of `s` that are at least `n`.
pub open spec fn above(s: Set<u32>, n: u32) -> Set<u32> {
    s.filter(|x: u32| x >= n)
}



/// One step of `above`: `n` itself, then the elements above it.
proof fn lemma_above_step(s: Set<u32>, n: u32)
    requires
        s.finite(),
        n < u32::MAX,
    ensures
        above(s, n).finite(),
        above(s, (n + 1) as u32).finite(),
        s.contains(n) ==> above(s, n).len() == above(s, (n + 1) as u32).len() + 1,
        !s.contains(n) ==> above(s, n).len() == above(s, (n + 1) as u32).len(),
{
    let m = (n + 1) as u32;
    s.lemma_len_filter(|x: u32| x >= n);
    s.lemma_len_filter(|x: u32| x >= m);
    if s.contains(n) {
        assert(above(s, n) =~= above(s, m).insert(n));
    } else {
        assert(above(s, n) =~= above(s, m));
    }
}

/// The worker that direct calls of an entry go to.
pub open spec fn target_of(e: Entry) -> Tm {
    match e.direct {
        Some(d) => d.0@,
        None => Tm::Error,
    }
}

/// The parameters that direct calls of an entry leave out.
pub open spec fn statics_of(e: Entry) -> Seq<u16> {
    match e.direct {
        Some(d) => d.1@,
        None => Seq::empty(),
    }
}

/// A copy of an environment entry.
fn duplicate_entry(e: &Entry) -> (r: Entry)
    ensures
        r.unique == e.unique,
        r.value@ == e.value@,
        r.direct is Some <==> e.direct is Some,
        r.direct matches Some(d) ==> d.0@ == target_of(*e) && d.1@ == statics_of(*e),
{
    let direct = match &e.direct {
        Some(d) => Some((d.0.duplicate(), duplicate_u16s(&d.1))),
        None => None,
    };
    Entry { unique: e.unique, value: e.value.duplicate(), direct }
}


/// A name found in a prefix of an environment is found there in the whole.
proof fn lemma_find_extend(env: Seq<EntryV>, n: int, u: u32)
    requires
        0 <= n <= env.len(),
        find(env.take(n), u) is Some,
    ensures
        find(env, u) == find(env.take(n), u),
    decreases env.len(),
{
    if n == env.len() {
        assert(env.take(n) =~= env);
    } else {
        assert(env.drop_last().take(n) =~= env.take(n));
        lemma_find_extend(env.drop_last(), n, u);
    }
}

/// The entry for `u`, if the environment has one.
fn lookup(env: &Vec<Entry>, u: u32) -> (r: Option<usize>)
    ensures
        r matches Some(i) ==> i < env@.len() && env@[i as int].unique == u,
        r is None ==> !env_has(env@, u),
        r matches Some(i) ==> find(env_view(env@), u) == Some(entry_view(env@[i as int])),
        r is None ==> find(env_view(env@), u) is None,
{
    let mut i: usize = 0;
    while i < env.len()
        invariant
            i <= env@.len(),
            forall|k: int| 0 <= k < i ==> (#[trigger] env@[k]).unique != u,
            find(env_view(env@.take(i as int)), u) is None,
        decreases env@.len() - i,
    {
        proof {
            assert(env_view(env@.take(i + 1)).drop_last() =~= env_view(env@.take(i as int)));
            assert(env_view(env@.take(i + 1)).last() == entry_view(env@[i as int]));
        }
        if env[i].unique == u {
            proof {
                lemma_find_extend(env_view(env@), i + 1, u);
                assert(env_view(env@).take(i + 1) =~= env_view(env@.take(i + 1)));
            }
            return Some(i);
        }
        i += 1;
    }
    proof {
        assert(env@.take(i as int) =~= env@);
    }
    None
}

/// Whether `names` holds `u`.
fn holds(names: &Vec<u32>, u: u32) -> (r: bool)
    ensures
        r == names@.contains(u),
{
    let mut i: usize = 0;
    while i < names.len()
        invariant
            i <= names@.len(),
            forall|k: int| 0 <= k < i ==> names@[k] != u,
        decreases names@.len() - i,
    {
        if names[i] == u {
            return true;
        }
        i += 1;
    }
    false
}

/// `a` is a copy of `b`.
pub open spec fn mirrors(a: Entry, b: Entry) -> bool {
    &&& a.unique == b.unique
    &&& a.value@ == b.value@
    &&& (a.direct is Some <==> b.direct is Some)
    &&& target_of(a) == target_of(b)
}

/// The environment without entries for `names`.
fn without(env: &Vec<Entry>, names: &Vec<u32>) -> (r: Vec<Entry>)
    ensures
        forall|u: u32| env_has(r@, u) <==> (env_has(env@, u) && !names@.contains(u)),
        forall|x: u32| env_free(r@, x) ==> env_free(env@, x),
        env_clean(env@) ==> env_clean(r@),
        env_view(r@) == minus(env_view(env@), names@),
{
    let mut r: Vec<Entry> = Vec::new();
    let ghost mut src: Seq<int> = Seq::empty();
    let ghost mut pos: Seq<int> = Seq::empty();
    let mut i: usize = 0;
    while i < env.len()
        invariant
            i <= env@.len(),
            src.len() == r@.len(),
            pos.len() == i,
            forall|k: int|
                0 <= k < r@.len() ==> 0 <= #[trigger] src[k] < i && mirrors(r@[k], env@[src[k]]) && !names@.contains(
                    env@[src[k]].unique,
                ),
            forall|j: int|
                0 <= j < i && !names@.contains(env@[j].unique) ==> 0 <= #[trigger] pos[j] < r@.len() && src[pos[j]]
                    == j,
            env_view(r@) == minus(env_view(env@.take(i as int)), names@),
        decreases env@.len() - i,
    {
        proof {
            assert(env_view(env@.take(i + 1)).drop_last() =~= env_view(env@.take(i as int)));
            assert(env_view(env@.take(i + 1)).last() == entry_view(env@[i as int]));
        }
        if !holds(names, env[i].unique) {
            let e = duplicate_entry(&env[i]);
            proof {
                pos = pos.push(r@.len() as int);
                src = src.push(i as int);
            }
            let ghost rb = r@;
            r.push(e);
            proof {
                assert(entry_view(e) == entry_view(env@[i as int]));
                assert(env_view(r@) =~= env_view(rb).push(entry_view(e)));
            }
        } else {
            proof {
                pos = pos.push(-1);
            }
        }
        i += 1;
    }
    proof {
        assert(env@.take(i as int) =~= env@);
        assert forall|u: u32| env_has(r@, u) <==> (env_has(env@, u) && !names@.contains(u)) by {
            if env_has(r@, u) {
                let k = choose|k: int| 0 <= k < r@.len() && (#[trigger] r@[k]).unique == u;
                assert(mirrors(r@[k], env@[src[k]]));
            }
            if env_has(env@, u) && !names@.contains(u) {
                let j = choose|j: int| 0 <= j < env@.len() && (#[trigger] env@[j]).unique == u;
                assert(0 <= pos[j] < r@.len() && src[pos[j]] == j);
                assert(mirrors(r@[pos[j]], env@[j]));
            }
        }
        assert forall|x: u32| env_free(r@, x) implies env_free(env@, x) by {
            let k = choose|k: int|
                0 <= k < r@.len() && (free_in((#[trigger] r@[k]).value@, x) || (r@[k].direct matches Some(d)
                    && free_in(d.0@, x)));
            let j = src[k];
            assert(mirrors(r@[k], env@[j]));
            assert(free_in(env@[j].value@, x) || (env@[j].direct matches Some(d) && free_in(d.0@, x)));
        }
        if env_clean(env@) {
            assert forall|k: int| 0 <= k < r@.len() implies no_letrec((#[trigger] r@[k]).value@) && (r@[k].direct matches Some(d)
                ==> no_letrec(d.0@)) by {
                let j = src[k];
                assert(mirrors(r@[k], env@[j]));
                assert(no_letrec(env@[j].value@));
            }
        }
    }
    r
}

/// `self self`: the self-application of a knot.
fn self_call_of(b: &Binder) -> (r: Core)
    ensures
        r@ == Tm::App(Box::new(Tm::Var(b.name)), seq![Tm::Var(b.name)]),
{
    let args = vec![Core::Var(b.name.duplicate())];
    let r = Core::App { func: Box::new(Core::Var(b.name.duplicate())), args };
    proof {
        lemma_views(r);
        assert(args@[0]@ == Tm::Var(b.name));
        assert(views(args@) =~= seq![Tm::Var(b.name)]);
    }
    r
}

/// The fresh names each member of a group takes for its alias: the
/// selector parameters and the eta expansion.
pub open spec fn alias_costs(rbs: Seq<RecTm>) -> Seq<nat> {
    Seq::new(rbs.len(), |i: int| rbs.len() + rbs[i].params.len())
}

/// The fresh names the body of each member of a group takes.
pub open spec fn body_costs(rbs: Seq<RecTm>) -> Seq<nat> {
    Seq::new(rbs.len(), |i: int| demand(rbs[i].body))
}

/// The sum of pointwise sums.
pub proof fn lemma_sum_add(a: Seq<nat>, b: Seq<nat>, c: Seq<nat>)
    requires
        a.len() == b.len(),
        b.len() == c.len(),
        forall|i: int| 0 <= i < c.len() ==> c[i] == a[i] + b[i],
    ensures
        sum(c) == sum(a) + sum(b),
    decreases c.len(),
{
    if c.len() > 0 {
        lemma_sum_add(a.drop_last(), b.drop_last(), c.drop_last());
    }
}

proof fn lemma_member_split(rbs: Seq<RecTm>)
    ensures
        sum(member_demands(rbs)) == sum(alias_costs(rbs)) + sum(body_costs(rbs)),
{
    lemma_sum_add(alias_costs(rbs), body_costs(rbs), member_demands(rbs));
}

/// A replacement for a member of a group: closed but for the cycle, and free
/// of recursive groups.
pub open spec fn alias_ok(a: Tm, cycle: u32) -> bool {
    &&& no_letrec(a)
    &&& forall|x: u32| #[trigger] free_in(a, x) ==> x == cycle
}

/// `cycle cycle selector`: a call through the dispatcher.
fn cycle_call(cycle: &Binder, selector: Core) -> (r: Core)
    requires
        no_letrec(selector@),
        forall|x: u32| !free_in(selector@, x),
    ensures
        no_letrec(r@),
        forall|x: u32| #[trigger] free_in(r@, x) ==> x == cycle.name.unique,
        r@ == Tm::App(Box::new(Tm::Var(cycle.name)), seq![Tm::Var(cycle.name), selector@]),
{
    let args = vec![Core::Var(cycle.name.duplicate()), selector];
    let ghost gs = args@[1]@;
    let r = Core::App { func: Box::new(Core::Var(cycle.name.duplicate())), args };
    proof {
        lemma_views(r);
        assert(views(args@) =~= seq![Tm::Var(cycle.name), gs]);
        assert forall|x: u32| #[trigger] free_in(r@, x) implies x == cycle.name.unique by {
            lemma_free_in_list(views(args@), x);
            if free_in_list(views(args@), x) {
                let k = choose|k: int| 0 <= k < views(args@).len() && free_in(#[trigger] views(args@)[k], x);
                if k == 1 {
                    assert(free_in(gs, x));
                }
            }
        }
        assert forall|k: int| 0 <= k < views(args@).len() implies no_letrec(#[trigger] views(args@)[k]) by {
            if k == 1 {
                assert(views(args@)[k] == gs);
            }
        }
    }
    r
}

/// Whether `indices` names position `k`.
fn names_index(indices: &Vec<u16>, k: usize) -> (r: bool)
    ensures
        r == exists|e: int| 0 <= e < indices@.len() && indices@[e] as int == k as int,
{
    let mut e: usize = 0;
    while e < indices.len()
        invariant
            e <= indices@.len(),
            forall|j: int| 0 <= j < e ==> indices@[j] as int != k as int,
        decreases indices@.len() - e,
    {
        if indices[e] as usize == k {
            return true;
        }
        e += 1;
    }
    false
}

/// The uniques of a list of binders.
fn uniques_of(bs: &Vec<Binder>) -> (r: Vec<u32>)
    ensures
        r@ == binder_uniques(bs@),
{
    let mut r: Vec<u32> = Vec::new();
    let mut i: usize = 0;
    while i < bs.len()
        invariant
            i <= bs@.len(),
            r@ == binder_uniques(bs@).take(i as int),
        decreases bs@.len() - i,
    {
        r.push(bs[i].name.unique);
        i += 1;
        assert(r@ =~= binder_uniques(bs@).take(i as int));
    }
    assert(binder_uniques(bs@).take(i as int) =~= binder_uniques(bs@));
    r
}



/// An arm of a dispatcher: free of recursive groups, and every name free
/// in it is free in the member's body, not a parameter and not replaced by
/// `renv`, or free in a replacement of `renv`.
pub open spec fn arm_ok(a: Tm, m: RecTm, renv: Seq<Entry>) -> bool {
    &&& a matches Tm::Lam(ps, w) && ps == m.params && rewritten(m.body, *w, minus(env_view(renv), binder_uniques(m.params)))
    &&& no_letrec(a)
    &&& forall|x: u32| #[trigger] free_in(a, x) ==> (!binder_uniques(m.params).contains(x) && free_in(m.body, x)
        && !env_has(renv, x)) || env_free(renv, x)
}

/// `let f0 = a0 in .. let fn-1 = an-1 in continuation`: binds each member
/// of a group to its alias.
fn chain(binders: &Vec<RecBinder>, aliases: Vec<Core>, continuation: Core, cycle: &Binder) -> (r: Core)
    requires
        aliases@.len() == binders@.len(),
        forall|k: int| 0 <= k < aliases@.len() ==> #[trigger] alias_ok(aliases@[k]@, cycle.name.unique),
        no_letrec(continuation@),
    ensures
        no_letrec(r@),
        forall|x: u32| #[trigger] free_in(r@, x) ==> x == cycle.name.unique || (free_in(continuation@, x)
            && !group_uniques(group_views(binders@)).contains(x)),
        binds_members(r@, group_views(binders@)),
        peel(r@, binders@.len() as nat) == continuation@,
        forall|k: int| 0 <= k < binders@.len() ==> (#[trigger] peel(r@, k as nat) matches Tm::Let(_, a, _) && *a == aliases@[k]@),
{
    let ghost av = aliases@;
    let ghost gv = group_views(binders@);
    let ghost cv = cycle.name.unique;
    let mut aliases = aliases;
    let mut result = continuation;
    let mut j: usize = binders.len();
    while j > 0
        invariant
            j <= binders@.len(),
            gv == group_views(binders@),
            aliases@.len() == j,
            forall|k: int| 0 <= k < j ==> #[trigger] alias_ok(aliases@[k]@, cv),
            no_letrec(result@),
            forall|x: u32| #[trigger] free_in(result@, x) ==> x == cv || (free_in(continuation@, x) && forall|k: int|
                j <= k < gv.len() ==> #[trigger] gv[k].binder.name.unique != x),
            forall|k: int| j <= k < gv.len() ==> (#[trigger] peel(result@, (k - j) as nat) matches Tm::Let(y, _, _) && y == gv[k].binder),
            peel(result@, (gv.len() - j) as nat) == continuation@,
            av.len() == gv.len(),
            forall|k: int| 0 <= k < j ==> aliases@[k] == av[k],
            forall|k: int| j <= k < gv.len() ==> (#[trigger] peel(result@, (k - j) as nat) matches Tm::Let(_, a, _) && *a == av[k]@),
        decreases j,
    {
        j -= 1;
        let ghost before = aliases@;
        let v = match aliases.pop() {
            Some(v) => v,
            None => Core::Error,
        };
        proof {
            assert(v == before[j as int]);
            assert(alias_ok(v@, cv));
            assert forall|k: int| 0 <= k < j implies #[trigger] alias_ok(aliases@[k]@, cv) by {
                assert(aliases@[k] == before[k]);
            }
        }
        let ghost gv_v = v@;
        let ghost gr = result@;
        result = Core::Let { binder: binders[j].binder.duplicate(), value: Box::new(v), body: Box::new(result) };
        proof {
            assert(gv[j as int] == binders@[j as int]@);
            assert(result@ == Tm::Let(binders@[j as int].binder, Box::new(gv_v), Box::new(gr)));
            assert forall|k: int| j <= k < gv.len() implies (#[trigger] peel(result@, (k - j) as nat) matches Tm::Let(y, _, _) && y == gv[k].binder) by {
                if k > j {
                    assert(peel(result@, (k - j) as nat) == peel(gr, (k - (j + 1)) as nat));
                }
            }
            assert forall|k: int| j <= k < gv.len() implies (#[trigger] peel(result@, (k - j) as nat) matches Tm::Let(_, a, _) && *a == av[k]@) by {
                if k > j {
                    assert(peel(result@, (k - j) as nat) == peel(gr, (k - (j + 1)) as nat));
                }
            }
            assert forall|k: int| 0 <= k < j implies aliases@[k] == av[k] by {
                assert(aliases@[k] == before[k]);
            }
            assert(peel(result@, (gv.len() - j) as nat) == peel(gr, (gv.len() - (j + 1)) as nat));
            assert forall|x: u32| #[trigger] free_in(result@, x) implies x == cv || (free_in(continuation@, x) && forall|k: int|
                j <= k < gv.len() ==> #[trigger] gv[k].binder.name.unique != x) by {
                if !free_in(gv_v, x) {
                    assert(free_in(gr, x));
                    assert(binders@[j as int].binder.name.unique != x);
                }
            }
        }
    }
    proof {
        assert forall|k: int| 0 <= k < gv.len() implies (#[trigger] peel(result@, k as nat) matches Tm::Let(y, _, _) && y == gv[k].binder) by {
            assert(peel(result@, (k - 0) as nat) == peel(result@, k as nat));
        }
        assert forall|k: int| 0 <= k < gv.len() implies (#[trigger] peel(result@, k as nat) matches Tm::Let(_, a, _) && *a == av[k]@) by {
            assert(peel(result@, (k - 0) as nat) == peel(result@, k as nat));
        }
        assert forall|x: u32| #[trigger] free_in(result@, x) implies x == cv || (free_in(continuation@, x)
            && !group_uniques(gv).contains(x)) by {
            if x != cv {
                if group_uniques(gv).contains(x) {
                    let k = choose|k: int| 0 <= k < gv.len() && group_uniques(gv)[k] == x;
                    assert(gv[k].binder.name.unique == x);
                }
            }
        }
    }
    result
}

/// The recursion rewriter: the name supply and every unique already taken,
/// the input's own (`initial`) and those handed out since.
struct Rewriter {
    build: Builder,
    used: HashSet<u32>,
    initial: Ghost<Set<u32>>,
}

impl Rewriter {
    spec fn wf(&self) -> bool {
        &&& self.used@.finite()
        &&& self.initial@.finite()
        &&& self.initial@.subset_of(self.used@)
        &&& forall|x: u32| #[trigger] self.used@.contains(x) ==> self.initial@.contains(x) || x < self.build.next
    }

    /// The supply spent so far plus the input uniques it has yet to skip.
    spec fn potential(&self) -> int {
        self.build.next + above(self.initial@, self.build.next).len()
    }

    /// A name the input does not use and that was not handed out before.
    fn fresh(&mut self, text: &str) -> (b: Binder)
        requires
            old(self).wf(),
            old(self).potential() + 1 < u32::MAX,
        ensures
            final(self).wf(),
            final(self).initial == old(self).initial,
            final(self).potential() <= old(self).potential() + 1,
            !old(self).used@.contains(b.name.unique),
            final(self).used@ == old(self).used@.insert(b.name.unique),
            b.name.text@ == text@,
    {
        let ghost p0 = self.potential();
        loop
            invariant
                self.wf(),
                self.initial == old(self).initial,
                self.used@ == old(self).used@,
                self.potential() == p0,
                p0 == old(self).potential(),
                p0 + 1 < u32::MAX,
            decreases u32::MAX - self.build.next,
        {
            proof {
                lemma_above_step(self.initial@, self.build.next);
                self.initial@.lemma_len_filter(|x: u32| x >= self.build.next);
            }
            let ghost n = self.build.next;
            let name = self.build.fresh(text);
            if !self.used.contains(&name.unique) {
                self.used.insert(name.unique);
                proof {
                    assert(!self.initial@.contains(n));
                    assert forall|x: u32| #[trigger] self.used@.contains(x) implies self.initial@.contains(x) || x
                        < self.build.next by {
                        if x != n {
                            assert(old(self).used@.contains(x));
                        }
                    }
                }
                return Binder { name, ty: Ty::Erased };
            }
            proof {
                assert(self.initial@.contains(n));
            }
        }
    }

    /// `func` eta-expanded over fresh copies of `params`.
    fn eta(&mut self, func: Core, params: &Vec<Binder>) -> (r: Core)
        requires
            old(self).wf(),
            old(self).potential() + params@.len() + 1 < u32::MAX,
        ensures
            final(self).wf(),
            final(self).initial == old(self).initial,
            final(self).potential() <= old(self).potential() + params@.len(),
            forall|x: u32| #[trigger] free_in(r@, x) ==> free_in(func@, x),
            no_letrec(func@) ==> no_letrec(r@),
            exists|qs: Seq<Binder>| qs.len() == params@.len() && r@ == Tm::Lam(qs, Box::new(Tm::App(Box::new(func@), param_vars(qs)))),
    {
        let ghost p0 = self.potential();
        let mut ps: Vec<Binder> = Vec::new();
        let mut args: Vec<Core> = Vec::new();
        let mut i: usize = 0;
        while i < params.len()
            invariant
                i <= params@.len(),
                self.wf(),
                self.initial == old(self).initial,
                self.potential() <= p0 + i,
                p0 == old(self).potential(),
                p0 + params@.len() + 1 < u32::MAX,
                ps@.len() == i,
                args@.len() == i,
                forall|k: int| 0 <= k < i ==> (#[trigger] args@[k])@ == Tm::Var(ps@[k].name),
            decreases params@.len() - i,
        {
            let b = self.fresh(&params[i].name.text);
            let fresh_binder = Binder { name: b.name, ty: params[i].ty.duplicate() };
            args.push(Core::Var(fresh_binder.name.duplicate()));
            ps.push(fresh_binder);
            i += 1;
        }
        let app = Core::App { func: Box::new(func), args };
        let r = Core::Lam { params: ps, body: Box::new(app) };
        proof {
            lemma_views(app);
            assert(app@ == Tm::App(Box::new(func@), views(args@)));
            assert(r@ == Tm::Lam(ps@, Box::new(app@)));
            assert forall|x: u32| free_in(r@, x) implies free_in(func@, x) by {
                assert(free_in(r@, x) == (!binder_uniques(ps@).contains(x) && free_in(app@, x)));
                assert(free_in(app@, x) == (free_in(func@, x) || free_in_list(views(args@), x)));
                if !free_in(func@, x) {
                    lemma_free_in_list(views(args@), x);
                    if free_in_list(views(args@), x) {
                        let k = choose|k: int| 0 <= k < views(args@).len() && free_in(#[trigger] views(args@)[k], x);
                        assert(views(args@)[k] == args@[k]@);
                        assert(views(args@)[k] == Tm::Var(ps@[k].name));
                        assert(binder_uniques(ps@)[k] == x);
                        assert(binder_uniques(ps@).contains(x));
                    }
                }
            }
            assert forall|k: int| 0 <= k < views(args@).len() implies no_letrec(#[trigger] views(args@)[k]) by {
                assert(views(args@)[k] == args@[k]@);
                assert(args@[k]@ == Tm::Var(ps@[k].name));
            }
            if no_letrec(func@) {
                assert(no_letrec(app@));
                assert(no_letrec(r@));
            }
            assert(views(args@) =~= param_vars(ps@)) by {
                assert forall|k: int| 0 <= k < ps@.len() implies views(args@)[k] == param_vars(ps@)[k] by {
                    assert(views(args@)[k] == args@[k]@);
                }
            }
        }
        r
    }
}



/// Entries with the same names and replacements that are all free of
/// recursive groups.
proof fn lemma_rewrites_list(rs: Seq<Tm>, ts: Seq<Tm>, env: Seq<Entry>)
    requires
        rs.len() == ts.len(),
        forall|i: int| 0 <= i < rs.len() ==> rewrites_to(#[trigger] rs[i], ts[i], env),
    ensures
        forall|x: u32|
            free_in_list(rs, x) ==> (free_in_list(ts, x) && !env_has(env, x)) || env_free(env, x),
{
    assert forall|x: u32| free_in_list(rs, x) implies (free_in_list(ts, x) && !env_has(env, x)) || env_free(env, x) by {
        lemma_free_in_list(rs, x);
        lemma_free_in_list(ts, x);
        let i = choose|i: int| 0 <= i < rs.len() && free_in(#[trigger] rs[i], x);
        assert(rewrites_to(rs[i], ts[i], env));
        if !env_free(env, x) {
            assert(free_in(ts[i], x));
        }
    }
}

impl Rewriter {
    /// `self` spent at most `d` of the supply since `old`.
    spec fn spent_from(&self, old: Rewriter, d: nat) -> bool {
        &&& self.wf()
        &&& self.initial == old.initial
        &&& self.potential() <= old.potential() + d
    }

    /// Rewrite each of `items`.
    fn terms(&mut self, items: &Vec<Core>, env: &Vec<Entry>) -> (res: Result<Vec<Core>, Error>)
        requires
            old(self).wf(),
            old(self).potential() + sum(demands(views(items@))) + 1 < u32::MAX,
            env_clean(env@),
        ensures
            (forall|i: int| 0 <= i < items@.len() ==> groups_ok(#[trigger] items@[i]@)) ==> res is Ok,
            res matches Ok(v) ==> v@.len() == items@.len() && forall|i: int|
                0 <= i < items@.len() ==> no_letrec((#[trigger] v@[i])@) && rewrites_to(v@[i]@, items@[i]@, env@),
            res matches Ok(v) ==> forall|i: int| 0 <= i < items@.len() ==> rewritten(#[trigger] items@[i]@, v@[i]@, env_view(env@)),
            res matches Err(e) ==> fault_list(views(items@), e),
            (forall|i: int| 0 <= i < items@.len() ==> untouched(#[trigger] items@[i]@, env@)) ==> (res matches Ok(v) && views(v@) == views(items@)),
            final(self).spent_from(*old(self), sum(demands(views(items@)))),
        decreases items, 4nat,
    {
        let ghost s = views(items@);
        let ghost c = demands(s);
        let ghost p0 = self.potential();
        let mut out: Vec<Core> = Vec::new();
        let mut i: usize = 0;
        while i < items.len()
            invariant
                i <= items@.len(),
                s == views(items@),
                c == demands(s),
                c.len() == s.len(),
                self.spent_from(*old(self), sum(c.take(i as int))),
                p0 == old(self).potential(),
                p0 + sum(c) + 1 < u32::MAX,
                env_clean(env@),
                out@.len() == i,
                forall|k: int|
                    0 <= k < i ==> no_letrec((#[trigger] out@[k])@) && rewrites_to(out@[k]@, items@[k]@, env@),
                (forall|k: int| 0 <= k < items@.len() ==> untouched(#[trigger] items@[k]@, env@)) ==> forall|k: int|
                    0 <= k < i ==> (#[trigger] out@[k])@ == items@[k]@,
                forall|k: int| 0 <= k < i ==> rewritten(#[trigger] items@[k]@, out@[k]@, env_view(env@)),
            decreases items@.len() - i,
        {
            proof {
                assert(decreases_to!(*items => items[i as int]));
                lemma_sum_take(c, i as int);
                assert(c[i as int] == demand(items@[i as int]@));
            }
            match self.term(&items[i], env) {
                Ok(t) => {
                    let ghost before = out@;
                    out.push(t);
                    proof {
                        assert forall|k: int| 0 <= k < i + 1 implies rewritten(#[trigger] items@[k]@, out@[k]@, env_view(env@)) by {
                            if k < i {
                                assert(out@[k] == before[k]);
                            }
                        }
                        if forall|k: int| 0 <= k < items@.len() ==> untouched(#[trigger] items@[k]@, env@) {
                            assert(untouched(items@[i as int]@, env@));
                            assert forall|k: int| 0 <= k < i + 1 implies (#[trigger] out@[k])@ == items@[k]@ by {
                                if k < i {
                                    assert(out@[k] == before[k]);
                                }
                            }
                        }
                    }
                },
                Err(e) => {
                    proof {
                        assert(s[i as int] == items@[i as int]@);
                        lemma_fault_list(s, e, i as int);
                        assert(!untouched(items@[i as int]@, env@));
                    }
                    return Err(e);
                },
            }
            i += 1;
        }
        proof {
            assert(c.take(i as int) =~= c);
            if forall|k: int| 0 <= k < items@.len() ==> untouched(#[trigger] items@[k]@, env@) {
                assert(views(out@) =~= views(items@));
            }
        }
        Ok(out)
    }

    /// Remove the recursive groups of `core`, replacing the names that
    /// `env` binds.
    fn term(&mut self, core: &Core, env: &Vec<Entry>) -> (res: Result<Core, Error>)
        requires
            old(self).wf(),
            old(self).potential() + demand(core@) + 1 < u32::MAX,
            env_clean(env@),
        ensures
            groups_ok(core@) ==> res is Ok,
            res matches Ok(r) ==> no_letrec(r@) && rewrites_to(r@, core@, env@),
            res matches Ok(r) ==> rewritten(core@, r@, env_view(env@)),
            res matches Err(e) ==> fault(core@, e),
            untouched(core@, env@) ==> (res matches Ok(r) && r@ == core@),
            valueless_group(core@) ==> res == Err::<Core, Error>(Error::RecursiveValue),
            final(self).spent_from(*old(self), demand(core@)),
        decreases core, 4nat,
    {
        match core {
            Core::Var(n) => {
                match lookup(env, n.unique) {
                    Some(i) => {
                        let r = env[i].value.duplicate();
                        proof {
                            assert forall|x: u32| #[trigger] free_in(r@, x) implies (free_in(core@, x) && !env_has(env@, x)) || env_free(env@, x) by {
                                assert(free_in(env@[i as int].value@, x));
                            }
                            lemma_views(*core);
                            assert(env_has(env@, n.unique));
                            assert(free_in(core@, n.unique));
                        }
                        Ok(r)
                    },
                    None => {
                        proof {
                            lemma_views(*core);
                        }
                        Ok(Core::Var(n.duplicate()))
                    },
                }
            },
            Core::Lit(_) => Ok(core.duplicate()),
            Core::Error => Ok(Core::Error),
            Core::Lam { params, body } => {
                let inner = without(env, &uniques_of(params));
                proof {
                    lemma_views(*core);
                    if untouched(core@, env@) {
                        assert forall|x: u32| #[trigger] free_in(body@, x) implies !env_has(inner@, x) by {
                            if !binder_uniques(params@).contains(x) {
                                assert(free_in(core@, x));
                            }
                        }
                    }
                }
                match self.term(body, &inner) {
                    Ok(b) => {
                        let r = Core::Lam { params: duplicate_binders(params), body: Box::new(b) };
                        proof {
                            assert forall|x: u32| #[trigger] free_in(r@, x) implies (free_in(core@, x) && !env_has(env@, x)) || env_free(env@, x) by {
                                assert(free_in(b@, x));
                            }
                            lemma_views(r);
                        }
                        Ok(r)
                    },
                    Err(e) => Err(e),
                }
            },
            Core::App { .. } => self.app(core, env),
            Core::Let { .. } => self.let_in(core, env),
            Core::LetRec { .. } => self.group(core, env),
            Core::Case { .. } => self.case(core, env),
            Core::Constr { .. } => self.listed(core, env),
            Core::Builtin { .. } => self.listed(core, env),
            _ => self.unary(core, env),
        }
    }

    #[verifier::rlimit(60)]
    fn app(&mut self, core: &Core, env: &Vec<Entry>) -> (res: Result<Core, Error>)
        requires
            core is App,
            old(self).wf(),
            old(self).potential() + demand(core@) + 1 < u32::MAX,
            env_clean(env@),
        ensures
            groups_ok(core@) ==> res is Ok,
            res matches Ok(r) ==> no_letrec(r@) && rewrites_to(r@, core@, env@),
            res matches Ok(r) ==> rewritten(core@, r@, env_view(env@)),
            res matches Err(e) ==> fault(core@, e),
            untouched(core@, env@) ==> (res matches Ok(r) && r@ == core@),
            final(self).spent_from(*old(self), demand(core@)),
        decreases core, 3nat,
    {
        proof {
            lemma_views(*core);
        }
        let ghost p0 = self.potential();
        match core {
            Core::App { func, args } => {
                proof {
                    assert(decreases_to!(*core => (*core)->App_args));
                    assert forall|i: int| 0 <= i < args@.len() implies views(args@)[i] == #[trigger] args@[i]@ by {}
                }
                let direct = match &**func {
                    Core::Var(n) => match lookup(env, n.unique) {
                        Some(i) => if env[i].direct.is_some() {
                            Some(i)
                        } else {
                            proof {
                                lemma_views(**func);
                                assert(direct_of(env_view(env@), func@) is None);
                            }
                            None
                        },
                        None => {
                            proof {
                                lemma_views(**func);
                                assert(direct_of(env_view(env@), func@) is None);
                            }
                            None
                        },
                    },
                    _ => {
                        proof {
                            lemma_views(**func);
                            assert(direct_of(env_view(env@), func@) is None);
                        }
                        None
                    },
                };
                match direct {
                    Some(i) => {
                        proof {
                            let n = (**func)->Var_0;
                            assert(env@[i as int].unique == n.unique);
                            assert(env_has(env@, n.unique));
                            assert(func@ == Tm::Var(n));
                            assert(free_in(func@, n.unique));
                            assert(free_in(core@, n.unique));
                        }
                        let entry = &env[i];
                        let (target, excluded) = match &entry.direct {
                            Some(d) => (&d.0, &d.1),
                            None => {
                                return Err(Error::RecursiveValue);
                            },
                        };
                        let ghost s = views(args@);
                        let ghost c = demands(s);
                        let ghost mut src: Seq<int> = Seq::empty();
                        let mut kept: Vec<Core> = Vec::new();
                        let mut k: usize = 0;
                        while k < args.len()
                            invariant
                                k <= args@.len(),
                                s == views(args@),
                                c == demands(s),
                                c.len() == s.len(),
                                !untouched(core@, env@),
                                self.spent_from(*old(self), sum(c.take(k as int))),
                                p0 == old(self).potential(),
                                p0 + demand(core@) + 1 < u32::MAX,
                                demand(core@) == demand(func@) + sum(c),
                                env_clean(env@),
                                core is App,
                                (*core)->App_args == *args,
                                forall|j: int| 0 <= j < args@.len() ==> views(args@)[j] == #[trigger] args@[j]@,
                                src.len() == kept@.len(),
                                forall|m: int|
                                    0 <= m < kept@.len() ==> 0 <= #[trigger] src[m] < k && no_letrec(kept@[m]@)
                                        && rewrites_to(kept@[m]@, args@[src[m]]@, env@),
                                forall|j: int| 0 <= j < args@.len() && groups_ok(core@) ==> groups_ok(#[trigger] s[j]),
                                kept@.len() == kept_before(excluded@, k as int),
                                forall|j: int|
                                    #![trigger excludes(excluded@, j)]
                                    0 <= j < k && !excludes(excluded@, j) ==> kept_before(excluded@, j) < kept@.len() && rewritten(
                                        args@[j]@,
                                        kept@[kept_before(excluded@, j) as int]@,
                                        env_view(env@),
                                    ),
                            decreases args@.len() - k,
                        {
                            proof {
                                lemma_sum_take(c, k as int);
                                lemma_sum_prefix(c, k as int + 1);
                                assert(c[k as int] == demand(args@[k as int]@));
                                assert(decreases_to!(*args => args@));
                                assert(decreases_to!(args@ => args@[k as int]));
                            }
                            proof {
                                assert(kept_before(excluded@, k + 1) == kept_before(excluded@, k as int) + if excludes(excluded@, k as int) {
                                    0nat
                                } else {
                                    1nat
                                });
                            }
                            if !names_index(excluded, k) {
                                proof {
                                    assert(!excludes(excluded@, k as int));
                                }
                                match self.term(&args[k], env) {
                                    Ok(t) => {
                                        let ghost before = kept@;
                                        let ghost sbefore = src;
                                        proof {
                                            src = src.push(k as int);
                                        }
                                        kept.push(t);
                                        proof {
                                            assert forall|j: int|
                                                #![trigger excludes(excluded@, j)]
                                                0 <= j < k + 1 && !excludes(excluded@, j) implies kept_before(excluded@, j) < kept@.len() && rewritten(
                                                    args@[j]@,
                                                    kept@[kept_before(excluded@, j) as int]@,
                                                    env_view(env@),
                                                ) by {
                                                lemma_kept_before_mono(excluded@, j, k + 1);
                                                if j < k {
                                                    lemma_kept_before_mono(excluded@, j, k as int);
                                                    assert(kept@[kept_before(excluded@, j) as int] == before[kept_before(excluded@, j) as int]);
                                                }
                                            }
                                            assert forall|m: int| 0 <= m < kept@.len() implies 0 <= #[trigger] src[m] < k + 1
                                                && no_letrec(kept@[m]@) && rewrites_to(kept@[m]@, args@[src[m]]@, env@) by {
                                                if m < before.len() {
                                                    assert(kept@[m] == before[m]);
                                                    assert(src[m] == sbefore[m]);
                                                }
                                            }
                                        }
                                    },
                                    Err(e) => {
                                        proof {
                                            lemma_views(*core);
                                            lemma_fault_list(s, e, k as int);
                                        }
                                        return Err(e);
                                    },
                                }
                            } else {
                                proof {
                                    assert(excludes(excluded@, k as int));
                                    assert forall|j: int|
                                        #![trigger excludes(excluded@, j)]
                                        0 <= j < k + 1 && !excludes(excluded@, j) implies kept_before(excluded@, j) < kept@.len() && rewritten(
                                            args@[j]@,
                                            kept@[kept_before(excluded@, j) as int]@,
                                            env_view(env@),
                                        ) by {
                                        assert(j != k);
                                    }
                                }
                            }
                            k += 1;
                        }
                        let r = Core::App { func: Box::new(target.duplicate()), args: kept };
                        proof {
                            lemma_views(**func);
                            assert(entry_view(env@[i as int]).direct == Some((target@, excluded@)));
                            assert(direct_of(env_view(env@), func@) == Some((target@, excluded@)));
                            assert forall|j: int| 0 <= j < views(args@).len() && !excludes(excluded@, j) implies rewritten(
                                #[trigger] views(args@)[j],
                                views(kept@)[kept_before(excluded@, j) as int],
                                env_view(env@),
                            ) by {
                                lemma_kept_before_mono(excluded@, j, k as int);
                                assert(views(args@)[j] == args@[j]@);
                                assert(views(kept@)[kept_before(excluded@, j) as int] == kept@[kept_before(excluded@, j) as int]@);
                            }
                            assert(c.take(k as int) =~= c);
                            lemma_views(r);
                            assert(entry.direct matches Some(d) && d.0@ == target@);
                            assert forall|x: u32| #[trigger] free_in(r@, x) implies (free_in(core@, x) && !env_has(env@, x)) || env_free(env@, x) by {
                                if free_in(target@, x) {
                                    assert(free_in(env@[i as int].value@, x) || (env@[i as int].direct matches Some(d) && free_in(d.0@, x)));
                                } else {
                                    lemma_free_in_list(views(kept@), x);
                                    let m = choose|m: int| 0 <= m < views(kept@).len() && free_in(#[trigger] views(kept@)[m], x);
                                    assert(views(kept@)[m] == kept@[m]@);
                                    assert(rewrites_to(kept@[m]@, args@[src[m]]@, env@));
                                    if !env_free(env@, x) {
                                        lemma_free_in_list(s, x);
                                        assert(free_in(s[src[m]], x));
                                    }
                                }
                            }
                            assert forall|m: int| 0 <= m < views(kept@).len() implies no_letrec(#[trigger] views(kept@)[m]) by {
                                assert(views(kept@)[m] == kept@[m]@);
                                assert(0 <= src[m] < k);
                            }
                            assert(no_letrec(env@[i as int].value@) && (env@[i as int].direct matches Some(d) ==> no_letrec(d.0@)));
                        }
                        Ok(r)
                    },
                    None => {
                        proof {
                            if untouched(core@, env@) {
                                assert forall|x: u32| #[trigger] free_in(func@, x) implies !env_has(env@, x) by {
                                    assert(free_in(core@, x));
                                }
                                assert forall|k: int| 0 <= k < args@.len() implies untouched(#[trigger] args@[k]@, env@) by {
                                    assert(views(args@)[k] == args@[k]@);
                                    assert forall|x: u32| #[trigger] free_in(args@[k]@, x) implies !env_has(env@, x) by {
                                        lemma_free_in_list(views(args@), x);
                                        assert(free_in(core@, x));
                                    }
                                }
                            }
                        }
                        let f = match self.term(func, env) {
                            Ok(f) => f,
                            Err(e) => {
                                return Err(e);
                            },
                        };
                        match self.terms(args, env) {
                            Ok(v) => {
                                let r = Core::App { func: Box::new(f), args: v };
                                proof {
                                    lemma_views(r);
                                    lemma_rewrites_list(views(v@), views(args@), env@);
                                    assert forall|x: u32| #[trigger] free_in(r@, x) implies (free_in(core@, x) && !env_has(env@, x)) || env_free(env@, x) by {
                                        if !free_in(f@, x) {
                                            assert(free_in_list(views(v@), x));
                                        }
                                    }
                                    assert forall|m: int| 0 <= m < views(v@).len() implies no_letrec(#[trigger] views(v@)[m]) by {
                                        assert(views(v@)[m] == v@[m]@);
                                    }
                                }
                                Ok(r)
                            },
                            Err(e) => Err(e),
                        }
                    },
                }
            },
            _ => Err(Error::RecursiveValue),
        }
    }

    fn let_in(&mut self, core: &Core, env: &Vec<Entry>) -> (res: Result<Core, Error>)
        requires
            core is Let,
            old(self).wf(),
            old(self).potential() + demand(core@) + 1 < u32::MAX,
            env_clean(env@),
        ensures
            groups_ok(core@) ==> res is Ok,
            res matches Ok(r) ==> no_letrec(r@) && rewrites_to(r@, core@, env@),
            res matches Ok(r) ==> rewritten(core@, r@, env_view(env@)),
            res matches Err(e) ==> fault(core@, e),
            untouched(core@, env@) ==> (res matches Ok(r) && r@ == core@),
            final(self).spent_from(*old(self), demand(core@)),
        decreases core, 3nat,
    {
        match core {
            Core::Let { binder, value, body } => {
                proof {
                    if untouched(core@, env@) {
                        assert forall|x: u32| #[trigger] free_in(value@, x) implies !env_has(env@, x) by {
                            assert(free_in(core@, x));
                        }
                    }
                }
                let v = match self.term(value, env) {
                    Ok(v) => v,
                    Err(e) => {
                        return Err(e);
                    },
                };
                let names = vec![binder.name.unique];
                let inner = without(env, &names);
                proof {
                    assert(names@ =~= seq![binder.name.unique]);
                    if untouched(core@, env@) {
                        assert forall|x: u32| #[trigger] free_in(body@, x) implies !env_has(inner@, x) by {
                            assert(names@.contains(x) <==> x == binder.name.unique);
                            if x != binder.name.unique {
                                assert(free_in(core@, x));
                            }
                        }
                    }
                }
                match self.term(body, &inner) {
                    Ok(b) => {
                        let r = Core::Let { binder: binder.duplicate(), value: Box::new(v), body: Box::new(b) };
                        proof {
                            assert forall|x: u32| #[trigger] free_in(r@, x) implies (free_in(core@, x) && !env_has(env@, x)) || env_free(env@, x) by {
                                if !free_in(v@, x) {
                                    assert(free_in(b@, x));
                                    assert(names@.contains(x) <==> x == binder.name.unique);
                                }
                            }
                        }
                        Ok(r)
                    },
                    Err(e) => Err(e),
                }
            },
            _ => Err(Error::RecursiveValue),
        }
    }

    fn group(&mut self, core: &Core, env: &Vec<Entry>) -> (res: Result<Core, Error>)
        requires
            core is LetRec,
            old(self).wf(),
            old(self).potential() + demand(core@) + 1 < u32::MAX,
            env_clean(env@),
        ensures
            groups_ok(core@) ==> res is Ok,
            res matches Ok(r) ==> no_letrec(r@) && rewrites_to(r@, core@, env@),
            res matches Ok(r) ==> rewritten(core@, r@, env_view(env@)),
            res matches Err(e) ==> fault(core@, e),
            valueless_group(core@) ==> res == Err::<Core, Error>(Error::RecursiveValue),
            final(self).spent_from(*old(self), demand(core@)),
        decreases core, 3nat,
    {
        proof {
            lemma_views(*core);
        }
        let ghost p0 = self.potential();
        match core {
            Core::LetRec { binders, body } => {
                let ghost gv = group_views(binders@);
                if binders.len() == 0 {
                    match self.term(body, env) {
                        Ok(r) => {
                            proof {
                                assert forall|x: u32| #[trigger] free_in(r@, x) implies (free_in(core@, x) && !env_has(env@, x)) || env_free(env@, x) by {
                                    assert(group_uniques(gv) =~= Seq::<u32>::empty());
                                }
                            }
                            return Ok(r);
                        },
                        Err(e) => {
                            return Err(e);
                        },
                    }
                }
                let mut k: usize = 0;
                while k < binders.len()
                    invariant
                        k <= binders@.len(),
                        gv == group_views(binders@),
                        *self == *old(self),
                        old(self).wf(),
                        core@ == Tm::LetRec(gv, Box::new(body@)),
                        forall|j: int| 0 <= j < k ==> (#[trigger] gv[j]).params.len() > 0,
                    decreases binders@.len() - k,
                {
                    if binders[k].params.len() == 0 {
                        proof {
                            assert(gv[k as int].params.len() == 0);
                        }
                        return Err(Error::RecursiveValue);
                    }
                    k += 1;
                }
                proof {
                    assert(!valueless_group(core@));
                }
                let mut j: usize = 0;
                while j < binders.len()
                    invariant
                        j <= binders@.len(),
                        gv == group_views(binders@),
                        *self == *old(self),
                        old(self).wf(),
                        core@ == Tm::LetRec(gv, Box::new(body@)),
                        !valueless_group(core@),
                        forall|a: int, b: int| 0 <= a < b < binders@.len() && a < j ==> gv[a].binder.name.unique != gv[b].binder.name.unique,
                    decreases binders@.len() - j,
                {
                    let mut k: usize = j + 1;
                    while k < binders.len()
                        invariant
                            j < k <= binders@.len(),
                            gv == group_views(binders@),
                            *self == *old(self),
                            old(self).wf(),
                            !valueless_group(core@),
                            core@ == Tm::LetRec(gv, Box::new(body@)),
                            forall|a: int, b: int| 0 <= a < b < binders@.len() && a < j ==> gv[a].binder.name.unique != gv[b].binder.name.unique,
                            forall|b: int| j < b < k ==> gv[j as int].binder.name.unique != gv[b].binder.name.unique,
                        decreases binders@.len() - k,
                    {
                        if binders[j].binder.name.unique == binders[k].binder.name.unique {
                            proof {
                                assert(gv[j as int].binder.name.unique == gv[k as int].binder.name.unique);
                                assert(!distinct_group(gv));
                            }
                            return Err(Error::DuplicateBinder);
                        }
                        k += 1;
                    }
                    j += 1;
                }
                let mut names: Vec<u32> = Vec::new();
                let mut k: usize = 0;
                while k < binders.len()
                    invariant
                        k <= binders@.len(),
                        gv == group_views(binders@),
                        names@ == group_uniques(gv).take(k as int),
                    decreases binders@.len() - k,
                {
                    names.push(binders[k].binder.name.unique);
                    k += 1;
                    proof {
                        assert(names@ =~= group_uniques(gv).take(k as int));
                    }
                }
                proof {
                    assert(names@ =~= group_uniques(gv));
                }
                let outer = without(env, &names);
                let continuation = match self.term(body, &outer) {
                    Ok(c) => c,
                    Err(e) => {
                        return Err(e);
                    },
                };
                proof {
                    assert forall|k: int| 0 <= k < binders@.len() implies gv[k].body == #[trigger] binders@[k].body@ by {}
                }
                let ghost gc = continuation@;
                proof {
                    assert(names@ == group_uniques(gv));
                    assert(rewritten(body@, gc, env_view(outer@)));
                }
                let res = if binders.len() == 1 {
                    self.group_single(core, env, &outer, continuation)
                } else {
                    self.group_multi(core, env, &outer, continuation)
                };
                proof {
                    if res is Ok {
                        let r = res->Ok_0;
                        assert(gv.len() == binders@.len());
                        let ov = minus(env_view(env@), group_uniques(gv));
                        assert(env_view(outer@) == ov);
                        assert(core@ == Tm::LetRec(gv, Box::new(body@)));
                        if binders.len() == 1 {
                            assert(gv[0].binder == binders@[0].binder);
                            assert(gv[0] == binders@[0]@);
                            let (sb, w, value) = choose|sb: Binder, w: Tm, value: Tm|
                                let_value(r@) == single_definition(binders@[0]@, sb, w) && worker_value(binders@[0]@, sb, value)
                                    && rewritten(binders@[0]@.body, w, worker_env(binders@[0]@, sb, value, env_view(outer@)));
                            assert(let_value(r@) == single_definition(gv[0], sb, w) && worker_value(gv[0], sb, value) && rewritten(
                                gv[0].body,
                                w,
                                worker_env(gv[0], sb, value, ov),
                            ));
                            assert(r@ matches Tm::Let(y, v, c) && y == gv[0].binder && rewritten(body@, *c, ov));
                            assert(exists|sb: Binder, w: Tm, value: Tm|
                                let_value(r@) == single_definition(gv[0], sb, w) && worker_value(gv[0], sb, value) && rewritten(
                                    gv[0].body,
                                    w,
                                    worker_env(gv[0], sb, value, ov),
                                ));
                            assert(gv.len() == 1);
                            assert(r@ matches Tm::Let(y, v, c) && y == gv[0].binder && rewritten(body@, *c, ov));
                            assert(rewritten(Tm::LetRec(gv, Box::new(body@)), r@, env_view(env@))) by {
                                reveal_with_fuel(rewritten, 2);
                            }
                            assert(rewritten(core@, r@, env_view(env@)));
                        } else {
                            assert forall|k: int| 0 <= k < gv.len() implies gv[k].params.len() == binders@[k].params@.len() by {}
                            let (sel, arms) = choose|sel: Binder, arms: Seq<Tm>|
                                arms.len() == binders@.len() && let_value(r@) == Tm::Lam(
                                    seq![r@->Let_0, sel],
                                    Box::new(Tm::App(Box::new(Tm::Var(sel.name)), arms)),
                                ) && forall|k: int|
                                    0 <= k < binders@.len() ==> (#[trigger] arms[k] matches Tm::Lam(ps, w) && ps == gv[k].params
                                        && rewritten(gv[k].body, *w, minus(env_view(outer@) + alias_env(gv, *r@->Let_2), binder_uniques(gv[k].params))));
                            assert(arms.len() == gv.len());
                            assert(r@ matches Tm::Let(cy, d, c) && binds_members(*c, gv) && rewritten(body@, peel(*c, gv.len()), ov));
                            assert(forall|k: int|
                                0 <= k < gv.len() ==> (#[trigger] peel(*r@->Let_2, k as nat) matches Tm::Let(_, a, _) && member_alias(
                                *a,
                                r@->Let_0,
                                k,
                                gv.len(),
                                gv[k].params.len(),
                            )));
                            assert(exists|sel: Binder, arms: Seq<Tm>|
                                arms.len() == gv.len() && let_value(r@) == Tm::Lam(
                                    seq![r@->Let_0, sel],
                                    Box::new(Tm::App(Box::new(Tm::Var(sel.name)), arms)),
                                ) && forall|k: int|
                                    0 <= k < gv.len() ==> (#[trigger] arms[k] matches Tm::Lam(ps, w) && ps == gv[k].params
                                        && rewritten(gv[k].body, *w, minus(ov + alias_env(gv, *r@->Let_2), binder_uniques(gv[k].params)))));
                            assert(rewritten(core@, r@, env_view(env@)));
                        }
                        assert(rewritten(core@, r@, env_view(env@)));
                    }
                    if res is Err {
                        let e = res->Err_0;
                        if binders.len() == 1 {
                            lemma_fault_members(gv, e, 0);
                        } else {
                            let k = choose|k: int| 0 <= k < binders@.len() && fault(#[trigger] binders@[k].body@, e);
                            lemma_fault_members(gv, e, k);
                        }
                    }
                }
                res
            },
            _ => Err(Error::RecursiveValue),
        }
    }

    /// `\\p0 .. pn-1. p_index`, over fresh names: picks member `index` of `n`.
    fn selector(&mut self, n: usize, index: usize) -> (r: Core)
        requires
            index < n,
            old(self).wf(),
            old(self).potential() + n + 1 < u32::MAX,
        ensures
            final(self).spent_from(*old(self), n as nat),
            no_letrec(r@),
            forall|x: u32| !free_in(r@, x),
            exists|picks: Seq<Binder>| picks.len() == n && r@ == Tm::Lam(picks, Box::new(Tm::Var(picks[index as int].name))),
    {
        let ghost p0 = self.potential();
        let mut picks: Vec<Binder> = Vec::new();
        let mut k: usize = 0;
        while k < n
            invariant
                k <= n,
                index < n,
                picks@.len() == k,
                self.spent_from(*old(self), k as nat),
                p0 == old(self).potential(),
                p0 + n + 1 < u32::MAX,
            decreases n - k,
        {
            let b = self.fresh("pick");
            picks.push(b);
            k += 1;
        }
        let ghost pv = picks@[index as int];
        let ghost gp = picks@;
        let v = Core::Var(picks[index].name.duplicate());
        let ghost gvv = v@;
        let r = Core::Lam { params: picks, body: Box::new(v) };
        proof {
            assert(gvv == Tm::Var(pv.name));
            assert(binder_uniques(gp)[index as int] == pv.name.unique);
            assert(binder_uniques(gp).contains(pv.name.unique));
            assert(r@ == Tm::Lam(gp, Box::new(gvv)));
            assert(no_letrec(gvv));
            assert forall|x: u32| !free_in(r@, x) by {
                assert(free_in(gvv, x) == (x == pv.name.unique));
            }
        }
        r
    }

    /// A single recursive function: tie the knot by self-application. The
    /// worker takes itself and the parameters that change; the parameters
    /// that every call forwards unchanged are bound once, outside.
    #[verifier::rlimit(60)]
    fn group_single(&mut self, core: &Core, env: &Vec<Entry>, outer: &Vec<Entry>, continuation: Core) -> (res: Result<Core, Error>)
        requires
            core matches Core::LetRec { binders, .. } && binders@.len() == 1 && binders@[0].params@.len() > 0,
            old(self).wf(),
            env_clean(env@),
            env_clean(outer@),
            forall|u: u32|
                env_has(outer@, u) <==> (env_has(env@, u) && !group_uniques(group_views(core->LetRec_binders@)).contains(u)),
            forall|x: u32| env_free(outer@, x) ==> env_free(env@, x),
            no_letrec(continuation@),
            rewrites_to(continuation@, (core->LetRec_body)@, outer@),
            env_view(outer@) == minus(env_view(env@), group_uniques(group_views(core->LetRec_binders@))),
            old(self).potential() + 1 + core->LetRec_binders@[0].params@.len() + demand(core->LetRec_binders@[0].body@) + 1
                < u32::MAX,
        ensures
            groups_ok(core->LetRec_binders@[0].body@) ==> res is Ok,
            res matches Ok(r) ==> no_letrec(r@) && rewrites_to(r@, core@, env@),
            res matches Err(e) ==> fault(core->LetRec_binders@[0].body@, e),
            res matches Ok(r) ==> (r@ matches Tm::Let(y, _, c) && y == core->LetRec_binders@[0].binder && *c == continuation@),
            res matches Ok(r) ==> exists|s: Binder, body: Tm|
                !old(self).used@.contains(s.name.unique) && r@ == Tm::Let(
                    core->LetRec_binders@[0].binder,
                    Box::new(single_definition(core->LetRec_binders@[0]@, s, body)),
                    Box::new(continuation@),
                ),
            res matches Ok(r) ==> exists|sb: Binder, w: Tm, value: Tm|
                let_value(r@) == single_definition(core->LetRec_binders@[0]@, sb, w) && worker_value(
                    core->LetRec_binders@[0]@,
                    sb,
                    value,
                ) && rewritten(
                    core->LetRec_binders@[0]@.body,
                    w,
                    worker_env(core->LetRec_binders@[0]@, sb, value, env_view(outer@)),
                ),
            final(self).spent_from(
                *old(self),
                1 + core->LetRec_binders@[0].params@.len() + demand(core->LetRec_binders@[0].body@),
            ),
        decreases core, 2nat,
    {
        proof {
            lemma_views(*core);
        }
        let ghost p0 = self.potential();
        match core {
            Core::LetRec { binders, body } => {
                let single = &binders[0];
                let ghost f = single.binder.name.unique;
                let ghost ps = binder_uniques(single.params@);
                let ghost mb = single.body@;
                let proven = static_params(&single.binder.name, &single.params, &single.body);
                let mut statics: Vec<u16> = Vec::new();
                let mut i: usize = 0;
                while i < single.static_params.len()
                    invariant
                        i <= single.static_params@.len(),
                        statics@ == kept_statics(single.static_params@.take(i as int), proven@),
                    decreases single.static_params@.len() - i,
                {
                    let x = single.static_params[i];
                    let mut found = false;
                    let mut k: usize = 0;
                    while k < proven.len()
                        invariant
                            k <= proven@.len(),
                            found == exists|j: int| 0 <= j < k && proven@[j] == x,
                        decreases proven@.len() - k,
                    {
                        if proven[k] == x {
                            found = true;
                        }
                        k += 1;
                    }
                    proof {
                        let t1 = single.static_params@.take(i + 1);
                        assert(t1.drop_last() =~= single.static_params@.take(i as int));
                        assert(t1.last() == x);
                        if found {
                            let j = choose|j: int| 0 <= j < k && proven@[j] == x;
                            assert(proven@.contains(x));
                        } else {
                            assert(!proven@.contains(x));
                        }
                    }
                    if found {
                        statics.push(x);
                    }
                    i += 1;
                }
                proof {
                    assert(single.static_params@.take(i as int) =~= single.static_params@);
                }
                let mut dynamic: Vec<Binder> = Vec::new();
                let mut i: usize = 0;
                while i < single.params.len()
                    invariant
                        i <= single.params@.len(),
                        forall|k: int| 0 <= k < dynamic@.len() ==> single.params@.contains(#[trigger] dynamic@[k]),
                        statics@.len() == 0 ==> dynamic@ == single.params@.take(i as int),
                        dynamic@ == dynamic_params(single.params@.take(i as int), statics@),
                    decreases single.params@.len() - i,
                {
                    proof {
                        let t1 = single.params@.take(i + 1);
                        assert(t1.drop_last() =~= single.params@.take(i as int));
                        assert(t1.last() == single.params@[i as int]);
                        assert(t1.len() - 1 == i);
                    }
                    if !names_index(&statics, i) {
                        let ghost before = dynamic@;
                        dynamic.push(single.params[i].duplicate());
                        proof {
                            assert forall|k: int| 0 <= k < dynamic@.len() implies single.params@.contains(#[trigger] dynamic@[k]) by {
                                if k < before.len() {
                                    assert(dynamic@[k] == before[k]);
                                } else {
                                    assert(dynamic@[k] == single.params@[i as int]);
                                }
                            }
                            if statics@.len() == 0 {
                                assert(dynamic@ =~= single.params@.take(i + 1));
                            }
                        }
                    } else {
                        proof {
                            if statics@.len() == 0 {
                                let e = choose|e: int| 0 <= e < statics@.len() && statics@[e] as int == i as int;
                            }
                        }
                    }
                    i += 1;
                }
                proof {
                    assert(single.params@.take(i as int) =~= single.params@);
                }
                let ghost used0 = self.used@;
                let self_arg = self.fresh("self");
                let ghost sv = self_arg.name.unique;
                let raw = self_call_of(&self_arg);
                let self_call = if dynamic.len() == 0 {
                    Core::Force(Box::new(raw.duplicate()))
                } else {
                    raw.duplicate()
                };
                let value = if statics.len() == 0 {
                    self.eta(self_call.duplicate(), &single.params)
                } else {
                    self_call.duplicate()
                };
                let ghost gvalue = value@;
                let ghost gself = self_call@;
                proof {
                    assert(binders@[0]@.static_params == single.static_params@);
                    assert(statics@ == single_statics(binders@[0]@));
                    assert(dynamic@ == single_dynamic(binders@[0]@));
                    assert(raw@ == Tm::App(Box::new(Tm::Var(self_arg.name)), seq![Tm::Var(self_arg.name)]));
                    assert(gself == self_call_tm(self_arg, dynamic@));
                    assert(worker_value(binders@[0]@, self_arg, gvalue));
                }
                let pu = uniques_of(&single.params);
                let mut inner_env = without(outer, &pu);
                let ghost before_env = inner_env@;
                inner_env.push(
                    Entry {
                        unique: single.binder.name.unique,
                        value,
                        direct: Some((self_call.duplicate(), duplicate_u16s(&statics))),
                    },
                );
                proof {
                    let sargs = seq![Tm::Var(self_arg.name)];
                    assert(no_letrec(Tm::Var(self_arg.name)));
                    assert(no_letrec(raw@)) by {
                        assert(sargs[0] == Tm::Var(self_arg.name));
                        assert(no_letrec(sargs[0]));
                    }
                    assert forall|x: u32| free_in(raw@, x) implies x == sv by {
                        lemma_free_in_list(sargs, x);
                        if free_in_list(sargs, x) {
                            assert(sargs[0] == Tm::Var(self_arg.name));
                        }
                    }
                    assert(no_letrec(self_call@));
                    assert forall|x: u32| free_in(self_call@, x) implies x == sv by {
                        if dynamic@.len() == 0 {
                            assert(self_call@ == Tm::Force(Box::new(raw@)));
                        } else {
                            assert(self_call@ == raw@);
                        }
                        assert(free_in(raw@, x));
                    }
                    assert(no_letrec(value@));
                    assert forall|u: u32| env_has(inner_env@, u) <==> (env_has(before_env, u) || u == f) by {
                        if env_has(inner_env@, u) {
                            let k = choose|k: int| 0 <= k < inner_env@.len() && (#[trigger] inner_env@[k]).unique == u;
                            if k < before_env.len() {
                                assert(inner_env@[k] == before_env[k]);
                            }
                        }
                        if env_has(before_env, u) {
                            let k = choose|k: int| 0 <= k < before_env.len() && (#[trigger] before_env[k]).unique == u;
                            assert(inner_env@[k] == before_env[k]);
                        }
                        if u == f {
                            assert(inner_env@[before_env.len() as int].unique == u);
                        }
                    }
                    assert forall|x: u32| env_free(inner_env@, x) implies env_free(before_env, x) || x == sv by {
                        let k = choose|k: int|
                            0 <= k < inner_env@.len() && (free_in((#[trigger] inner_env@[k]).value@, x) || (inner_env@[k].direct matches Some(d)
                                && free_in(d.0@, x)));
                        if k < before_env.len() {
                            assert(inner_env@[k] == before_env[k]);
                        }
                    }
                    assert forall|k: int| 0 <= k < inner_env@.len() implies no_letrec((#[trigger] inner_env@[k]).value@) && (inner_env@[k].direct matches Some(d)
                        ==> no_letrec(d.0@)) by {
                        if k < before_env.len() {
                            assert(inner_env@[k] == before_env[k]);
                        }
                    }
                    assert(decreases_to!(*core => (*core)->LetRec_binders));
                    assert(decreases_to!(*binders => binders@));
                    assert(decreases_to!(binders@ => binders@[0]));
                    assert(decreases_to!(binders@[0] => binders@[0].body));
                }
                let inner_body = match self.term(&single.body, &inner_env) {
                    Ok(t) => t,
                    Err(e) => {
                        return Err(e);
                    },
                };
                let ghost gib = inner_body@;
                proof {
                    assert(env_view(inner_env@) =~= worker_env(binders@[0]@, self_arg, gvalue, env_view(outer@)));
                }
                let mut inner_params: Vec<Binder> = vec![self_arg.duplicate()];
                let mut i: usize = 0;
                while i < dynamic.len()
                    invariant
                        i <= dynamic@.len(),
                        inner_params@ == seq![self_arg].add(dynamic@.take(i as int)),
                    decreases dynamic@.len() - i,
                {
                    inner_params.push(dynamic[i].duplicate());
                    i += 1;
                    proof {
                        assert(inner_params@ =~= seq![self_arg].add(dynamic@.take(i as int)));
                    }
                }
                let worker_body = if dynamic.len() == 0 {
                    Core::Delay(Box::new(inner_body))
                } else {
                    inner_body
                };
                let ghost gw = worker_body@;
                let ghost gip = inner_params@;
                let inner = Core::Lam { params: inner_params, body: Box::new(worker_body) };
                let ghost ginner = inner@;
                let ghost graw = raw@;
                let hp = vec![self_arg.duplicate()];
                proof {
                    assert(hp@[0] == self_arg);
                    assert(binder_uniques(hp@)[0] == sv);
                    assert(binder_uniques(hp@).contains(sv));
                    assert(hp@ =~= seq![self_arg]);
                }
                let knot_head = Core::Lam { params: hp, body: Box::new(raw) };
                let ghost ghead = knot_head@;
                proof {
                    lemma_views(knot_head);
                }
                let kargs = vec![inner];
                let knot = Core::App { func: Box::new(knot_head), args: kargs };
                let ghost gknot = knot@;
                proof {
                    lemma_views(knot);
                    assert(views(kargs@) =~= seq![ginner]);
                    assert forall|x: u32| #[trigger] free_in(ghead, x) implies false by {
                        assert(free_in(graw, x));
                    }
                    assert forall|x: u32| #[trigger] free_in(gknot, x) implies free_in(ginner, x) by {
                        assert(!free_in(ghead, x));
                        lemma_free_in_list(seq![ginner], x);
                    }
                    assert(no_letrec(gw));
                    assert(no_letrec(ginner));
                    assert(no_letrec(ghead));
                    assert(no_letrec(gknot)) by {
                        assert(seq![ginner][0] == ginner);
                    }
                }
                let definition = if statics.len() == 0 {
                    knot
                } else {
                    let applied = if dynamic.len() == 0 {
                        Core::Force(Box::new(knot))
                    } else {
                        let mut vars: Vec<Core> = Vec::new();
                        let mut i: usize = 0;
                        while i < dynamic.len()
                            invariant
                                i <= dynamic@.len(),
                                vars@.len() == i,
                                forall|k: int| 0 <= k < i ==> (#[trigger] vars@[k])@ == Tm::Var(dynamic@[k].name),
                            decreases dynamic@.len() - i,
                        {
                            vars.push(Core::Var(dynamic[i].name.duplicate()));
                            i += 1;
                        }
                        let a = Core::App { func: Box::new(knot), args: vars };
                        proof {
                            lemma_views(a);
                            assert(a@ == Tm::App(Box::new(gknot), views(vars@)));
                            assert forall|x: u32| #[trigger] free_in(a@, x) implies free_in(gknot, x) || ps.contains(x) by {
                                if !free_in(gknot, x) {
                                    lemma_free_in_list(views(vars@), x);
                                    let k = choose|k: int| 0 <= k < views(vars@).len() && free_in(#[trigger] views(vars@)[k], x);
                                    assert(views(vars@)[k] == vars@[k]@);
                                    assert(single.params@.contains(dynamic@[k]));
                                    let j = choose|j: int| 0 <= j < single.params@.len() && single.params@[j] == dynamic@[k];
                                    assert(ps[j] == x);
                                }
                            }
                            assert forall|k: int| 0 <= k < views(vars@).len() implies no_letrec(#[trigger] views(vars@)[k]) by {
                                assert(views(vars@)[k] == vars@[k]@);
                            }
                            assert(no_letrec(a@));
                            assert(views(vars@) =~= param_vars(dynamic@)) by {
                                assert forall|k: int| 0 <= k < dynamic@.len() implies views(vars@)[k] == param_vars(dynamic@)[k] by {
                                    assert(views(vars@)[k] == vars@[k]@);
                                }
                            }
                        }
                        a
                    };
                    let ghost gapplied = applied@;
                    proof {
                        if dynamic@.len() == 0 {
                            assert(gapplied == Tm::Force(Box::new(gknot)));
                        }
                        assert forall|x: u32| free_in(gapplied, x) implies free_in(gknot, x) || ps.contains(x) by {}
                        assert(no_letrec(gapplied));
                    }
                    let dps = duplicate_binders(&single.params);
                    let d = Core::Lam { params: dps, body: Box::new(applied) };
                    proof {
                        assert(binder_uniques(dps@) == ps);
                        assert forall|x: u32| #[trigger] free_in(d@, x) implies free_in(gknot, x) && !ps.contains(x) by {
                            assert(free_in(gapplied, x));
                        }
                        assert(no_letrec(d@));
                        assert(d@ == Tm::Lam(single.params@, Box::new(gapplied)));
                        assert(dynamic@.len() > 0 ==> gapplied == Tm::App(Box::new(gknot), param_vars(dynamic@)));
                    }
                    d
                };
                let ghost gdef = definition@;
                let ghost gcont = continuation@;
                let r = Core::Let { binder: single.binder.duplicate(), value: Box::new(definition), body: Box::new(continuation) };
                proof {
                    let gvs = group_views(binders@);
                    assert(gvs[0] == single@);
                    assert(group_uniques(gvs) =~= seq![f]);
                    assert forall|x: u32| statics@.len() == 0 && binder_uniques(dynamic@).contains(x) implies ps.contains(x) by {}
                    assert forall|x: u32| #[trigger] free_in(r@, x) implies (free_in(core@, x) && !env_has(env@, x)) || env_free(env@, x) by {
                        if free_in(gdef, x) {
                            assert(free_in(gknot, x));
                            assert(free_in(ginner, x));
                            assert(!binder_uniques(gip).contains(x) && free_in(gw, x));
                            assert(x != sv) by {
                                assert(binder_uniques(gip)[0] == sv);
                            }
                            assert(free_in(inner_body@, x));
                            if !env_free(env@, x) {
                                assert(!env_free(inner_env@, x));
                                assert(free_in(mb, x) && !env_has(inner_env@, x));
                                assert(x != f);
                                if statics@.len() == 0 {
                                    assert(binder_uniques(dynamic@) == ps);
                                    assert(binder_uniques(gip) =~= seq![sv] + binder_uniques(dynamic@));
                                    assert(!ps.contains(x)) by {
                                        if ps.contains(x) {
                                            let j = choose|j: int| 0 <= j < ps.len() && ps[j] == x;
                                            assert(binder_uniques(gip)[j + 1] == x);
                                        }
                                    }
                                }
                                assert(!ps.contains(x));
                                assert(!env_has(outer@, x));
                                assert(!env_has(env@, x));
                                lemma_free_in_group(gvs, x);
                                assert(free_in_group(gvs, x));
                            }
                        } else {
                            assert(x != f && free_in(gcont, x));
                            if !env_free(env@, x) {
                                assert(!env_free(outer@, x));
                                assert(!env_has(outer@, x));
                            }
                        }
                    }
                    assert(no_letrec(gw));
                    assert(no_letrec(ginner));
                    assert(no_letrec(ghead));
                    assert(no_letrec(gknot)) by {
                        assert(seq![ginner][0] == ginner);
                    }
                    assert(no_letrec(gdef));
                    let gm = binders@[0]@;
                    assert(gm.static_params == single.static_params@);
                    assert(statics@ == kept_statics(gm.static_params, spec_static_params(f, ps, mb)));
                    assert(dynamic@ == dynamic_params(gm.params, statics@));
                    assert(gip =~= seq![self_arg] + dynamic@);
                    assert(graw == Tm::App(Box::new(Tm::Var(self_arg.name)), seq![Tm::Var(self_arg.name)]));
                    assert(ghead == Tm::Lam(seq![self_arg], Box::new(graw)));
                    assert(gw == (if dynamic@.len() == 0 {
                        Tm::Delay(Box::new(gib))
                    } else {
                        gib
                    }));
                    assert(ginner == Tm::Lam(seq![self_arg] + dynamic@, Box::new(gw)));
                    assert(gknot == Tm::App(Box::new(ghead), seq![ginner]));
                    assert(gknot == knot_of(self_arg, dynamic@, gib));
                    assert(gdef == single_definition(gm, self_arg, gib));
                    assert(!old(self).used@.contains(self_arg.name.unique));
                }
                Ok(r)
            },
            _ => Err(Error::RecursiveValue),
        }
    }

    fn group_multi(&mut self, core: &Core, env: &Vec<Entry>, outer: &Vec<Entry>, continuation: Core) -> (res: Result<Core, Error>)
        requires
            core matches Core::LetRec { binders, .. } && binders@.len() > 1,
            old(self).wf(),
            env_clean(env@),
            env_clean(outer@),
            forall|u: u32|
                env_has(outer@, u) <==> (env_has(env@, u) && !group_uniques(group_views(core->LetRec_binders@)).contains(u)),
            forall|x: u32| env_free(outer@, x) ==> env_free(env@, x),
            no_letrec(continuation@),
            rewrites_to(continuation@, (core->LetRec_body)@, outer@),
            env_view(outer@) == minus(env_view(env@), group_uniques(group_views(core->LetRec_binders@))),
            old(self).potential() + 2 + sum(member_demands(group_views(core->LetRec_binders@))) + 1 < u32::MAX,
        ensures
            (forall|k: int| 0 <= k < core->LetRec_binders@.len() ==> groups_ok(#[trigger] core->LetRec_binders@[k].body@)) ==> res is Ok,
            res matches Ok(r) ==> no_letrec(r@) && rewrites_to(r@, core@, env@),
            res matches Err(e) ==> exists|k: int| 0 <= k < core->LetRec_binders@.len() && fault(#[trigger] core->LetRec_binders@[k].body@, e),
            res matches Ok(r) ==> (r@ matches Tm::Let(_, _, c) && binds_members(*c, group_views(core->LetRec_binders@)) && peel(
                *c,
                core->LetRec_binders@.len() as nat,
            ) == continuation@),
            res matches Ok(r) ==> (r@ matches Tm::Let(cy, d, c) && dispatcher_of(*d, cy, group_views(core->LetRec_binders@))
                && forall|k: int| 0 <= k < core->LetRec_binders@.len() ==> (#[trigger] peel(*c, k as nat) matches Tm::Let(_, a, _)
                && member_alias(*a, cy, k, core->LetRec_binders@.len() as nat, core->LetRec_binders@[k].params@.len() as nat))),
            res matches Ok(r) ==> exists|sel: Binder, arms: Seq<Tm>|
                arms.len() == core->LetRec_binders@.len() && let_value(r@) == Tm::Lam(
                    seq![r@->Let_0, sel],
                    Box::new(Tm::App(Box::new(Tm::Var(sel.name)), arms)),
                ) && forall|k: int|
                    0 <= k < core->LetRec_binders@.len() ==> (#[trigger] arms[k] matches Tm::Lam(ps, w) && ps
                        == group_views(core->LetRec_binders@)[k].params && rewritten(
                        group_views(core->LetRec_binders@)[k].body,
                        *w,
                        minus(
                            env_view(outer@) + alias_env(group_views(core->LetRec_binders@), *r@->Let_2),
                            binder_uniques(group_views(core->LetRec_binders@)[k].params),
                        ),
                    )),
            final(self).spent_from(*old(self), 2 + sum(member_demands(group_views(core->LetRec_binders@)))),
        decreases core, 2nat,
    {
        proof {
            lemma_views(*core);
        }
        let ghost p0 = self.potential();
        match core {
            Core::LetRec { binders, body } => {
                let ghost gv = group_views(binders@);
                let ghost md = member_demands(gv);
                let ghost ac = alias_costs(gv);
                let ghost bc = body_costs(gv);
                let n = binders.len();
                proof {
                    lemma_member_split(gv);
                    lemma_sum_prefix(ac, 0);
                    assert(ac.take(0) =~= Seq::<nat>::empty());
                }
                let cycle = self.fresh("cycle");
                let select = self.fresh("select");
                let ghost cv = cycle.name.unique;
                let nothing: Vec<u32> = Vec::new();
                let mut renv = without(outer, &nothing);
                let mut aliases: Vec<Core> = Vec::new();
                proof {
                    assert(nothing@ =~= Seq::<u32>::empty());
                    lemma_minus_nothing(env_view(outer@));
                    assert(env_view(renv@) =~= env_view(outer@) + Seq::new(0, |k: int| EntryV { unique: gv[k].binder.name.unique, value: aliases@[k]@, direct: None }));
                }
                let mut index: usize = 0;
                while index < n
                    invariant
                        index <= n,
                        n == binders@.len(),
                        n > 1,
                        gv == group_views(binders@),
                        ac == alias_costs(gv),
                        ac.len() == n,
                        md == member_demands(gv),
                        sum(md) == sum(ac) + sum(bc),
                        bc == body_costs(gv),
                        self.spent_from(*old(self), 2 + sum(ac.take(index as int))),
                        p0 == old(self).potential(),
                        p0 + 2 + sum(md) + 1 < u32::MAX,
                        env_clean(renv@),
                        cv == cycle.name.unique,
                        aliases@.len() == index,
                        forall|k: int| 0 <= k < index ==> #[trigger] alias_ok(aliases@[k]@, cv),
                        forall|k: int| 0 <= k < index ==> member_alias(#[trigger] aliases@[k]@, cycle, k, n as nat, gv[k].params.len()),
                        forall|u: u32| env_has(renv@, u) <==> (env_has(outer@, u) || exists|k: int| 0 <= k < index && #[trigger] gv[k].binder.name.unique == u),
                        forall|x: u32| env_free(renv@, x) ==> env_free(outer@, x) || x == cv,
                        env_clean(outer@),
                        env_view(renv@) == env_view(outer@) + Seq::new(index as nat, |k: int| EntryV { unique: gv[k].binder.name.unique, value: aliases@[k]@, direct: None }),
                    decreases n - index,
                {
                    proof {
                        lemma_sum_take(ac, index as int);
                        lemma_sum_prefix(ac, index as int + 1);
                        assert(ac[index as int] == n + gv[index as int].params.len());
                        assert(gv[index as int] == binders@[index as int]@);
                    }
                    let selector = self.selector(n, index);
                    let ghost gsel = selector@;
                    let call = cycle_call(&cycle, selector);
                    let ghost gcall = call@;
                    let alias = self.eta(call, &binders[index].params);
                    proof {
                        assert(gv[index as int].params == binders@[index as int].params@);
                        let picks = choose|picks: Seq<Binder>| picks.len() == n && gsel == Tm::Lam(picks, Box::new(Tm::Var(picks[index as int].name)));
                        let qs = choose|qs: Seq<Binder>| qs.len() == binders@[index as int].params@.len() && alias@ == Tm::Lam(qs, Box::new(Tm::App(Box::new(gcall), param_vars(qs))));
                        assert(member_alias(alias@, cycle, index as int, n as nat, gv[index as int].params.len()));
                    }
                    proof {
                        assert forall|x: u32| #[trigger] free_in(alias@, x) implies x == cv by {
                            assert(free_in(gcall, x));
                            assert(x == cycle.name.unique);
                        }
                        assert(alias_ok(alias@, cv));
                    }
                    let ghost before = renv@;
                    renv.push(Entry { unique: binders[index].binder.name.unique, value: alias.duplicate(), direct: None });
                    proof {
                        assert forall|u: u32| env_has(renv@, u) <==> (env_has(outer@, u) || exists|k: int| 0 <= k < index + 1 && #[trigger] gv[k].binder.name.unique == u) by {
                            if env_has(renv@, u) {
                                let k = choose|k: int| 0 <= k < renv@.len() && (#[trigger] renv@[k]).unique == u;
                                if k < before.len() {
                                    assert(renv@[k] == before[k]);
                                    assert(env_has(before, u));
                                } else {
                                    assert(gv[index as int].binder.name.unique == u);
                                }
                            }
                            if env_has(outer@, u) {
                                assert(env_has(before, u));
                                let k = choose|k: int| 0 <= k < before.len() && (#[trigger] before[k]).unique == u;
                                assert(renv@[k] == before[k]);
                            }
                            if exists|k: int| 0 <= k < index + 1 && #[trigger] gv[k].binder.name.unique == u {
                                let k = choose|k: int| 0 <= k < index + 1 && #[trigger] gv[k].binder.name.unique == u;
                                if k < index {
                                    assert(env_has(before, u));
                                    let j = choose|j: int| 0 <= j < before.len() && (#[trigger] before[j]).unique == u;
                                    assert(renv@[j] == before[j]);
                                } else {
                                    assert(renv@[before.len() as int].unique == u);
                                }
                            }
                        }
                        assert forall|x: u32| env_free(renv@, x) implies env_free(outer@, x) || x == cv by {
                            let k = choose|k: int|
                                0 <= k < renv@.len() && (free_in((#[trigger] renv@[k]).value@, x) || (renv@[k].direct matches Some(d)
                                    && free_in(d.0@, x)));
                            if k < before.len() {
                                assert(renv@[k] == before[k]);
                                assert(env_free(before, x));
                            } else {
                                assert(renv@[k].value@ == alias@);
                            }
                        }
                        assert forall|k: int| 0 <= k < renv@.len() implies no_letrec((#[trigger] renv@[k]).value@) && (renv@[k].direct matches Some(d)
                            ==> no_letrec(d.0@)) by {
                            if k < before.len() {
                                assert(renv@[k] == before[k]);
                            }
                        }
                    }
                    let ghost abefore = aliases@;
                    let ghost ralias = alias@;
                    let ghost rb = before;
                    aliases.push(alias);
                    proof {
                        assert(env_view(renv@) =~= env_view(outer@) + Seq::new((index + 1) as nat, |k: int| EntryV { unique: gv[k].binder.name.unique, value: aliases@[k]@, direct: None })) by {
                            assert(renv@ == before.push(renv@.last()));
                            assert(env_view(renv@) =~= env_view(before).push(entry_view(renv@.last())));
                            assert(entry_view(renv@.last()) == EntryV { unique: gv[index as int].binder.name.unique, value: ralias, direct: None });
                            assert(gv[index as int].binder == binders@[index as int].binder);
                            assert forall|k: int| 0 <= k < index implies aliases@[k] == abefore[k] by {}
                        }
                        assert forall|k: int| 0 <= k < index + 1 implies member_alias(#[trigger] aliases@[k]@, cycle, k, n as nat, gv[k].params.len()) by {
                            if k < index {
                                assert(aliases@[k] == abefore[k]);
                            }
                        }
                    }
                    index += 1;
                }
                proof {
                    assert(ac.take(n as int) =~= ac);
                }
                let arms = match self.arms(core, &renv) {
                    Ok(a) => a,
                    Err(e) => {
                        return Err(e);
                    },
                };
                let ghost av = arms@;
                let ghost garms = views(av);
                let head = Core::Var(select.name.duplicate());
                let call = Core::App { func: Box::new(head), args: arms };
                let ghost gcall = call@;
                proof {
                    lemma_views(call);
                    assert(gcall == Tm::App(Box::new(Tm::Var(select.name)), garms));
                    assert forall|m: int| 0 <= m < garms.len() implies no_letrec(#[trigger] garms[m]) by {
                        assert(garms[m] == av[m]@);
                        assert(arm_ok(av[m]@, gv[m], renv@));
                    }
                    assert(no_letrec(Tm::Var(select.name)));
                    assert(no_letrec(gcall));
                }
                let dps = vec![cycle.duplicate(), select.duplicate()];
                let ghost gdps = dps@;
                let dispatcher = Core::Lam { params: dps, body: Box::new(call) };
                let ghost gdisp = dispatcher@;
                let ghost galiases = aliases@;
                proof {
                    assert(gdisp == Tm::Lam(gdps, Box::new(gcall)));
                    assert(gdps =~= seq![cycle, select]);
                    assert(gcall == Tm::App(Box::new(Tm::Var(select.name)), garms));
                    assert forall|k: int| 0 <= k < garms.len() implies (#[trigger] garms[k] matches Tm::Lam(ps, _) && ps == gv[k].params) by {
                        assert(garms[k] == av[k]@);
                        assert(arm_ok(av[k]@, gv[k], renv@));
                    }
                    assert(dispatcher_of(gdisp, cycle, gv));
                }
                let chained = chain(binders, aliases, continuation, &cycle);
                let ghost gchain = chained@;
                let r = Core::Let { binder: cycle, value: Box::new(dispatcher), body: Box::new(chained) };
                proof {
                    assert(env_view(renv@) =~= env_view(outer@) + alias_env(gv, gchain)) by {
                        assert forall|k: int| 0 <= k < n implies let_value(peel(gchain, k as nat)) == galiases[k]@ by {
                            assert(peel(gchain, k as nat) matches Tm::Let(_, a, _) && *a == galiases[k]@);
                        }
                    }
                    assert forall|k: int| 0 <= k < n implies (#[trigger] garms[k] matches Tm::Lam(ps, w) && ps == gv[k].params && rewritten(
                        gv[k].body,
                        *w,
                        minus(env_view(outer@) + alias_env(gv, gchain), binder_uniques(gv[k].params)),
                    )) by {
                        assert(garms[k] == av[k]@);
                        assert(arm_ok(av[k]@, gv[k], renv@));
                    }
                    assert(r@->Let_0 == cycle);
                    assert(let_value(r@) == Tm::Lam(seq![r@->Let_0, select], Box::new(Tm::App(Box::new(Tm::Var(select.name)), garms))));
                    assert(gdisp == Tm::Lam(gdps, Box::new(gcall)));
                    assert(no_letrec(gdisp));
                    assert(binder_uniques(gdps)[0] == cv);
                    assert forall|x: u32| #[trigger] free_in(r@, x) implies (free_in(core@, x) && !env_has(env@, x)) || env_free(env@, x) by {
                        if free_in(gdisp, x) {
                            assert(!binder_uniques(gdps).contains(x));
                            assert(x != cv);
                            assert(free_in(gcall, x));
                            assert(x != select.name.unique) by {
                                assert(binder_uniques(gdps)[1] == select.name.unique);
                            }
                            assert(gcall == Tm::App(Box::new(Tm::Var(select.name)), garms));
                            assert(!free_in(Tm::Var(select.name), x));
                            assert(free_in_list(garms, x));
                            lemma_free_in_list(garms, x);
                            let k = choose|k: int| 0 <= k < garms.len() && free_in(#[trigger] garms[k], x);
                            assert(garms[k] == av[k]@);
                            assert(arm_ok(av[k]@, gv[k], renv@));
                            if !env_free(env@, x) {
                                assert(!env_free(outer@, x));
                                assert(!env_free(renv@, x));
                                assert(!binder_uniques(gv[k].params).contains(x) && free_in(gv[k].body, x) && !env_has(renv@, x));
                                assert(!env_has(outer@, x));
                                assert(!group_uniques(gv).contains(x)) by {
                                    if group_uniques(gv).contains(x) {
                                        let j = choose|j: int| 0 <= j < gv.len() && group_uniques(gv)[j] == x;
                                        assert(gv[j].binder.name.unique == x);
                                    }
                                }
                                assert(!env_has(env@, x));
                                lemma_free_in_group(gv, x);
                                assert(free_in_group(gv, x));
                            }
                        } else {
                            assert(x != cv && free_in(gchain, x));
                            assert(free_in(continuation@, x) && !group_uniques(gv).contains(x));
                            if !env_free(env@, x) {
                                assert(!env_free(outer@, x));
                                assert(!env_has(outer@, x));
                            }
                        }
                    }
                }
                Ok(r)
            },
            _ => Err(Error::RecursiveValue),
        }
    }

    /// The arms of a group's dispatcher: each member's parameters over its
    /// rewritten body.
    fn arms(&mut self, core: &Core, renv: &Vec<Entry>) -> (res: Result<Vec<Core>, Error>)
        requires
            core is LetRec,
            old(self).wf(),
            old(self).potential() + sum(body_costs(group_views(core->LetRec_binders@))) + 1 < u32::MAX,
            env_clean(renv@),
        ensures
            (forall|k: int| 0 <= k < core->LetRec_binders@.len() ==> groups_ok(#[trigger] core->LetRec_binders@[k].body@)) ==> res is Ok,
            res matches Ok(v) ==> v@.len() == core->LetRec_binders@.len() && forall|k: int|
                0 <= k < v@.len() ==> arm_ok((#[trigger] v@[k])@, group_views(core->LetRec_binders@)[k], renv@),
            res matches Err(e) ==> exists|k: int| 0 <= k < core->LetRec_binders@.len() && fault(#[trigger] core->LetRec_binders@[k].body@, e),
            final(self).spent_from(*old(self), sum(body_costs(group_views(core->LetRec_binders@)))),
        decreases core, 1nat,
    {
        let ghost p0 = self.potential();
        match core {
            Core::LetRec { binders, .. } => {
                let ghost gv = group_views(binders@);
                let ghost bc = body_costs(gv);
                let mut out: Vec<Core> = Vec::new();
                let mut k: usize = 0;
                while k < binders.len()
                    invariant
                        k <= binders@.len(),
                        gv == group_views(binders@),
                        bc == body_costs(gv),
                        bc.len() == gv.len(),
                        self.spent_from(*old(self), sum(bc.take(k as int))),
                        p0 == old(self).potential(),
                        p0 + sum(bc) + 1 < u32::MAX,
                        env_clean(renv@),
                        core is LetRec,
                        (*core)->LetRec_binders == *binders,
                        out@.len() == k,
                        forall|j: int| 0 <= j < k ==> arm_ok((#[trigger] out@[j])@, gv[j], renv@),
                    decreases binders@.len() - k,
                {
                    proof {
                        lemma_sum_take(bc, k as int);
                        assert(gv[k as int] == binders@[k as int]@);
                        assert(bc[k as int] == demand(binders@[k as int].body@));
                        assert(decreases_to!(*core => (*core)->LetRec_binders));
                        assert(decreases_to!(*binders => binders@));
                        assert(decreases_to!(binders@ => binders@[k as int]));
                        assert(decreases_to!(binders@[k as int] => binders@[k as int].body));
                    }
                    let rb = &binders[k];
                    let inner = without(renv, &uniques_of(&rb.params));
                    match self.term(&rb.body, &inner) {
                        Ok(b) => {
                            let ghost gb = b@;
                            let ps = duplicate_binders(&rb.params);
                            let arm = Core::Lam { params: ps, body: Box::new(b) };
                            proof {
                                assert(arm@ == Tm::Lam(rb.params@, Box::new(gb)));
                                assert forall|x: u32| #[trigger] free_in(arm@, x) implies (!binder_uniques(gv[k as int].params).contains(x)
                                    && free_in(gv[k as int].body, x) && !env_has(renv@, x)) || env_free(renv@, x) by {
                                    assert(free_in(gb, x));
                                }
                                assert(arm_ok(arm@, gv[k as int], renv@));
                            }
                            out.push(arm);
                        },
                        Err(e) => {
                            return Err(e);
                        },
                    }
                    k += 1;
                }
                proof {
                    assert(bc.take(k as int) =~= bc);
                }
                Ok(out)
            },
            _ => Err(Error::RecursiveValue),
        }
    }

    fn case(&mut self, core: &Core, env: &Vec<Entry>) -> (res: Result<Core, Error>)
        requires
            core is Case,
            old(self).wf(),
            old(self).potential() + demand(core@) + 1 < u32::MAX,
            env_clean(env@),
        ensures
            groups_ok(core@) ==> res is Ok,
            res matches Ok(r) ==> no_letrec(r@) && rewrites_to(r@, core@, env@),
            res matches Ok(r) ==> rewritten(core@, r@, env_view(env@)),
            res matches Err(e) ==> fault(core@, e),
            untouched(core@, env@) ==> (res matches Ok(r) && r@ == core@),
            final(self).spent_from(*old(self), demand(core@)),
        decreases core, 3nat,
    {
        proof {
            lemma_views(*core);
        }
        let ghost p0 = self.potential();
        match core {
            Core::Case { kind, scrutinee, branches, default } => {
                let ghost bv = branch_views(branches@);
                let ghost c = branch_demands(bv);
                let ghost same = untouched(core@, env@);
                proof {
                    if same {
                        lemma_case_untouched(core@, env@);
                    }
                }
                let sc = match self.term(scrutinee, env) {
                    Ok(t) => t,
                    Err(e) => {
                        return Err(e);
                    },
                };
                let ghost p1 = self.potential();
                let mut out: Vec<Branch> = Vec::new();
                let mut i: usize = 0;
                while i < branches.len()
                    invariant
                        i <= branches@.len(),
                        bv == branch_views(branches@),
                        c == branch_demands(bv),
                        c.len() == bv.len(),
                        self.spent_from(*old(self), demand(scrutinee@) + sum(c.take(i as int))),
                        p0 == old(self).potential(),
                        p0 + demand(core@) + 1 < u32::MAX,
                        demand(core@) == demand(scrutinee@) + sum(c) + match default {
                            Some(x) => demand(x@),
                            None => 0,
                        },
                        env_clean(env@),
                        core is Case,
                        (*core)->Case_branches == *branches,
                        out@.len() == i,
                        forall|k: int| 0 <= k < bv.len() && groups_ok(core@) ==> groups_ok(#[trigger] bv[k].body),
                        same == untouched(core@, env@),
                        same ==> sc@ == scrutinee@,
                        same ==> forall|k: int| 0 <= k < bv.len() ==> branch_clear(#[trigger] bv[k], env@),
                        same ==> forall|k: int| 0 <= k < i ==> (#[trigger] out@[k])@ == bv[k],
                        rewritten(scrutinee@, sc@, env_view(env@)),
                        forall|k: int| 0 <= k < i ==> rewritten(bv[k].body, (#[trigger] out@[k])@.body, minus(env_view(env@), binder_uniques(bv[k].binders))),
                        forall|k: int|
                            0 <= k < i ==> (#[trigger] out@[k])@.test == bv[k].test && out@[k]@.binders == bv[k].binders
                                && no_letrec(out@[k]@.body) && forall|x: u32|
                                #[trigger] free_in(out@[k]@.body, x) && !binder_uniques(bv[k].binders).contains(x) ==> (
                                free_in(bv[k].body, x) && !env_has(env@, x)) || env_free(env@, x),
                    decreases branches@.len() - i,
                {
                    proof {
                        lemma_sum_take(c, i as int);
                        assert(bv[i as int] == branches@[i as int]@);
                        assert(c[i as int] == demand(bv[i as int].body));
                        assert(decreases_to!(*core => (*core)->Case_branches));
                        assert(decreases_to!(*branches => branches@));
                        assert(decreases_to!(branches@ => branches@[i as int]));
                        assert(decreases_to!(branches@[i as int] => branches@[i as int].body));
                    }
                    let b = &branches[i];
                    let bu = uniques_of(&b.binders);
                    let inner = without(env, &bu);
                    proof {
                        if same {
                            assert(branch_clear(bv[i as int], env@));
                            assert forall|x: u32| #[trigger] free_in(b.body@, x) implies !env_has(inner@, x) by {
                                if !bu@.contains(x) {
                                    assert(free_in(bv[i as int].body, x));
                                }
                            }
                        }
                    }
                    match self.term(&b.body, &inner) {
                        Ok(body) => {
                            let nb = Branch { test: b.test.duplicate(), binders: duplicate_binders(&b.binders), body };
                            proof {
                                if same {
                                    assert(nb@ == bv[i as int]);
                                }
                                assert forall|x: u32| #[trigger] free_in(nb@.body, x) && !binder_uniques(bv[i as int].binders).contains(x) implies (
                                    free_in(bv[i as int].body, x) && !env_has(env@, x)) || env_free(env@, x) by {
                                    assert(free_in(body@, x));
                                }
                            }
                            let ghost before = out@;
                            out.push(nb);
                            proof {
                                assert forall|k: int| 0 <= k < i + 1 implies rewritten(bv[k].body, (#[trigger] out@[k])@.body, minus(env_view(env@), binder_uniques(bv[k].binders))) by {
                                    if k < i {
                                        assert(out@[k] == before[k]);
                                    }
                                }
                            }
                        },
                        Err(e) => {
                            proof {
                                lemma_views(*core);
                                lemma_fault_branches(bv, e, i as int);
                            }
                            return Err(e);
                        },
                    }
                    i += 1;
                }
                proof {
                    assert(c.take(i as int) =~= c);
                }
                let d = match default {
                    Some(x) => match self.term(x, env) {
                        Ok(t) => Some(Box::new(t)),
                        Err(e) => {
                            return Err(e);
                        },
                    },
                    None => None,
                };
                let ghost gd = d;
                proof {
                    if gd is Some {
                        assert(default is Some);
                        assert(no_letrec(gd->0@) && rewrites_to(gd->0@, default->0@, env@));
                    }
                }
                let r = Core::Case { kind: *kind, scrutinee: Box::new(sc), branches: out, default: d };
                proof {
                    lemma_views(r);
                    let nbv = branch_views(out@);
                    if same {
                        assert(nbv =~= bv);
                    }
                    assert forall|x: u32| #[trigger] free_in(r@, x) implies (free_in(core@, x) && !env_has(env@, x)) || env_free(env@, x) by {
                        if free_in(sc@, x) {
                        } else if gd is Some && free_in(gd->0@, x) {
                            assert(rewrites_to(gd->0@, default->0@, env@));
                        } else if free_in_branches(nbv, x) {
                            lemma_free_in_branches(nbv, x);
                            lemma_free_in_branches(bv, x);
                            let k = choose|k: int| 0 <= k < nbv.len() && !binder_uniques(nbv[k].binders).contains(x) && free_in(#[trigger] nbv[k].body, x);
                            assert(nbv[k] == out@[k]@);
                            if !env_free(env@, x) {
                                assert(free_in(bv[k].body, x));
                            }
                        }
                    }
                    assert forall|k: int| 0 <= k < nbv.len() implies no_letrec(#[trigger] nbv[k].body) by {
                        assert(nbv[k] == out@[k]@);
                    }
                    assert forall|k: int| 0 <= k < bv.len() implies (#[trigger] nbv[k]).test == bv[k].test && nbv[k].binders == bv[k].binders && rewritten(
                        bv[k].body,
                        nbv[k].body,
                        minus(env_view(env@), binder_uniques(bv[k].binders)),
                    ) by {
                        assert(nbv[k] == out@[k]@);
                    }
                    assert(rewritten(core@, r@, env_view(env@)));
                }
                Ok(r)
            },
            _ => Err(Error::RecursiveValue),
        }
    }

    fn listed(&mut self, core: &Core, env: &Vec<Entry>) -> (res: Result<Core, Error>)
        requires
            core is Constr || core is Builtin,
            old(self).wf(),
            old(self).potential() + demand(core@) + 1 < u32::MAX,
            env_clean(env@),
        ensures
            groups_ok(core@) ==> res is Ok,
            res matches Ok(r) ==> no_letrec(r@) && rewrites_to(r@, core@, env@),
            res matches Ok(r) ==> rewritten(core@, r@, env_view(env@)),
            res matches Err(e) ==> fault(core@, e),
            untouched(core@, env@) ==> (res matches Ok(r) && r@ == core@),
            final(self).spent_from(*old(self), demand(core@)),
        decreases core, 3nat,
    {
        proof {
            lemma_views(*core);
        }
        match core {
            Core::Constr { tag, fields } => {
                proof {
                    assert(decreases_to!(*core => (*core)->Constr_fields));
                }
                proof {
                    assert forall|i: int| 0 <= i < fields@.len() implies views(fields@)[i] == #[trigger] fields@[i]@ by {}
                    if untouched(core@, env@) {
                        assert forall|k: int| 0 <= k < fields@.len() implies untouched(#[trigger] fields@[k]@, env@) by {
                            assert(views(fields@)[k] == fields@[k]@);
                            assert forall|x: u32| #[trigger] free_in(fields@[k]@, x) implies !env_has(env@, x) by {
                                lemma_free_in_list(views(fields@), x);
                                assert(free_in(core@, x));
                            }
                        }
                    }
                }
                match self.terms(fields, env) {
                    Ok(v) => {
                        let r = Core::Constr { tag: *tag, fields: v };
                        proof {
                            lemma_views(r);
                            lemma_rewrites_list(views(v@), views(fields@), env@);
                            assert forall|i: int| 0 <= i < views(v@).len() implies no_letrec(#[trigger] views(v@)[i]) by {
                                assert(views(v@)[i] == v@[i]@);
                            }
                        }
                        Ok(r)
                    },
                    Err(e) => Err(e),
                }
            },
            Core::Builtin { function, args } => {
                proof {
                    assert(decreases_to!(*core => (*core)->Builtin_args));
                }
                proof {
                    assert forall|i: int| 0 <= i < args@.len() implies views(args@)[i] == #[trigger] args@[i]@ by {}
                    if untouched(core@, env@) {
                        assert forall|k: int| 0 <= k < args@.len() implies untouched(#[trigger] args@[k]@, env@) by {
                            assert(views(args@)[k] == args@[k]@);
                            assert forall|x: u32| #[trigger] free_in(args@[k]@, x) implies !env_has(env@, x) by {
                                lemma_free_in_list(views(args@), x);
                                assert(free_in(core@, x));
                            }
                        }
                    }
                }
                match self.terms(args, env) {
                    Ok(v) => {
                        let r = Core::Builtin { function: *function, args: v };
                        proof {
                            lemma_views(r);
                            lemma_rewrites_list(views(v@), views(args@), env@);
                            assert forall|i: int| 0 <= i < views(v@).len() implies no_letrec(#[trigger] views(v@)[i]) by {
                                assert(views(v@)[i] == v@[i]@);
                            }
                        }
                        Ok(r)
                    },
                    Err(e) => Err(e),
                }
            },
            _ => Err(Error::RecursiveValue),
        }
    }

    fn unary(&mut self, core: &Core, env: &Vec<Entry>) -> (res: Result<Core, Error>)
        requires
            core is Field || core is Cast || core is Trace || core is Delay || core is Force,
            old(self).wf(),
            old(self).potential() + demand(core@) + 1 < u32::MAX,
            env_clean(env@),
        ensures
            groups_ok(core@) ==> res is Ok,
            res matches Ok(r) ==> no_letrec(r@) && rewrites_to(r@, core@, env@),
            res matches Ok(r) ==> rewritten(core@, r@, env_view(env@)),
            res matches Err(e) ==> fault(core@, e),
            untouched(core@, env@) ==> (res matches Ok(r) && r@ == core@),
            final(self).spent_from(*old(self), demand(core@)),
        decreases core, 3nat,
    {
        proof {
            lemma_views(*core);
        }
        match core {
            Core::Field { record, index, arity } => {
                proof {
                    if untouched(core@, env@) {
                        assert forall|x: u32| #[trigger] free_in(record@, x) implies !env_has(env@, x) by {
                            assert(free_in(core@, x));
                        }
                    }
                }
                match self.term(record, env) {
                Ok(r) => {
                    let t = Core::Field { record: Box::new(r), index: *index, arity: *arity };
                    proof {
                        assert forall|x: u32| #[trigger] free_in(t@, x) implies (free_in(core@, x) && !env_has(env@, x)) || env_free(env@, x) by {
                            assert(free_in(r@, x));
                        }
                    }
                    Ok(t)
                },
                Err(e) => Err(e),
                }
            },
            Core::Cast { cast, from, to, arg } => {
                proof {
                    if untouched(core@, env@) {
                        assert forall|x: u32| #[trigger] free_in(arg@, x) implies !env_has(env@, x) by {
                            assert(free_in(core@, x));
                        }
                    }
                }
                match self.term(arg, env) {
                Ok(r) => {
                    let t = Core::Cast { cast: *cast, from: from.duplicate(), to: to.duplicate(), arg: Box::new(r) };
                    proof {
                        assert forall|x: u32| #[trigger] free_in(t@, x) implies (free_in(core@, x) && !env_has(env@, x)) || env_free(env@, x) by {
                            assert(free_in(r@, x));
                        }
                    }
                    Ok(t)
                },
                Err(e) => Err(e),
                }
            },
            Core::Trace { message, body } => {
                proof {
                    if untouched(core@, env@) {
                        assert forall|x: u32| #[trigger] free_in(message@, x) implies !env_has(env@, x) by {
                            assert(free_in(core@, x));
                        }
                        assert forall|x: u32| #[trigger] free_in(body@, x) implies !env_has(env@, x) by {
                            assert(free_in(core@, x));
                        }
                    }
                }
                let m = match self.term(message, env) {
                    Ok(m) => m,
                    Err(e) => {
                        return Err(e);
                    },
                };
                match self.term(body, env) {
                    Ok(b) => {
                        let t = Core::Trace { message: Box::new(m), body: Box::new(b) };
                        proof {
                            assert forall|x: u32| #[trigger] free_in(t@, x) implies (free_in(core@, x) && !env_has(env@, x)) || env_free(env@, x) by {
                                if !free_in(m@, x) {
                                    assert(free_in(b@, x));
                                }
                            }
                        }
                        Ok(t)
                    },
                    Err(e) => Err(e),
                }
            },
            Core::Delay(b) => {
                proof {
                    if untouched(core@, env@) {
                        assert forall|x: u32| #[trigger] free_in(b@, x) implies !env_has(env@, x) by {
                            assert(free_in(core@, x));
                        }
                    }
                }
                match self.term(b, env) {
                Ok(r) => {
                    let t = Core::Delay(Box::new(r));
                    proof {
                        assert forall|x: u32| #[trigger] free_in(t@, x) implies (free_in(core@, x) && !env_has(env@, x)) || env_free(env@, x) by {
                            assert(free_in(r@, x));
                        }
                    }
                    Ok(t)
                },
                Err(e) => Err(e),
                }
            },
            Core::Force(b) => {
                proof {
                    if untouched(core@, env@) {
                        assert forall|x: u32| #[trigger] free_in(b@, x) implies !env_has(env@, x) by {
                            assert(free_in(core@, x));
                        }
                    }
                }
                match self.term(b, env) {
                Ok(r) => {
                    let t = Core::Force(Box::new(r));
                    proof {
                        assert forall|x: u32| #[trigger] free_in(t@, x) implies (free_in(core@, x) && !env_has(env@, x)) || env_free(env@, x) by {
                            assert(free_in(r@, x));
                        }
                    }
                    Ok(t)
                },
                Err(e) => Err(e),
                }
            },
            _ => Err(Error::RecursiveValue),
        }
    }
}

/// Remove every recursive group of `core`. A single function becomes a
/// self-applied worker; a group of several becomes a dispatcher that picks
/// its members by selector. Fresh names come from `build` and skip every
/// unique that `core` mentions. A term with no recursive group comes back
/// as it is; otherwise the result is `core` rewritten as `rewritten`
/// describes: each recursive call goes to its knot or through its dispatcher.
pub fn rewrite(build: &mut Builder, core: &Core) -> (res: Result<Core, Error>)
    requires
        old(build).next + name_count(core@) + demand(core@) + 1 < u32::MAX,
    ensures
        groups_ok(core@) ==> res is Ok,
        valueless_group(core@) ==> res == Err::<Core, Error>(Error::RecursiveValue),
        res matches Ok(r) ==> no_letrec(r@) && forall|x: u32| #[trigger] free_in(r@, x) ==> free_in(core@, x),
        res matches Ok(r) ==> rewritten(core@, r@, Seq::empty()),
        res matches Err(e) ==> fault(core@, e),
        no_letrec(core@) ==> (res matches Ok(r) && r@ == core@),
        final(build).next <= old(build).next + name_count(core@) + demand(core@),
{
    let mut names: Vec<u32> = Vec::new();
    collect_names(core, &mut names);
    let mut used: HashSet<u32> = HashSet::new();
    let mut i: usize = 0;
    while i < names.len()
        invariant
            i <= names@.len(),
            names@.len() == name_count(core@),
            used@ == names@.take(i as int).to_set(),
        decreases names@.len() - i,
    {
        used.insert(names[i]);
        proof {
            let before = names@.take(i as int);
            let after = names@.take(i + 1);
            assert forall|u: u32| after.contains(u) <==> before.contains(u) || u == names@[i as int] by {
                if after.contains(u) {
                    let k = choose|k: int| 0 <= k < after.len() && after[k] == u;
                    if k < i {
                        assert(before[k] == u);
                    }
                }
                if before.contains(u) {
                    let k = choose|k: int| 0 <= k < before.len() && before[k] == u;
                    assert(after[k] == u);
                }
                if u == names@[i as int] {
                    assert(after[i as int] == u);
                }
            }
            assert(after.to_set() =~= before.to_set().insert(names@[i as int]));
        }
        i += 1;
    }
    proof {
        assert(names@.take(i as int) =~= names@);
        vstd::seq_lib::seq_to_set_is_finite(names@);
        names@.lemma_cardinality_of_set();
        used@.lemma_len_filter(|x: u32| x >= build.next);
    }
    let ghost start = used@;
    let mut rw = Rewriter { build: Builder::new(build.next), used, initial: Ghost(start) };
    proof {
        assert(rw.potential() <= build.next + name_count(core@));
    }
    let env: Vec<Entry> = Vec::new();
    proof {
        assert(!exists|u: u32| env_has(env@, u));
    }
    proof {
        assert(env_view(env@) =~= Seq::<EntryV>::empty());
    }
    let res = rw.term(core, &env);
    build.next = rw.build.next;
    proof {
        if res is Ok {
            let r = res->Ok_0;
            assert forall|x: u32| #[trigger] free_in(r@, x) implies free_in(core@, x) by {
                assert(!env_free(env@, x));
            }
        }
    }
    res
}

} // verus!
