//! Assemble reachable Core bindings into a closed UPLC program: free
//! variables of Core terms, the reachable closure of top-level bindings,
//! and the pipeline that rewrites recursion and lowers the result.
use vstd::prelude::*;
use std::collections::{HashMap, HashSet};
use crate::ir::{
    lemma_views,
    Core, Name, Binder, Branch, RecBinder, Tm, BranchTm, RecTm, views, branch_views, group_views,
    binder_uniques, group_uniques, free_in, free_in_list, free_in_branches, free_in_group, Builder,
};
use crate::recursion::{rewrite, groups_ok, no_letrec, name_count, demand, fault, rewritten};
use crate::lower::{lower, lowers, lower_tm, largest, faults};
use crate::uplc::{Term, UTm, uclosed};
use crate::debruijn::{DTerm, debruijn_tm, to_debruijn, indexes};
use crate::closed::lemma_lower_closed;

verus! {

broadcast use vstd::std_specs::hash::group_hash_axioms;

/// Free occurrences of `c` in traversal order, given the uniques in `scope`
/// as bound. Branch bodies come before the default; group bodies before the
/// body of a `LetRec`; a `Let` value before its body.
pub open spec fn occ(t: Tm, scope: Seq<u32>) -> Seq<Name>
    decreases t,
{
    match t {
        Tm::Var(n) => if scope.contains(n.unique) {
            Seq::empty()
        } else {
            seq![n]
        },
        Tm::Lit(_) => Seq::empty(),
        Tm::Error => Seq::empty(),
        Tm::Lam(params, body) => occ(*body, scope + binder_uniques(params)),
        Tm::App(func, args) => occ(*func, scope) + occ_list(args, scope),
        Tm::Let(binder, value, body) => occ(*value, scope) + occ(*body, scope.push(binder.name.unique)),
        Tm::LetRec(binders, body) => occ_group(binders, scope + group_uniques(binders)) + occ(
            *body,
            scope + group_uniques(binders),
        ),
        Tm::Case(_, scrutinee, branches, default) => occ(*scrutinee, scope) + occ_branches(
            branches,
            scope,
        ) + match default {
            Some(d) => occ(*d, scope),
            None => Seq::empty(),
        },
        Tm::Constr(_, fields) => occ_list(fields, scope),
        Tm::Field(record, _, _) => occ(*record, scope),
        Tm::Builtin(_, args) => occ_list(args, scope),
        Tm::Cast(_, _, _, arg) => occ(*arg, scope),
        Tm::Trace(message, body) => occ(*message, scope) + occ(*body, scope),
        Tm::Delay(b) => occ(*b, scope),
        Tm::Force(b) => occ(*b, scope),
    }
}

pub open spec fn occ_list(s: Seq<Tm>, scope: Seq<u32>) -> Seq<Name>
    decreases s,
{
    if s.len() == 0 {
        Seq::empty()
    } else {
        occ_list(s.drop_last(), scope) + occ(s.last(), scope)
    }
}

pub open spec fn occ_branches(s: Seq<BranchTm>, scope: Seq<u32>) -> Seq<Name>
    decreases s,
{
    if s.len() == 0 {
        Seq::empty()
    } else {
        occ_branches(s.drop_last(), scope) + occ(
            s.last().body,
            scope + binder_uniques(s.last().binders),
        )
    }
}

pub open spec fn occ_group(s: Seq<RecTm>, scope: Seq<u32>) -> Seq<Name>
    decreases s,
{
    if s.len() == 0 {
        Seq::empty()
    } else {
        occ_group(s.drop_last(), scope) + occ(s.last().body, scope + binder_uniques(s.last().params))
    }
}

/// Appending the names of `s` to `out`, skipping every unique already in
/// `seen` or met before in `s`; the seen set grows accordingly.
pub open spec fn absorb(seen: Set<u32>, out: Seq<Name>, s: Seq<Name>) -> (Set<u32>, Seq<Name>)
    decreases s.len(),
{
    if s.len() == 0 {
        (seen, out)
    } else {
        let prev = absorb(seen, out, s.drop_last());
        let n = s.last();
        if prev.0.contains(n.unique) {
            prev
        } else {
            (prev.0.insert(n.unique), prev.1.push(n))
        }
    }
}

/// The free names of `c`, each once, in order of first occurrence.
pub open spec fn spec_free_variables(t: Tm) -> Seq<Name> {
    absorb(Set::empty(), Seq::empty(), occ(t, Seq::empty())).1
}

pub proof fn lemma_absorb_append(seen: Set<u32>, out: Seq<Name>, s1: Seq<Name>, s2: Seq<Name>)
    ensures
        absorb(seen, out, s1 + s2) == absorb(absorb(seen, out, s1).0, absorb(seen, out, s1).1, s2),
    decreases s2.len(),
{
    if s2.len() == 0 {
        assert(s1 + s2 =~= s1);
    } else {
        lemma_absorb_append(seen, out, s1, s2.drop_last());
        assert((s1 + s2).drop_last() =~= s1 + s2.drop_last());
        assert((s1 + s2).last() == s2.last());
    }
}

proof fn lemma_absorb_single(seen: Set<u32>, out: Seq<Name>, n: Name)
    ensures
        absorb(seen, out, seq![n]) == (if seen.contains(n.unique) {
            (seen, out)
        } else {
            (seen.insert(n.unique), out.push(n))
        }),
{
    assert(seq![n].drop_last() =~= Seq::<Name>::empty());
    assert(seq![n].last() == n);
    assert(absorb(seen, out, seq![n].drop_last()) == (seen, out));
}

proof fn lemma_absorb_empty(seen: Set<u32>, out: Seq<Name>)
    ensures
        absorb(seen, out, Seq::empty()) == (seen, out),
{
}

fn contains_unique(scope: &Vec<u32>, u: u32) -> (r: bool)
    ensures
        r == scope@.contains(u),
{
    let mut i: usize = 0;
    while i < scope.len()
        invariant
            i <= scope.len(),
            forall|j: int| 0 <= j < i ==> scope@[j] != u,
        decreases scope.len() - i,
    {
        if scope[i] == u {
            return true;
        }
        i += 1;
    }
    false
}

/// Push the uniques of `binders` onto `scope`.
pub fn push_binders(scope: &mut Vec<u32>, binders: &Vec<Binder>)
    ensures
        final(scope)@ == old(scope)@ + binder_uniques(binders@),
{
    let ghost start = scope@;
    let mut i: usize = 0;
    while i < binders.len()
        invariant
            i <= binders.len(),
            scope@ == start + binder_uniques(binders@).take(i as int),
        decreases binders.len() - i,
    {
        scope.push(binders[i].name.unique);
        i += 1;
        assert(binder_uniques(binders@).take(i as int) =~= binder_uniques(binders@).take(
            (i - 1) as int,
        ).push(binders@[i - 1].name.unique));
    }
    assert(binder_uniques(binders@).take(i as int) =~= binder_uniques(binders@));
}

fn push_group(scope: &mut Vec<u32>, binders: &Vec<RecBinder>)
    ensures
        final(scope)@ == old(scope)@ + group_uniques(group_views(binders@)),
{
    let ghost start = scope@;
    let mut i: usize = 0;
    while i < binders.len()
        invariant
            i <= binders.len(),
            scope@ == start + group_uniques(group_views(binders@)).take(i as int),
        decreases binders.len() - i,
    {
        scope.push(binders[i].binder.name.unique);
        i += 1;
        assert(group_uniques(group_views(binders@)).take(i as int) =~= group_uniques(group_views(binders@)).take(
            (i - 1) as int,
        ).push(binders@[i - 1].binder.name.unique));
    }
    assert(group_uniques(group_views(binders@)).take(i as int) =~= group_uniques(group_views(binders@)));
}

fn free(core: &Core, scope: &mut Vec<u32>, seen: &mut HashSet<u32>, out: &mut Vec<Name>)
    ensures
        final(scope)@ == old(scope)@,
        (final(seen)@, final(out)@) == absorb(old(seen)@, old(out)@, occ(core@, old(scope)@)),
    decreases core,
{
    let ghost s0 = scope@;
    let depth = scope.len();
    proof {
        lemma_views(*core);
    }
    match core {
        Core::Var(name) => {
            proof {
                lemma_absorb_single(seen@, out@, *name);
                lemma_absorb_empty(seen@, out@);
            }
            if !contains_unique(scope, name.unique) {
                if seen.insert(name.unique) {
                    out.push(name.duplicate());
                }
            }
        },
        Core::Lit(_) | Core::Error => {
            proof {
                lemma_absorb_empty(seen@, out@);
            }
        },
        Core::Lam { params, body } => {
            push_binders(scope, params);
            free(body, scope, seen, out);
            scope.truncate(depth);
            assert(scope@ =~= s0);
        },
        Core::App { func, args } => {
            let ghost se = seen@;
            let ghost ou = out@;
            free(func, scope, seen, out);
            proof {
                assert(decreases_to!(*core => (*core)->App_args));
            }
            free_list(args, scope, seen, out);
            proof {
                lemma_absorb_append(se, ou, occ(func@, s0), occ_list(views(args@), s0));
            }
        },
        Core::Let { binder, value, body } => {
            let ghost se = seen@;
            let ghost ou = out@;
            free(value, scope, seen, out);
            scope.push(binder.name.unique);
            free(body, scope, seen, out);
            scope.truncate(depth);
            assert(scope@ =~= s0);
            proof {
                lemma_absorb_append(se, ou, occ(value@, s0), occ(body@, s0.push(binder.name.unique)));
            }
        },
        Core::LetRec { binders, body } => {
            let ghost se = seen@;
            let ghost ou = out@;
            push_group(scope, binders);
            let ghost g = scope@;
            proof {
                assert(decreases_to!(*core => (*core)->LetRec_binders));
            }
            free_group(binders, scope, seen, out);
            free(body, scope, seen, out);
            scope.truncate(depth);
            assert(scope@ =~= s0);
            proof {
                lemma_absorb_append(se, ou, occ_group(group_views(binders@), g), occ(body@, g));
            }
        },
        Core::Case { scrutinee, branches, default, kind } => {
            let ghost se = seen@;
            let ghost ou = out@;
            free(scrutinee, scope, seen, out);
            proof {
                assert(decreases_to!(*core => (*core)->Case_branches));
            }
            free_branches(branches, scope, seen, out);
            let ghost d = match default {
                Some(d) => occ(d@, s0),
                None => Seq::<Name>::empty(),
            };
            proof {
                lemma_absorb_append(se, ou, occ(scrutinee@, s0), occ_branches(branch_views(branches@), s0));
                lemma_absorb_append(
                    se,
                    ou,
                    occ(scrutinee@, s0) + occ_branches(branch_views(branches@), s0),
                    d,
                );
            }
            match default {
                Some(body) => {
                    free(body, scope, seen, out);
                },
                None => {
                    proof {
                        lemma_absorb_empty(seen@, out@);
                    }
                },
            }
        },
        Core::Constr { fields, tag } => {
            proof {
                assert(decreases_to!(*core => (*core)->Constr_fields));
            }
            free_list(fields, scope, seen, out);
        },
        Core::Builtin { args, .. } => {
            proof {
                assert(decreases_to!(*core => (*core)->Builtin_args));
            }
            free_list(args, scope, seen, out);
        },
        Core::Field { record, .. } => {
            free(record, scope, seen, out);
        },
        Core::Cast { arg, .. } => {
            free(arg, scope, seen, out);
        },
        Core::Trace { message, body } => {
            let ghost se = seen@;
            let ghost ou = out@;
            free(message, scope, seen, out);
            free(body, scope, seen, out);
            proof {
                lemma_absorb_append(se, ou, occ(message@, s0), occ(body@, s0));
            }
        },
        Core::Delay(body) | Core::Force(body) => {
            free(body, scope, seen, out);
        },
    }
}

fn free_list(items: &Vec<Core>, scope: &mut Vec<u32>, seen: &mut HashSet<u32>, out: &mut Vec<Name>)
    ensures
        final(scope)@ == old(scope)@,
        (final(seen)@, final(out)@) == absorb(old(seen)@, old(out)@, occ_list(views(items@), old(scope)@)),
    decreases items,
{
    let ghost s0 = scope@;
    let ghost se = seen@;
    let ghost ou = out@;
    let ghost vs = views(items@);
    let mut i: usize = 0;
    assert(vs.take(0) =~= Seq::<Tm>::empty());
    while i < items.len()
        invariant
            i <= items.len(),
            scope@ == s0,
            vs == views(items@),
            (seen@, out@) == absorb(se, ou, occ_list(vs.take(i as int), s0)),
        decreases items.len() - i,
    {
        proof {
            assert(decreases_to!(*items => items[i as int]));
            assert(vs.take(i + 1).drop_last() =~= vs.take(i as int));
            assert(vs.take(i + 1).last() == items@[i as int]@);
            lemma_absorb_append(se, ou, occ_list(vs.take(i as int), s0), occ(items@[i as int]@, s0));
        }
        free(&items[i], scope, seen, out);
        i += 1;
    }
    assert(vs.take(i as int) =~= vs);
}

fn free_branches(
    items: &Vec<Branch>,
    scope: &mut Vec<u32>,
    seen: &mut HashSet<u32>,
    out: &mut Vec<Name>,
)
    ensures
        final(scope)@ == old(scope)@,
        (final(seen)@, final(out)@) == absorb(old(seen)@, old(out)@, occ_branches(branch_views(items@), old(scope)@)),
    decreases items,
{
    let ghost s0 = scope@;
    let ghost se = seen@;
    let ghost ou = out@;
    let ghost vs = branch_views(items@);
    let depth = scope.len();
    let mut i: usize = 0;
    assert(vs.take(0) =~= Seq::<BranchTm>::empty());
    while i < items.len()
        invariant
            i <= items.len(),
            depth == s0.len(),
            scope@ == s0,
            vs == branch_views(items@),
            (seen@, out@) == absorb(se, ou, occ_branches(vs.take(i as int), s0)),
        decreases items.len() - i,
    {
        let branch = &items[i];
        proof {
            assert(decreases_to!(*items => items[i as int]));
            assert(decreases_to!(items[i as int] => items[i as int].body));
            assert(vs.take(i + 1).drop_last() =~= vs.take(i as int));
            assert(vs.take(i + 1).last() == items@[i as int]@);
            lemma_absorb_append(
                se,
                ou,
                occ_branches(vs.take(i as int), s0),
                occ(branch.body@, s0 + binder_uniques(branch.binders@)),
            );
        }
        push_binders(scope, &branch.binders);
        free(&branch.body, scope, seen, out);
        scope.truncate(depth);
        assert(scope@ =~= s0);
        i += 1;
    }
    assert(vs.take(i as int) =~= vs);
}

fn free_group(
    items: &Vec<RecBinder>,
    scope: &mut Vec<u32>,
    seen: &mut HashSet<u32>,
    out: &mut Vec<Name>,
)
    ensures
        final(scope)@ == old(scope)@,
        (final(seen)@, final(out)@) == absorb(old(seen)@, old(out)@, occ_group(group_views(items@), old(scope)@)),
    decreases items,
{
    let ghost s0 = scope@;
    let ghost se = seen@;
    let ghost ou = out@;
    let ghost vs = group_views(items@);
    let depth = scope.len();
    let mut i: usize = 0;
    assert(vs.take(0) =~= Seq::<RecTm>::empty());
    while i < items.len()
        invariant
            i <= items.len(),
            depth == s0.len(),
            scope@ == s0,
            vs == group_views(items@),
            (seen@, out@) == absorb(se, ou, occ_group(vs.take(i as int), s0)),
        decreases items.len() - i,
    {
        let rb = &items[i];
        proof {
            assert(decreases_to!(*items => items[i as int]));
            assert(decreases_to!(items[i as int] => items[i as int].body));
            assert(vs.take(i + 1).drop_last() =~= vs.take(i as int));
            assert(vs.take(i + 1).last() == items@[i as int]@);
            lemma_absorb_append(
                se,
                ou,
                occ_group(vs.take(i as int), s0),
                occ(rb.body@, s0 + binder_uniques(rb.params@)),
            );
        }
        push_binders(scope, &rb.params);
        free(&rb.body, scope, seen, out);
        scope.truncate(depth);
        assert(scope@ =~= s0);
        i += 1;
    }
    assert(vs.take(i as int) =~= vs);
}

/// Free runtime names in deterministic source traversal order, each once.
/// Name identity follows the unique number.
pub fn free_variables(core: &Core) -> (r: Vec<Name>)
    ensures
        r@ == spec_free_variables(core@),
{
    let mut result = Vec::new();
    let mut scope = Vec::new();
    let mut seen = HashSet::new();
    free(core, &mut scope, &mut seen, &mut result);
    result
}


/// Some name of `s` has unique `u`.
pub open spec fn has_unique(s: Seq<Name>, u: u32) -> bool {
    exists|i: int| 0 <= i < s.len() && s[i].unique == u
}

/// The uniques of the names in `s` are pairwise distinct.
pub open spec fn distinct_uniques(s: Seq<Name>) -> bool {
    forall|i: int, j: int| 0 <= i < j < s.len() ==> s[i].unique != s[j].unique
}

proof fn lemma_has_concat(a: Seq<Name>, b: Seq<Name>, u: u32)
    ensures
        has_unique(a + b, u) <==> (has_unique(a, u) || has_unique(b, u)),
{
    if has_unique(a + b, u) {
        let i = choose|i: int| 0 <= i < (a + b).len() && (a + b)[i].unique == u;
        if i >= a.len() {
            assert(b[i - a.len()].unique == u);
        }
    }
    if has_unique(b, u) {
        let i = choose|i: int| 0 <= i < b.len() && b[i].unique == u;
        assert((a + b)[a.len() + i].unique == u);
    }
    if has_unique(a, u) {
        let i = choose|i: int| 0 <= i < a.len() && a[i].unique == u;
        assert((a + b)[i].unique == u);
    }
}

proof fn lemma_contains_concat(a: Seq<u32>, b: Seq<u32>, u: u32)
    ensures
        (a + b).contains(u) <==> (a.contains(u) || b.contains(u)),
{
    if (a + b).contains(u) {
        let i = choose|i: int| 0 <= i < (a + b).len() && (a + b)[i] == u;
        if i >= a.len() {
            assert(b[i - a.len()] == u);
        }
    }
    if b.contains(u) {
        let i = choose|i: int| 0 <= i < b.len() && b[i] == u;
        assert((a + b)[a.len() + i] == u);
    }
    if a.contains(u) {
        let i = choose|i: int| 0 <= i < a.len() && a[i] == u;
        assert((a + b)[i] == u);
    }
}

proof fn lemma_occ_free(t: Tm, scope: Seq<u32>, u: u32)
    ensures
        has_unique(occ(t, scope), u) <==> (!scope.contains(u) && free_in(t, u)),
    decreases t,
{
    match t {
        Tm::Var(n) => {
            if !scope.contains(n.unique) {
                assert(occ(t, scope) == seq![n]);
                assert(seq![n][0].unique == n.unique);
                if has_unique(seq![n], u) {
                    let i = choose|i: int| 0 <= i < seq![n].len() && seq![n][i].unique == u;
                    assert(i == 0);
                }
            } else {
                assert(occ(t, scope) == Seq::<Name>::empty());
                assert(!has_unique(occ(t, scope), u));
            }
        },
        Tm::Lit(_) => {},
        Tm::Error => {},
        Tm::Lam(params, body) => {
            lemma_occ_free(*body, scope + binder_uniques(params), u);
            lemma_contains_concat(scope, binder_uniques(params), u);
        },
        Tm::App(func, args) => {
            lemma_occ_free(*func, scope, u);
            lemma_occ_list_free(args, scope, u);
            lemma_has_concat(occ(*func, scope), occ_list(args, scope), u);
        },
        Tm::Let(binder, value, body) => {
            lemma_occ_free(*value, scope, u);
            lemma_occ_free(*body, scope.push(binder.name.unique), u);
            lemma_has_concat(occ(*value, scope), occ(*body, scope.push(binder.name.unique)), u);
            lemma_contains_concat(scope, seq![binder.name.unique], u);
            assert(scope.push(binder.name.unique) =~= scope + seq![binder.name.unique]);
            assert(seq![binder.name.unique][0] == binder.name.unique);
            assert(seq![binder.name.unique].contains(u) <==> binder.name.unique == u);
        },
        Tm::LetRec(binders, body) => {
            let g = scope + group_uniques(binders);
            lemma_occ_free(*body, g, u);
            lemma_occ_group_free(binders, g, u);
            lemma_has_concat(occ_group(binders, g), occ(*body, g), u);
            lemma_contains_concat(scope, group_uniques(binders), u);
        },
        Tm::Case(_, scrutinee, branches, default) => {
            lemma_occ_free(*scrutinee, scope, u);
            lemma_occ_branches_free(branches, scope, u);
            let d = match default {
                Some(d) => occ(*d, scope),
                None => Seq::<Name>::empty(),
            };
            match default {
                Some(d) => {
                    lemma_occ_free(*d, scope, u);
                },
                None => {},
            }
            lemma_has_concat(occ(*scrutinee, scope), occ_branches(branches, scope), u);
            lemma_has_concat(occ(*scrutinee, scope) + occ_branches(branches, scope), d, u);
        },
        Tm::Constr(_, fields) => {
            lemma_occ_list_free(fields, scope, u);
        },
        Tm::Field(record, _, _) => {
            lemma_occ_free(*record, scope, u);
        },
        Tm::Builtin(_, args) => {
            lemma_occ_list_free(args, scope, u);
        },
        Tm::Cast(_, _, _, arg) => {
            lemma_occ_free(*arg, scope, u);
        },
        Tm::Trace(message, body) => {
            lemma_occ_free(*message, scope, u);
            lemma_occ_free(*body, scope, u);
            lemma_has_concat(occ(*message, scope), occ(*body, scope), u);
        },
        Tm::Delay(b) => {
            lemma_occ_free(*b, scope, u);
        },
        Tm::Force(b) => {
            lemma_occ_free(*b, scope, u);
        },
    }
}

proof fn lemma_occ_list_free(s: Seq<Tm>, scope: Seq<u32>, u: u32)
    ensures
        has_unique(occ_list(s, scope), u) <==> (!scope.contains(u) && free_in_list(s, u)),
    decreases s,
{
    if s.len() > 0 {
        lemma_occ_list_free(s.drop_last(), scope, u);
        lemma_occ_free(s.last(), scope, u);
        lemma_has_concat(occ_list(s.drop_last(), scope), occ(s.last(), scope), u);
    }
}

proof fn lemma_occ_branches_free(s: Seq<BranchTm>, scope: Seq<u32>, u: u32)
    ensures
        has_unique(occ_branches(s, scope), u) <==> (!scope.contains(u) && free_in_branches(s, u)),
    decreases s,
{
    if s.len() > 0 {
        let b = s.last();
        lemma_occ_branches_free(s.drop_last(), scope, u);
        lemma_occ_free(b.body, scope + binder_uniques(b.binders), u);
        lemma_contains_concat(scope, binder_uniques(b.binders), u);
        lemma_has_concat(
            occ_branches(s.drop_last(), scope),
            occ(b.body, scope + binder_uniques(b.binders)),
            u,
        );
    }
}

proof fn lemma_occ_group_free(s: Seq<RecTm>, scope: Seq<u32>, u: u32)
    ensures
        has_unique(occ_group(s, scope), u) <==> (!scope.contains(u) && free_in_group(s, u)),
    decreases s,
{
    if s.len() > 0 {
        let b = s.last();
        lemma_occ_group_free(s.drop_last(), scope, u);
        lemma_occ_free(b.body, scope + binder_uniques(b.params), u);
        lemma_contains_concat(scope, binder_uniques(b.params), u);
        lemma_has_concat(
            occ_group(s.drop_last(), scope),
            occ(b.body, scope + binder_uniques(b.params)),
            u,
        );
    }
}

/// What `absorb` keeps: it adds the uniques of `s` to `seen`, and appends to
/// `out` exactly one name for each unique of `s` that was not yet seen.
proof fn lemma_absorb_props(seen: Set<u32>, out: Seq<Name>, s: Seq<Name>)
    ensures
        ({
            let (seen2, out2) = absorb(seen, out, s);
            &&& forall|u: u32| seen2.contains(u) <==> (seen.contains(u) || has_unique(s, u))
            &&& out2.len() >= out.len()
            &&& out2.subrange(0, out.len() as int) == out
            &&& forall|i: int|
                out.len() <= i < out2.len() ==> !seen.contains(#[trigger] out2[i].unique)
                    && has_unique(s, out2[i].unique)
            &&& forall|i: int, j: int|
                out.len() <= i < j < out2.len() ==> out2[i].unique != out2[j].unique
            &&& forall|u: u32|
                has_unique(s, u) && !seen.contains(u) ==> has_unique(
                    out2.subrange(out.len() as int, out2.len() as int),
                    u,
                )
        }),
    decreases s.len(),
{
    if s.len() == 0 {
        assert(absorb(seen, out, s) == (seen, out));
        assert(out.subrange(0, out.len() as int) =~= out);
    } else {
        let prev = absorb(seen, out, s.drop_last());
        lemma_absorb_props(seen, out, s.drop_last());
        let n = s.last();
        let (seen2, out2) = absorb(seen, out, s);
        assert(s.drop_last() + seq![n] =~= s);
        lemma_has_concat(s.drop_last(), seq![n], n.unique);
        assert forall|u: u32| has_unique(s.drop_last(), u) implies has_unique(s, u) by {
            let i = choose|i: int| 0 <= i < s.drop_last().len() && s.drop_last()[i].unique == u;
            assert(s[i].unique == u);
        }
        assert(has_unique(s, n.unique)) by {
            assert(s[s.len() - 1].unique == n.unique);
        }
        assert forall|u: u32| has_unique(s, u) implies (has_unique(s.drop_last(), u) || u == n.unique) by {
            let i = choose|i: int| 0 <= i < s.len() && s[i].unique == u;
            if i < s.len() - 1 {
                assert(s.drop_last()[i].unique == u);
            }
        }
        if !prev.0.contains(n.unique) {
            assert(out2 == prev.1.push(n));
            assert(out2.subrange(0, out.len() as int) =~= prev.1.subrange(0, out.len() as int));
            assert forall|u: u32| has_unique(s, u) && !seen.contains(u) implies has_unique(
                out2.subrange(out.len() as int, out2.len() as int),
                u,
            ) by {
                if u == n.unique {
                    assert(out2.subrange(out.len() as int, out2.len() as int)[out2.len() - 1
                        - out.len()].unique == u);
                } else {
                    let sub1 = prev.1.subrange(out.len() as int, prev.1.len() as int);
                    let k = choose|k: int| 0 <= k < sub1.len() && sub1[k].unique == u;
                    assert(out2.subrange(out.len() as int, out2.len() as int)[k].unique == u);
                }
            }
        } else {
            assert forall|u: u32| has_unique(s, u) && !seen.contains(u) implies has_unique(
                out2.subrange(out.len() as int, out2.len() as int),
                u,
            ) by {
                if u == n.unique {
                    // already seen before this step, so met earlier in `s`
                    assert(has_unique(s.drop_last(), u));
                }
            }
        }
    }
}

/// Each free name is listed exactly once, and the listed uniques are exactly
/// the free ones.
pub proof fn lemma_free_variables_exact(c: Tm)
    ensures
        distinct_uniques(spec_free_variables(c)),
        forall|u: u32| has_unique(spec_free_variables(c), u) <==> free_in(c, u),
{
    let s = occ(c, Seq::empty());
    lemma_absorb_props(Set::empty(), Seq::empty(), s);
    let out = spec_free_variables(c);
    assert(out.subrange(0, out.len() as int) =~= out);
    assert forall|u: u32| has_unique(out, u) <==> free_in(c, u) by {
        lemma_occ_free(c, Seq::empty(), u);
    }
}


/// The uniques of the top-level binders are pairwise distinct.
pub open spec fn distinct_binders(bs: Seq<(Binder, Core)>) -> bool {
    forall|i: int, j: int|
        0 <= i < bs.len() && 0 <= j < bs.len() && i != j ==> bs[i].0.name.unique
            != bs[j].0.name.unique
}

/// `t` holds every binding that `root` names and is closed under the
/// bindings' own free names.
pub open spec fn closed_under(bs: Seq<(Binder, Core)>, root: Core, t: Set<int>) -> bool {
    &&& forall|j: int|
        #![trigger free_in(root@, bs[j].0.name.unique)]
        0 <= j < bs.len() && free_in(root@, bs[j].0.name.unique) ==> t.contains(j)
    &&& forall|i: int, j: int|
        #![trigger free_in(bs[i].1@, bs[j].0.name.unique)]
        t.contains(i) && 0 <= i < bs.len() && 0 <= j < bs.len() && free_in(
            bs[i].1@,
            bs[j].0.name.unique,
        ) ==> t.contains(j)
}

/// Binding `i` is in the transitive dependency closure of `root`: every
/// closed set of bindings contains it.
pub open spec fn needed(bs: Seq<(Binder, Core)>, root: Core, i: int) -> bool {
    forall|t: Set<int>| #[trigger] closed_under(bs, root, t) ==> t.contains(i)
}

/// The bindings of `bs` whose index is in `keep`, in their original order.
pub open spec fn kept(bs: Seq<(Binder, Core)>, keep: Set<int>) -> Seq<(Binder, Core)>
    decreases bs.len(),
{
    if bs.len() == 0 {
        Seq::empty()
    } else if keep.contains(bs.len() - 1) {
        kept(bs.drop_last(), keep).push(bs.last())
    } else {
        kept(bs.drop_last(), keep)
    }
}

/// The index set of the dependency closure of `root` over `bs`.
pub open spec fn closure(bs: Seq<(Binder, Core)>, root: Core) -> Set<int> {
    Set::new(|i: int| 0 <= i < bs.len() && needed(bs, root, i))
}

fn index_by_unique(bindings: &Vec<(Binder, Core)>) -> (m: HashMap<u32, usize>)
    requires
        distinct_binders(bindings@),
    ensures
        forall|u: u32| #[trigger] m@.contains_key(u) <==> exists|i: int| 0 <= i < bindings@.len() && bindings@[i].0.name.unique == u,
        forall|u: u32| m@.contains_key(u) ==> {
            &&& (#[trigger] m@[u]) < bindings@.len()
            &&& bindings@[m@[u] as int].0.name.unique == u
        },
{
    let mut m: HashMap<u32, usize> = HashMap::new();
    let mut i: usize = 0;
    while i < bindings.len()
        invariant
            i <= bindings.len(),
            distinct_binders(bindings@),
            forall|u: u32| #[trigger] m@.contains_key(u) <==> exists|k: int| 0 <= k < i && bindings@[k].0.name.unique == u,
            forall|u: u32| m@.contains_key(u) ==> {
                &&& (#[trigger] m@[u]) < i
                &&& bindings@[m@[u] as int].0.name.unique == u
            },
        decreases bindings.len() - i,
    {
        m.insert(bindings[i].0.name.unique, i);
        i += 1;
        assert forall|u: u32| (exists|k: int| 0 <= k < i && bindings@[k].0.name.unique == u) implies #[trigger] m@.contains_key(u) by {
            let k = choose|k: int| 0 <= k < i && bindings@[k].0.name.unique == u;
            if k < i - 1 {
                assert(m@.contains_key(u));
            }
        }
    }
    m
}

proof fn lemma_index_set_len(s: Set<usize>, n: usize)
    requires
        s.finite(),
        forall|i: usize| s.contains(i) ==> i < n,
    ensures
        s.len() <= n,
{
    let f = |i: usize| i as int;
    let y = s.map(f);
    assert(vstd::relations::injective_on(f, s));
    vstd::set_lib::lemma_map_size(s, y, f);
    vstd::set_lib::lemma_int_range(0, n as int);
    assert(y.subset_of(vstd::set_lib::set_int_range(0, n as int)));
    vstd::set_lib::lemma_len_subset(y, vstd::set_lib::set_int_range(0, n as int));
}

/// Every binding that `root` or an already selected binding names is
/// selected or still has its name pending.
pub open spec fn covered(
    bs: Seq<(Binder, Core)>,
    root: Core,
    seen: Set<usize>,
    pending: Seq<Name>,
) -> bool {
    forall|j: int|
        #![trigger bs[j].0.name.unique]
        0 <= j < bs.len() && (free_in(root@, bs[j].0.name.unique) || exists|i: usize|
            seen.contains(i) && free_in(bs[i as int].1@, bs[j].0.name.unique)) ==> seen.contains(
            j as usize,
        ) || has_unique(pending, bs[j].0.name.unique)
}

/// Select the transitive dependency closure of `root` in the original
/// binding order. Top-level binder uniques must be distinct.
pub fn reachable(bindings: Vec<(Binder, Core)>, root: &Core) -> (r: Vec<(Binder, Core)>)
    requires
        distinct_binders(bindings@),
    ensures
        r@ == kept(bindings@, closure(bindings@, *root)),
{
    let ghost bs = bindings@;
    let n = bindings.len();
    let by_name = index_by_unique(&bindings);
    let mut seen: HashSet<usize> = HashSet::new();
    let mut pending = free_variables(root);
    proof {
        lemma_free_variables_exact(root@);
        assert forall|k: int| #![trigger pending@[k]] 0 <= k < pending@.len() implies forall|j: int| 0 <= j < n && #[trigger] bs[j].0.name.unique == pending@[k].unique ==> needed(bs, *root, j) by {
            assert(has_unique(pending@, pending@[k].unique));
            assert forall|j: int| 0 <= j < n && #[trigger] bs[j].0.name.unique == pending@[k].unique implies needed(bs, *root, j) by {
                assert(free_in(root@, bs[j].0.name.unique));
            }
        }
    }
    while pending.len() > 0
        invariant
            n == bs.len(),
            bindings@ == bs,
            distinct_binders(bs),
            forall|u: u32| #[trigger] by_name@.contains_key(u) <==> exists|i: int| 0 <= i < bs.len() && bs[i].0.name.unique == u,
            forall|u: u32| by_name@.contains_key(u) ==> {
                &&& (#[trigger] by_name@[u]) < bs.len()
                &&& bs[by_name@[u] as int].0.name.unique == u
            },
            seen@.finite(),
            forall|i: usize| #[trigger] seen@.contains(i) ==> i < n && needed(bs, *root, i as int),
            forall|k: int| #![trigger pending@[k]] 0 <= k < pending@.len() ==> forall|j: int| 0 <= j < n && #[trigger] bs[j].0.name.unique == pending@[k].unique ==> needed(bs, *root, j),
            covered(bs, *root, seen@, pending@),
        decreases n - seen@.len(), pending@.len(),
    {
        let ghost old_pending = pending@;
        let ghost old_seen = seen@;
        assert(covered(bs, *root, old_seen, old_pending));
        let name = pending.pop().unwrap();
        assert(pending@ == old_pending.drop_last());
        assert(name == old_pending.last());
        match by_name.get(&name.unique) {
            Some(index) => {
                let index = *index;
                if seen.insert(index) {
                    let more = free_variables(&bindings[index].1);
                    proof {
                        lemma_free_variables_exact(bs[index as int].1@);
                        assert(needed(bs, *root, index as int)) by {
                            assert(old_pending[old_pending.len() - 1].unique == name.unique);
                        }
                        assert forall|k: int| #![trigger more@[k]] 0 <= k < more@.len() implies forall|j: int| 0 <= j < n && #[trigger] bs[j].0.name.unique == more@[k].unique ==> needed(bs, *root, j) by {
                            assert(has_unique(more@, more@[k].unique));
                            assert forall|j: int| 0 <= j < n && #[trigger] bs[j].0.name.unique == more@[k].unique implies needed(bs, *root, j) by {
                                assert forall|t: Set<int>| #[trigger] closed_under(bs, *root, t) implies t.contains(j) by {
                                    assert(t.contains(index as int));
                                    assert(free_in(bs[index as int].1@, bs[j].0.name.unique));
                                }
                            }
                        }
                        lemma_index_set_len(old_seen, n);
                    }
                    proof {
                        lemma_index_set_len(seen@, n);
                    }
                    let ghost before = pending@;
                    let ghost added = more@;
                    let mut more = more;
                    pending.append(&mut more);
                    proof {
                        assert forall|k: int| #![trigger pending@[k]] 0 <= k < pending@.len() implies forall|j: int| 0 <= j < n && #[trigger] bs[j].0.name.unique == pending@[k].unique ==> needed(bs, *root, j) by {
                            if k < before.len() {
                                assert(pending@[k] == old_pending[k]);
                            }
                        }
                        assert forall|j: int|
                            #![trigger bs[j].0.name.unique]
                            0 <= j < n && (free_in(root@, bs[j].0.name.unique) || exists|i: usize| seen@.contains(i) && free_in(bs[i as int].1@, bs[j].0.name.unique)) implies seen@.contains(j as usize) || has_unique(pending@, bs[j].0.name.unique) by {
                            if !free_in(root@, bs[j].0.name.unique) {
                                let i = choose|i: usize| seen@.contains(i) && free_in(bs[i as int].1@, bs[j].0.name.unique);
                                if i == index {
                                    assert(has_unique(added, bs[j].0.name.unique));
                                } else {
                                    assert(old_seen.contains(i));
                                }
                            }
                            let u = bs[j].0.name.unique;
                            lemma_has_concat(before, added, u);
                            assert(pending@ =~= before + added);
                            lemma_has_concat(before, seq![name], u);
                            assert(before + seq![name] =~= old_pending);
                            if has_unique(seq![name], u) {
                                let q = choose|q: int| 0 <= q < seq![name].len() && seq![name][q].unique == u;
                                assert(q == 0);
                                assert(bs[index as int].0.name.unique == u);
                                assert(index as int == j);
                            }
                        }
                    }
                } else {
                    proof {
                        assert forall|j: int|
                            #![trigger bs[j].0.name.unique]
                            0 <= j < n && (free_in(root@, bs[j].0.name.unique) || exists|i: usize| seen@.contains(i) && free_in(bs[i as int].1@, bs[j].0.name.unique)) implies seen@.contains(j as usize) || has_unique(pending@, bs[j].0.name.unique) by {
                            let u = bs[j].0.name.unique;
                            lemma_has_concat(pending@, seq![name], u);
                            assert(pending@ + seq![name] =~= old_pending);
                            if has_unique(seq![name], u) {
                                let q = choose|q: int| 0 <= q < seq![name].len() && seq![name][q].unique == u;
                                assert(q == 0);
                                assert(bs[index as int].0.name.unique == u);
                                assert(index as int == j);
                            }
                        }
                    }
                }
            },
            None => {
                proof {
                    assert forall|j: int|
                        #![trigger bs[j].0.name.unique]
                        0 <= j < n && (free_in(root@, bs[j].0.name.unique) || exists|i: usize| seen@.contains(i) && free_in(bs[i as int].1@, bs[j].0.name.unique)) implies seen@.contains(j as usize) || has_unique(pending@, bs[j].0.name.unique) by {
                        let u = bs[j].0.name.unique;
                        lemma_has_concat(pending@, seq![name], u);
                        assert(pending@ + seq![name] =~= old_pending);
                        if has_unique(seq![name], u) {
                            let q = choose|q: int| 0 <= q < seq![name].len() && seq![name][q].unique == u;
                            assert(q == 0);
                            assert(by_name@.contains_key(u));
                        }
                    }
                }
            },
        }
    }
    let ghost keep = closure(bs, *root);
    proof {
        let t = Set::new(|i: int| 0 <= i < n && seen@.contains(i as usize));
        assert(closed_under(bs, *root, t)) by {
            assert forall|i: int, j: int|
                #![trigger free_in(bs[i].1@, bs[j].0.name.unique)]
                t.contains(i) && 0 <= i < bs.len() && 0 <= j < bs.len() && free_in(
                    bs[i].1@,
                    bs[j].0.name.unique,
                ) implies t.contains(j) by {
                assert(seen@.contains(i as usize));
            }
        }
        assert forall|i: int| keep.contains(i) <==> 0 <= i < n && seen@.contains(i as usize) by {
            if keep.contains(i) {
                assert(t.contains(i));
            }
        }
    }
    let mut bindings = bindings;
    let mut result: Vec<(Binder, Core)> = Vec::new();
    let mut i: usize = 0;
    assert(bs.take(0) =~= Seq::<(Binder, Core)>::empty());
    while i < n
        invariant
            i <= n,
            n == bs.len(),
            bindings@ == bs.skip(i as int),
            result@ == kept(bs.take(i as int), keep),
            forall|k: int| keep.contains(k) <==> 0 <= k < n && seen@.contains(k as usize),
        decreases n - i,
    {
        let binding = bindings.remove(0);
        proof {
            assert(bs.take(i + 1).drop_last() =~= bs.take(i as int));
            assert(bs.take(i + 1).last() == bs[i as int]);
            assert(bs.skip(i as int).remove(0) =~= bs.skip(i + 1));
        }
        if seen.contains(&i) {
            result.push(binding);
        }
        i += 1;
    }
    assert(bs.take(n as int) =~= bs);
    result
}

/// A module: top-level bindings in dependency order, recursive groups
/// written as `Core::LetRec`, and the root expression.
pub struct Module {
    pub bindings: Vec<(Binder, Core)>,
    pub root: Core,
}

/// The version of the Plutus language a program is written in.
#[derive(Debug)]
pub struct Version {
    pub major: u32,
    pub minor: u32,
    pub patch: u32,
}

impl Version {
    /// The version of Plutus V3 programs: 1.1.0.
    pub fn plutus_v3() -> (r: Version)
        ensures
            r.major == 1 && r.minor == 1 && r.patch == 0,
    {
        Version { major: 1, minor: 1, patch: 0 }
    }

    pub fn is_v1_1_0(&self) -> (r: bool)
        ensures
            r == (self.major == 1 && self.minor == 1 && self.patch == 0),
    {
        self.major == 1 && self.minor == 1 && self.patch == 0
    }
}

/// A UPLC program: a version and a term with De Bruijn indices.
#[derive(Debug)]
pub struct Program {
    pub version: Version,
    pub term: DTerm,
}

/// A compiled program: the program to serialize, and its UPLC term with
/// named variables for human-readable output.
pub struct Compiled {
    pub program: Program,
    pub named: Term,
}

/// Why a module cannot be assembled.
#[derive(Debug)]
pub enum Error {
    /// The program mentions a variable that nothing binds.
    NotClosed(Name),
    /// Two top-level bindings share a unique.
    DuplicateBinding(Name),
    Recursion(crate::recursion::Error),
    Lower(crate::lower::Error),
    /// The lowered term has a free variable, by its unique.
    DeBruijn(usize),
}

/// A Core program is closed and its recursion can be rewritten into `r`,
/// which lowers to `u`: `r` is `core` rewritten with no name replaced, and
/// holds no recursive group.
pub open spec fn assembles_to(core: Tm, r: Tm, u: UTm) -> bool {
    &&& rewritten(core, r, Seq::empty())
    &&& no_letrec(r)
    &&& forall|x: u32| !free_in(r, x)
    &&& lowers(r, largest(r) + 1)
    &&& u == lower_tm(r, largest(r) + 1)
}

/// Assemble an already wrapped Core root: check that it is closed, rewrite
/// its recursion and lower it. Casts must be expanded before. A root with no
/// recursive group is lowered as it is.
pub fn assemble_core(core: Core) -> (res: Result<Compiled, Error>)
    requires
        name_count(core@) + demand(core@) + 1 < u32::MAX,
    ensures
        spec_free_variables(core@).len() > 0 <==> res matches Err(Error::NotClosed(_)),
        res matches Err(Error::NotClosed(n)) ==> n == spec_free_variables(core@)[0],
        (forall|x: u32| !free_in(core@, x)) && groups_ok(core@) ==> !(res is Err && res->Err_0 is Recursion),
        res matches Err(Error::Recursion(e)) ==> fault(core@, e),
        res matches Err(Error::Lower(e)) ==> exists|r: Tm| rewritten(core@, r, Seq::empty()) && no_letrec(r) && (forall|x: u32| !free_in(r, x))
            && !lowers(r, largest(r) + 1) && (e is NameOverflow || faults(r, e)),
        res matches Err(Error::DuplicateBinding(_)) ==> false,
        res matches Ok(c) ==> spec_free_variables(core@).len() == 0 && exists|r: Tm| #[trigger] assembles_to(core@, r, c.named@),
        res matches Ok(c) ==> uclosed(c.named@),
        res matches Ok(c) ==> c.program.version.major == 1 && c.program.version.minor == 1 && c.program.version.patch == 0
            && c.program.term@ == debruijn_tm(c.named@, Seq::empty()) && indexes(c.named@, c.program.term@, Seq::empty()),
        res matches Err(Error::DeBruijn(_)) ==> false,
        no_letrec(core@) && spec_free_variables(core@).len() == 0 ==> (res is Ok <==> lowers(core@, largest(core@) + 1)),
        no_letrec(core@) ==> (res matches Ok(c) ==> c.named@ == lower_tm(core@, largest(core@) + 1)),
{
    let fv = free_variables(&core);
    proof {
        lemma_free_variables_exact(core@);
    }
    if fv.len() > 0 {
        return Err(Error::NotClosed(fv[0].duplicate()));
    }
    proof {
        assert forall|x: u32| !free_in(core@, x) by {
            if free_in(core@, x) {
                assert(has_unique(fv@, x));
            }
        }
    }
    let mut build = Builder::new(0);
    let r = match rewrite(&mut build, &core) {
        Ok(r) => r,
        Err(e) => {
            return Err(Error::Recursion(e));
        },
    };
    proof {
        assert forall|x: u32| !free_in(r@, x) by {
            if free_in(r@, x) {
                assert(free_in(core@, x));
            }
        }
    }
    match lower(&r) {
        Ok(named) => {
            proof {
                assert(assembles_to(core@, r@, named@));
                lemma_lower_closed(r@);
            }
            let term = match to_debruijn(&named) {
                Ok(t) => t,
                Err(x) => {
                    return Err(Error::DeBruijn(x));
                },
            };
            Ok(Compiled { program: Program { version: Version::plutus_v3(), term }, named })
        },
        Err(e) => Err(Error::Lower(e)),
    }
}

/// The binding at `j` repeats the unique of an earlier one.
pub open spec fn repeats_at(bs: Seq<(Binder, Core)>, j: int) -> bool {
    exists|i: int| 0 <= i < j && bs[i].0.name.unique == bs[j].0.name.unique
}

/// `root` under the bindings of `bs`, outermost first.
pub open spec fn wrap(bs: Seq<(Binder, Core)>, root: Tm) -> Tm
    decreases bs.len(),
{
    if bs.len() == 0 {
        root
    } else {
        Tm::Let(bs[0].0, Box::new(bs[0].1@), Box::new(wrap(bs.drop_first(), root)))
    }
}

/// The Core program of a module with distinct binders: the bindings the
/// root reaches, in their order, around the root.
pub open spec fn module_core(bs: Seq<(Binder, Core)>, root: Core) -> Tm {
    wrap(kept(bs, closure(bs, root)), root@)
}

/// Assemble a module. Bindings must be in dependency order; those the root
/// does not reach are left out. Fails on the first binding that repeats a
/// unique, then as `assemble_core` does on the wrapped root.
pub fn assemble(module: Module) -> (res: Result<Compiled, Error>)
    requires
        !distinct_binders(module.bindings@) || name_count(module_core(module.bindings@, module.root)) + demand(
            module_core(module.bindings@, module.root),
        ) + 1 < u32::MAX,
    ensures
        distinct_binders(module.bindings@) <==> !(res matches Err(Error::DuplicateBinding(_))),
        res matches Err(Error::DuplicateBinding(n)) ==> exists|j: int|
            0 <= j < module.bindings@.len() && repeats_at(module.bindings@, j) && (forall|k: int| 0 <= k < j ==> !repeats_at(module.bindings@, k))
                && n == module.bindings@[j].0.name,
        distinct_binders(module.bindings@) ==> {
            let core = module_core(module.bindings@, module.root);
            &&& (spec_free_variables(core).len() > 0 <==> res matches Err(Error::NotClosed(_)))
            &&& (res matches Err(Error::NotClosed(n)) ==> n == spec_free_variables(core)[0])
            &&& ((forall|x: u32| !free_in(core, x)) && groups_ok(core) ==> !(res is Err && res->Err_0 is Recursion))
            &&& (res matches Err(Error::Recursion(e)) ==> fault(core, e))
            &&& (res matches Ok(c) ==> exists|r: Tm| #[trigger] assembles_to(core, r, c.named@))
            &&& (no_letrec(core) && spec_free_variables(core).len() == 0 ==> (res is Ok <==> lowers(core, largest(core) + 1)))
            &&& (no_letrec(core) ==> (res matches Ok(c) ==> c.named@ == lower_tm(core, largest(core) + 1)))
        },
        res matches Ok(c) ==> uclosed(c.named@),
        res matches Ok(c) ==> c.program.version.major == 1 && c.program.version.minor == 1 && c.program.version.patch == 0
            && c.program.term@ == debruijn_tm(c.named@, Seq::empty()) && indexes(c.named@, c.program.term@, Seq::empty()),
        res matches Err(Error::DeBruijn(_)) ==> false,
{
    let Module { bindings, root } = module;
    let ghost bs = bindings@;
    let mut names: HashSet<u32> = HashSet::new();
    let mut i: usize = 0;
    while i < bindings.len()
        invariant
            i <= bindings@.len(),
            bindings@ == bs,
            bs == module.bindings@,
            forall|u: u32| #[trigger] names@.contains(u) <==> exists|k: int| 0 <= k < i && bs[k].0.name.unique == u,
            forall|k: int| 0 <= k < i ==> !repeats_at(bs, k),
        decreases bindings@.len() - i,
    {
        if names.contains(&bindings[i].0.name.unique) {
            proof {
                let u = bs[i as int].0.name.unique;
                let k = choose|k: int| 0 <= k < i && bs[k].0.name.unique == u;
                assert(repeats_at(bs, i as int));
                assert(!distinct_binders(bs));
                assert(forall|k: int| 0 <= k < i ==> !repeats_at(module.bindings@, k));
            }
            return Err(Error::DuplicateBinding(bindings[i].0.name.duplicate()));
        }
        names.insert(bindings[i].0.name.unique);
        proof {
            assert(!repeats_at(bs, i as int));
        }
        i += 1;
    }
    proof {
        assert forall|a: int, b: int| 0 <= a < bs.len() && 0 <= b < bs.len() && a != b implies bs[a].0.name.unique != bs[b].0.name.unique by {
            if a < b {
                assert(!repeats_at(bs, b));
            } else {
                assert(!repeats_at(bs, a));
            }
        }
        assert(distinct_binders(bs));
    }
    let mut kept_bindings = reachable(bindings, &root);
    let ghost ks = kept_bindings@;
    let ghost rv = root@;
    let mut body = root;
    let mut j: usize = kept_bindings.len();
    proof {
        assert(ks.skip(j as int) =~= Seq::<(Binder, Core)>::empty());
        assert(ks.take(j as int) =~= ks);
    }
    while j > 0
        invariant
            j <= ks.len(),
            kept_bindings@ == ks.take(j as int),
            body@ == wrap(ks.skip(j as int), rv),
        decreases j,
    {
        let (binder, value) = match kept_bindings.pop() {
            Some(p) => p,
            None => (Binder { name: Name::new("", 0), ty: crate::ir::Ty::Erased }, Core::Error),
        };
        j -= 1;
        proof {
            assert(ks.take(j + 1).drop_last() =~= ks.take(j as int));
            assert(ks.skip(j as int).drop_first() =~= ks.skip(j + 1));
            assert(ks.skip(j as int)[0] == ks[j as int]);
            assert((binder, value) == ks[j as int]);
        }
        body = Core::Let { binder, value: Box::new(value), body: Box::new(body) };
        proof {
            lemma_views(body);
            assert(kept_bindings@ =~= ks.take(j as int));
        }
    }
    proof {
        assert(ks.skip(0) =~= ks);
    }
    assemble_core(body)
}

} // verus!