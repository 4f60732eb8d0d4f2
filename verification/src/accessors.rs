//! Sharing of pure projections: a decoder, list step or field read whose
//! value is already bound in the same scope is read from that binder
//! instead of being evaluated again.
//!
//! The bindings a term needs are hoisted in source evaluation order. A
//! lambda, branch, trace body or delay keeps its own body scope, so a
//! decoder that may fail never moves out of a path that might not run.
use vstd::prelude::*;
use crate::ir::{
    Binder, Branch, Builder, CaseKind, Constant, ConstantV, Core, DefaultFunction, RecBinder, Test, TestV, Tm, Ty, views,
    branch_views, group_views, lemma_views, duplicate_binders, duplicate_terms, free_in, free_in_list,
    free_in_branches, free_in_group, binder_uniques, group_uniques, lemma_free_in_list, lemma_free_in_branches,
    lemma_free_in_group,
};
use crate::source_lets::{weight, weight_list, weight_branches, weight_group};

verus! {

/// One step from a value to a part of it.
#[derive(Clone, Copy, PartialEq, Eq, Structural, Debug)]
pub enum Projection {
    Builtin(DefaultFunction),
    Field(u16, u16),
    DropList(u16),
}

/// A builtin that decodes or steps into its single argument: the reads
/// that sharing binds and that case branches give names to.
pub open spec fn decoder(f: DefaultFunction) -> bool {
    ||| f == DefaultFunction::UnConstrData
    ||| f == DefaultFunction::UnMapData
    ||| f == DefaultFunction::UnListData
    ||| f == DefaultFunction::UnIData
    ||| f == DefaultFunction::UnBData
    ||| f == DefaultFunction::FstPair
    ||| f == DefaultFunction::SndPair
    ||| f == DefaultFunction::HeadList
    ||| f == DefaultFunction::TailList
}

/// A projection that a case branch can bind.
pub open spec fn branch_step(p: Projection) -> bool {
    ||| (p matches Projection::Builtin(f) && decoder(f))
    ||| p is Field
}

/// A term in which sharing has nothing to do: no decoder, list drop or
/// field read, no let to hoist, and no builtin applied as a function value.
pub open spec fn plain(t: Tm) -> bool
    decreases t,
{
    match t {
        Tm::Var(_) => true,
        Tm::Lit(_) => true,
        Tm::Error => true,
        Tm::Lam(_, b) => plain(*b),
        Tm::App(f, args) => !(*f matches Tm::Builtin(g, fa) && fa.len() == 0 && args.len() <= g.spec_arity())
            && plain(*f) && forall|i: int| 0 <= i < args.len() ==> plain(#[trigger] args[i]),
        Tm::Let(_, _, _) => false,
        Tm::LetRec(rbs, b) => plain(*b) && forall|i: int| 0 <= i < rbs.len() ==> plain(#[trigger] rbs[i].body),
        Tm::Case(_, s, bs, d) => plain(*s) && (forall|i: int| 0 <= i < bs.len() ==> plain(#[trigger] bs[i].body))
            && match d {
            Some(x) => plain(*x),
            None => true,
        },
        Tm::Constr(_, fs) => forall|i: int| 0 <= i < fs.len() ==> plain(#[trigger] fs[i]),
        Tm::Field(_, _, _) => false,
        Tm::Builtin(f, args) => f != DefaultFunction::DropList && !(args.len() == 1 && decoder(f)) && forall|i: int|
            0 <= i < args.len() ==> plain(#[trigger] args[i]),
        Tm::Cast(_, _, _, _) => true,
        Tm::Trace(m, b) => plain(*m) && plain(*b),
        Tm::Delay(b) => plain(*b),
        Tm::Force(b) => plain(*b),
    }
}

/// `p` is a path that `path` can give for `t`: empty for a variable, else
/// ending in the step that `t` itself takes.
pub open spec fn path_end(t: Tm, p: Seq<Projection>) -> bool {
    if p.len() == 0 {
        t is Var
    } else {
        match t {
            Tm::Builtin(f, args) => (args.len() == 1 && p.last() == Projection::Builtin(f)) || (f
                == DefaultFunction::DropList && p.last() is DropList),
            Tm::Field(_, _, _) => p.last() is Field,
            _ => false,
        }
    }
}

/// The bindings of a split term, by their views.
pub open spec fn binding_views(s: Seq<(Binder, Core)>) -> Seq<(Binder, Tm)> {
    Seq::new(s.len(), |i: int| (s[i].0, s[i].1@))
}

/// The lets of `s` around `body`, first binding outermost.
pub open spec fn wrap_tm(s: Seq<(Binder, Tm)>, body: Tm) -> Tm
    decreases s.len(),
{
    if s.len() == 0 {
        body
    } else {
        wrap_tm(s.drop_last(), Tm::Let(s.last().0, Box::new(s.last().1), Box::new(body)))
    }
}

/// Some binding of `s` binds `x`.
pub open spec fn binds(s: Seq<(Binder, Tm)>, x: u32) -> bool
    decreases s.len(),
{
    if s.len() == 0 {
        false
    } else {
        binds(s.drop_last(), x) || s.last().0.name.unique == x
    }
}

/// `x` is free in the value of some binding of `s` and not bound by an
/// earlier one.
pub open spec fn free_before(s: Seq<(Binder, Tm)>, x: u32) -> bool
    decreases s.len(),
{
    if s.len() == 0 {
        false
    } else {
        free_before(s.drop_last(), x) || (free_in(s.last().1, x) && !binds(s.drop_last(), x))
    }
}

/// `x` is free in the lets of `s` around `v`.
pub open spec fn parts_free(s: Seq<(Binder, Tm)>, v: Tm, x: u32) -> bool {
    free_before(s, x) || (free_in(v, x) && !binds(s, x))
}

proof fn lemma_wrap_free(s: Seq<(Binder, Tm)>, body: Tm, x: u32)
    ensures
        free_in(wrap_tm(s, body), x) == parts_free(s, body, x),
    decreases s.len(),
{
    if s.len() > 0 {
        lemma_wrap_free(s.drop_last(), Tm::Let(s.last().0, Box::new(s.last().1), Box::new(body)), x);
    }
}

proof fn lemma_binds_concat(a: Seq<(Binder, Tm)>, e: Seq<(Binder, Tm)>, x: u32)
    ensures
        binds(a + e, x) == (binds(a, x) || binds(e, x)),
        free_before(a + e, x) == (free_before(a, x) || (!binds(a, x) && free_before(e, x))),
    decreases e.len(),
{
    if e.len() == 0 {
        assert(a + e =~= a);
    } else {
        assert((a + e).drop_last() =~= a + e.drop_last());
        assert((a + e).last() == e.last());
        lemma_binds_concat(a, e.drop_last(), x);
    }
}

proof fn lemma_binding_views_push(s: Seq<(Binder, Core)>, b: Binder, v: Core)
    ensures
        binding_views(s.push((b, v))) == binding_views(s).push((b, v@)),
{
    assert(binding_views(s.push((b, v))) =~= binding_views(s).push((b, v@)));
}

proof fn lemma_binding_views_concat(s: Seq<(Binder, Core)>, e: Seq<(Binder, Core)>)
    ensures
        binding_views(s + e) == binding_views(s) + binding_views(e),
{
    assert(binding_views(s + e) =~= binding_views(s) + binding_views(e));
}

/// What one scope knows. Each table keeps its entries in insertion order;
/// a later entry for the same key replaces an earlier one.
struct Scope {
    /// A let-bound name that stands for another name.
    aliases: Vec<(u32, u32)>,
    types: Vec<(u32, Ty)>,
    /// A projection of a name, and the binder that holds its value.
    projections: Vec<(Projection, u32, Binder)>,
    /// A list binder as (root list, number of elements dropped).
    tail_positions: Vec<(u32, u32, usize)>,
    /// The binder that holds a list at (root list, elements dropped).
    tails: Vec<(u32, usize, Binder)>,
    /// The number of fields of a record list.
    record_lengths: Vec<(u32, usize)>,
    /// List positions known to hold at least one element.
    nonempty: Vec<(u32, usize)>,
    /// The binders that a case branch gives to paths of its scrutinee.
    case_paths: Vec<(Vec<Projection>, u32, Binder)>,
}

/// The same projection path.
fn same_path(a: &Vec<Projection>, b: &Vec<Projection>) -> (r: bool)
    ensures
        r == (a@ == b@),
{
    if a.len() != b.len() {
        return false;
    }
    let mut i: usize = 0;
    while i < a.len()
        invariant
            i <= a@.len(),
            a@.len() == b@.len(),
            forall|k: int| 0 <= k < i ==> a@[k] == b@[k],
        decreases a@.len() - i,
    {
        if a[i] != b[i] {
            return false;
        }
        i += 1;
    }
    assert(a@ =~= b@);
    true
}

fn copy_path(p: &Vec<Projection>) -> (r: Vec<Projection>)
    ensures
        r@ == p@,
{
    let mut r: Vec<Projection> = Vec::new();
    let mut i: usize = 0;
    while i < p.len()
        invariant
            i <= p@.len(),
            r@ == p@.take(i as int),
        decreases p@.len() - i,
    {
        r.push(p[i]);
        i += 1;
        assert(r@ =~= p@.take(i as int));
    }
    assert(p@.take(i as int) =~= p@);
    r
}

fn single(p: Projection) -> (r: Vec<Projection>)
    ensures
        r@ == seq![p],
{
    let mut r: Vec<Projection> = Vec::new();
    r.push(p);
    r
}

fn copy_all<T: Copy>(p: &Vec<T>) -> (r: Vec<T>)
    ensures
        r@ == p@,
{
    let mut r: Vec<T> = Vec::new();
    let mut i: usize = 0;
    while i < p.len()
        invariant
            i <= p@.len(),
            r@ == p@.take(i as int),
        decreases p@.len() - i,
    {
        r.push(p[i]);
        i += 1;
        assert(r@ =~= p@.take(i as int));
    }
    assert(p@.take(i as int) =~= p@);
    r
}

/// The latest entry of `aliases` for `name`, or `name` itself.
pub open spec fn alias_of(aliases: Seq<(u32, u32)>, name: u32) -> u32
    decreases aliases.len(),
{
    if aliases.len() == 0 {
        name
    } else if aliases.last().0 == name {
        aliases.last().1
    } else {
        alias_of(aliases.drop_last(), name)
    }
}

/// The latest type recorded for `name`.
pub open spec fn type_in(types: Seq<(u32, Ty)>, name: u32) -> Option<Ty>
    decreases types.len(),
{
    if types.len() == 0 {
        None
    } else if types.last().0 == name {
        Some(types.last().1)
    } else {
        type_in(types.drop_last(), name)
    }
}

/// The latest list position recorded for `name`, or `name` itself with
/// nothing dropped.
pub open spec fn position_in(positions: Seq<(u32, u32, usize)>, name: u32) -> (u32, usize)
    decreases positions.len(),
{
    if positions.len() == 0 {
        (name, 0)
    } else if positions.last().0 == name {
        (positions.last().1, positions.last().2)
    } else {
        position_in(positions.drop_last(), name)
    }
}

/// The latest record length recorded for `root`.
pub open spec fn length_in(lengths: Seq<(u32, usize)>, root: u32) -> Option<usize>
    decreases lengths.len(),
{
    if lengths.len() == 0 {
        None
    } else if lengths.last().0 == root {
        Some(lengths.last().1)
    } else {
        length_in(lengths.drop_last(), root)
    }
}

/// One more element dropped, saturating at the largest position.
pub open spec fn next_position(offset: usize) -> usize {
    if offset + 1 > usize::MAX {
        usize::MAX
    } else {
        (offset + 1) as usize
    }
}

/// The runtime type of a variable or literal under the recorded types and
/// aliases.
pub open spec fn type_under(types: Seq<(u32, Ty)>, aliases: Seq<(u32, u32)>, t: Tm) -> Ty {
    match t {
        Tm::Var(n) => match type_in(types, n.unique) {
            Some(x) => x,
            None => match type_in(types, alias_of(aliases, n.unique)) {
                Some(x) => x,
                None => Ty::Erased,
            },
        },
        Tm::Lit(ConstantV::Integer(_)) => Ty::Int,
        Tm::Lit(ConstantV::ByteString(_)) => Ty::Bytes,
        Tm::Lit(ConstantV::Str(_)) => Ty::Str,
        Tm::Lit(ConstantV::Bool(_)) => Ty::Bool,
        Tm::Lit(ConstantV::Unit) => Ty::Unit,
        _ => Ty::Erased,
    }
}

/// The projections that lead from a name to `t`, innermost first, with the
/// name that the aliases give it.
pub open spec fn path_of(aliases: Seq<(u32, u32)>, t: Tm) -> Option<(Seq<Projection>, u32)>
    decreases t,
{
    match t {
        Tm::Var(n) => Some((Seq::empty(), alias_of(aliases, n.unique))),
        Tm::Builtin(f, args) => if args.len() == 1 {
            match path_of(aliases, args[0]) {
                Some(p) => Some((p.0.push(Projection::Builtin(f)), p.1)),
                None => None,
            }
        } else if args.len() == 2 && f == DefaultFunction::DropList {
            match args[0] {
                Tm::Lit(ConstantV::Integer(c)) => if 0 <= c && c <= 65535 {
                    match path_of(aliases, args[1]) {
                        Some(p) => Some((p.0.push(Projection::DropList(c as u16)), p.1)),
                        None => None,
                    }
                } else {
                    None
                },
                _ => None,
            }
        } else {
            None
        },
        Tm::Field(r, i, a) => match path_of(aliases, *r) {
            Some(p) => Some((p.0.push(Projection::Field(i, a)), p.1)),
            None => None,
        },
        _ => None,
    }
}

/// The paths below the scrutinee that a branch of `kind` with test `test`
/// and `n` binders names, one per binder.
pub open spec fn branch_paths(kind: CaseKind, test: TestV, n: nat) -> Seq<Seq<Projection>> {
    if kind == CaseKind::Data && test == TestV::DataConstr {
        seq![seq![Projection::Builtin(DefaultFunction::UnConstrData)]]
    } else if kind == CaseKind::Data && test == TestV::DataMap {
        seq![seq![Projection::Builtin(DefaultFunction::UnMapData)]]
    } else if kind == CaseKind::Data && test == TestV::DataList {
        seq![seq![Projection::Builtin(DefaultFunction::UnListData)]]
    } else if kind == CaseKind::Data && test == TestV::DataI {
        seq![seq![Projection::Builtin(DefaultFunction::UnIData)]]
    } else if kind == CaseKind::Data && test == TestV::DataB {
        seq![seq![Projection::Builtin(DefaultFunction::UnBData)]]
    } else if kind == CaseKind::List && test == TestV::Cons {
        seq![seq![Projection::Builtin(DefaultFunction::HeadList)], seq![Projection::Builtin(DefaultFunction::TailList)]]
    } else if kind == CaseKind::Tag && test is Tag {
        Seq::new(n, |i: int| seq![Projection::Field(i as u16, n as u16)])
    } else {
        Seq::empty()
    }
}

/// The latest entry for `path` below `name` is the last one that matches.
proof fn lemma_case_path_latest(cps: Seq<(Vec<Projection>, u32, Binder)>, path: Seq<Projection>, name: u32, q: int)
    requires
        0 <= q < cps.len(),
        cps[q].1 == name && cps[q].0@ == path,
        forall|k: int| q < k < cps.len() ==> !((#[trigger] cps[k]).1 == name && cps[k].0@ == path),
    ensures
        case_path_in(cps, path, name) == Some(cps[q].2),
    decreases cps.len(),
{
    if q < cps.len() - 1 {
        assert(cps.drop_last()[q] == cps[q]);
        assert forall|k: int| q < k < cps.drop_last().len() implies !((#[trigger] cps.drop_last()[k]).1 == name
            && cps.drop_last()[k].0@ == path) by {
            assert(cps.drop_last()[k] == cps[k]);
        }
        lemma_case_path_latest(cps.drop_last(), path, name, q);
    }
}

/// In a branch of a constructor case with `n` binders, the `j`-th binder
/// holds field `j` of the scrutinee: once the branch is recorded (its
/// binders entered, in order, against the paths the branch names), a read
/// of field `j` of an `n`-field value along the scrutinee's path resolves
/// to the `j`-th binder and to no other.
pub proof fn lemma_tag_binders_read_their_fields(
    o: Seq<(Vec<Projection>, u32, Binder)>,
    f: Seq<(Vec<Projection>, u32, Binder)>,
    base: Seq<Projection>,
    name: u32,
    binders: Seq<Binder>,
    tag: u16,
    j: int,
)
    requires
        binders.len() <= 65536,
        0 <= j < binders.len(),
        f.len() == o.len() + fewer(branch_paths(CaseKind::Tag, TestV::Tag(tag), binders.len()).len(), binders.len()),
        forall|k: int| 0 <= k < o.len() ==> #[trigger] f[k] == o[k],
        forall|k: int|
            0 <= k < fewer(branch_paths(CaseKind::Tag, TestV::Tag(tag), binders.len()).len(), binders.len()) ==> (#[trigger] f[o.len() + k]).0@
                == base + branch_paths(CaseKind::Tag, TestV::Tag(tag), binders.len())[k] && f[o.len() + k].1 == name
                && f[o.len() + k].2 == binders[k],
    ensures
        case_path_in(f, base + seq![Projection::Field(j as u16, binders.len() as u16)], name) == Some(binders[j]),
{
    let n = binders.len();
    let path = base + seq![Projection::Field(j as u16, n as u16)];
    assert(branch_paths(CaseKind::Tag, TestV::Tag(tag), n).len() == n);
    assert(f[o.len() + j].0@ == path);
    assert forall|k: int| o.len() + j < k < f.len() implies !((#[trigger] f[k]).1 == name && f[k].0@ == path) by {
        let m = k - o.len();
        assert(f[o.len() + m].0@ == base + seq![Projection::Field(m as u16, n as u16)]);
        if f[k].0@ == path {
            assert(f[k].0@[base.len() as int] == Projection::Field(m as u16, n as u16));
            assert(path[base.len() as int] == Projection::Field(j as u16, n as u16));
            assert(m as u16 == j as u16);
        }
    }
    lemma_case_path_latest(f, path, name, o.len() + j);
}

/// The binder of the latest projection table entry for `p` of `name`.
pub open spec fn projected_in(ps: Seq<(Projection, u32, Binder)>, p: Projection, name: u32) -> Option<Binder>
    decreases ps.len(),
{
    if ps.len() == 0 {
        None
    } else if ps.last().0 == p && ps.last().1 == name {
        Some(ps.last().2)
    } else {
        projected_in(ps.drop_last(), p, name)
    }
}

/// The binder of the latest branch entry for `path` below `name`.
pub open spec fn case_path_in(cps: Seq<(Vec<Projection>, u32, Binder)>, path: Seq<Projection>, name: u32) -> Option<Binder>
    decreases cps.len(),
{
    if cps.len() == 0 {
        None
    } else if cps.last().1 == name && cps.last().0@ == path {
        Some(cps.last().2)
    } else {
        case_path_in(cps.drop_last(), path, name)
    }
}

/// A cons branch of a list case on a variable: the scrutinee is known to
/// hold an element, and the tail binder stands one element further.
pub open spec fn cons_var(kind: CaseKind, test: TestV, t: Tm) -> bool {
    kind == CaseKind::List && test == TestV::Cons && t is Var
}

/// The fewer of two counts.
pub open spec fn fewer(a: nat, b: nat) -> nat {
    if a < b {
        a
    } else {
        b
    }
}

impl Scope {
    /// `x` is the name of a binder that the scope reads shared values from.
    spec fn holds(&self, x: u32) -> bool {
        ||| exists|i: int| 0 <= i < self.projections@.len() && (#[trigger] self.projections@[i]).2.name.unique == x
        ||| exists|i: int| 0 <= i < self.tails@.len() && (#[trigger] self.tails@[i]).2.name.unique == x
        ||| exists|i: int| 0 <= i < self.case_paths@.len() && (#[trigger] self.case_paths@[i]).2.name.unique == x
    }

    /// Every path that a branch gave a name to ends in a step that a branch
    /// can bind.
    spec fn paths_ok(&self) -> bool {
        forall|i: int|
            0 <= i < self.case_paths@.len() ==> (#[trigger] self.case_paths@[i]).0@.len() > 0 && branch_step(
                self.case_paths@[i].0@.last(),
            )
    }

    fn new() -> (r: Scope)
        ensures
            r.paths_ok(),
            forall|x: u32| !r.holds(x),
    {
        Scope {
            aliases: Vec::new(),
            types: Vec::new(),
            projections: Vec::new(),
            tail_positions: Vec::new(),
            tails: Vec::new(),
            record_lengths: Vec::new(),
            nonempty: Vec::new(),
            case_paths: Vec::new(),
        }
    }

    /// A copy for a nested body scope.
    fn duplicate(&self) -> (r: Scope)
        ensures
            self.paths_ok() ==> r.paths_ok(),
            forall|x: u32| r.holds(x) ==> self.holds(x),
            r.aliases@ == self.aliases@,
            r.types@ == self.types@,
            r.projections@ == self.projections@,
            r.tail_positions@ == self.tail_positions@,
            r.tails@ == self.tails@,
            r.record_lengths@ == self.record_lengths@,
            r.nonempty@ == self.nonempty@,
            r.case_paths@.len() == self.case_paths@.len(),
            forall|k: int|
                0 <= k < r.case_paths@.len() ==> (#[trigger] r.case_paths@[k]).0@ == self.case_paths@[k].0@
                    && r.case_paths@[k].1 == self.case_paths@[k].1 && r.case_paths@[k].2 == self.case_paths@[k].2,
    {
        let mut types: Vec<(u32, Ty)> = Vec::new();
        let mut i: usize = 0;
        while i < self.types.len()
            invariant
                i <= self.types@.len(),
                types@ == self.types@.take(i as int),
            decreases self.types@.len() - i,
        {
            types.push((self.types[i].0, self.types[i].1.duplicate()));
            i += 1;
            proof {
                assert(types@ =~= self.types@.take(i as int));
            }
        }
        let mut projections: Vec<(Projection, u32, Binder)> = Vec::new();
        let mut i: usize = 0;
        while i < self.projections.len()
            invariant
                i <= self.projections@.len(),
                projections@.len() == i,
                forall|k: int| 0 <= k < i ==> (#[trigger] projections@[k]).2 == self.projections@[k].2,
                projections@ == self.projections@.take(i as int),
            decreases self.projections@.len() - i,
        {
            let e = &self.projections[i];
            projections.push((e.0, e.1, e.2.duplicate()));
            i += 1;
            proof {
                assert(projections@ =~= self.projections@.take(i as int));
            }
        }
        let mut tails: Vec<(u32, usize, Binder)> = Vec::new();
        let mut i: usize = 0;
        while i < self.tails.len()
            invariant
                i <= self.tails@.len(),
                tails@.len() == i,
                forall|k: int| 0 <= k < i ==> (#[trigger] tails@[k]).2 == self.tails@[k].2,
                tails@ == self.tails@.take(i as int),
            decreases self.tails@.len() - i,
        {
            let e = &self.tails[i];
            tails.push((e.0, e.1, e.2.duplicate()));
            i += 1;
            proof {
                assert(tails@ =~= self.tails@.take(i as int));
            }
        }
        let mut case_paths: Vec<(Vec<Projection>, u32, Binder)> = Vec::new();
        let mut i: usize = 0;
        while i < self.case_paths.len()
            invariant
                i <= self.case_paths@.len(),
                case_paths@.len() == i,
                forall|k: int| 0 <= k < i ==> (#[trigger] case_paths@[k]).0@ == self.case_paths@[k].0@ && case_paths@[k].2
                    == self.case_paths@[k].2 && case_paths@[k].1 == self.case_paths@[k].1,
            decreases self.case_paths@.len() - i,
        {
            let e = &self.case_paths[i];
            case_paths.push((copy_path(&e.0), e.1, e.2.duplicate()));
            i += 1;
        }
        let r = Scope {
            aliases: copy_all(&self.aliases),
            types,
            projections,
            tail_positions: copy_all(&self.tail_positions),
            tails,
            record_lengths: copy_all(&self.record_lengths),
            nonempty: copy_all(&self.nonempty),
            case_paths,
        };
        proof {
            assert forall|x: u32| r.holds(x) implies self.holds(x) by {
                if exists|i: int| 0 <= i < r.projections@.len() && (#[trigger] r.projections@[i]).2.name.unique == x {
                    let i = choose|i: int| 0 <= i < r.projections@.len() && (#[trigger] r.projections@[i]).2.name.unique == x;
                    assert(self.projections@[i].2.name.unique == x);
                } else if exists|i: int| 0 <= i < r.tails@.len() && (#[trigger] r.tails@[i]).2.name.unique == x {
                    let i = choose|i: int| 0 <= i < r.tails@.len() && (#[trigger] r.tails@[i]).2.name.unique == x;
                    assert(self.tails@[i].2.name.unique == x);
                } else {
                    let i = choose|i: int| 0 <= i < r.case_paths@.len() && (#[trigger] r.case_paths@[i]).2.name.unique == x;
                    assert(self.case_paths@[i].2.name.unique == x);
                }
            }
        }
        r
    }

    /// The name that `name` stands for.
    fn canonical(&self, name: u32) -> (r: u32)
        ensures
            r == alias_of(self.aliases@, name),
    {
        let mut i: usize = self.aliases.len();
        proof {
            assert(self.aliases@.take(i as int) =~= self.aliases@);
        }
        while i > 0
            invariant
                i <= self.aliases@.len(),
                alias_of(self.aliases@.take(i as int), name) == alias_of(self.aliases@, name),
            decreases i,
        {
            proof {
                assert(self.aliases@.take(i as int).drop_last() =~= self.aliases@.take(i - 1));
            }
            i -= 1;
            if self.aliases[i].0 == name {
                return self.aliases[i].1;
            }
        }
        name
    }

    fn type_of(&self, name: u32) -> (r: Option<&Ty>)
        ensures
            r matches Some(t) ==> type_in(self.types@, name) == Some(*t),
            r is None ==> type_in(self.types@, name) is None,
    {
        let mut i: usize = self.types.len();
        proof {
            assert(self.types@.take(i as int) =~= self.types@);
        }
        while i > 0
            invariant
                i <= self.types@.len(),
                type_in(self.types@.take(i as int), name) == type_in(self.types@, name),
            decreases i,
        {
            proof {
                assert(self.types@.take(i as int).drop_last() =~= self.types@.take(i - 1));
            }
            i -= 1;
            if self.types[i].0 == name {
                return Some(&self.types[i].1);
            }
        }
        None
    }

    fn bind(&mut self, binder: &Binder, value: Option<&Core>)
        ensures
            final(self).types@ == old(self).types@.push((binder.name.unique, binder.ty)),
            final(self).aliases@ == match value {
                Some(Core::Var(n)) => old(self).aliases@.push((binder.name.unique, alias_of(old(self).aliases@, n.unique))),
                _ => old(self).aliases@,
            },
            final(self).tail_positions@ == old(self).tail_positions@,
            final(self).record_lengths@ == old(self).record_lengths@,
            final(self).nonempty@ == old(self).nonempty@,
            final(self).case_paths@ == old(self).case_paths@,
            final(self).projections@ == old(self).projections@,
            final(self).tails@ == old(self).tails@,
            forall|x: u32| #[trigger] final(self).holds(x) == old(self).holds(x),
    {
        self.types.push((binder.name.unique, binder.ty.duplicate()));
        match value {
            Some(Core::Var(name)) => {
                let target = self.canonical(name.unique);
                self.aliases.push((binder.name.unique, target));
            },
            _ => {},
        }
    }

    /// Where a list name stands: its root list and how many elements of the
    /// root were dropped to reach it.
    fn list_position(&self, name: u32) -> (r: (u32, usize))
        ensures
            r == position_in(self.tail_positions@, alias_of(self.aliases@, name)),
    {
        let root = self.canonical(name);
        let mut i: usize = self.tail_positions.len();
        proof {
            assert(self.tail_positions@.take(i as int) =~= self.tail_positions@);
        }
        while i > 0
            invariant
                i <= self.tail_positions@.len(),
                root == alias_of(self.aliases@, name),
                position_in(self.tail_positions@.take(i as int), root) == position_in(self.tail_positions@, root),
            decreases i,
        {
            proof {
                assert(self.tail_positions@.take(i as int).drop_last() =~= self.tail_positions@.take(i - 1));
            }
            i -= 1;
            if self.tail_positions[i].0 == root {
                return (self.tail_positions[i].1, self.tail_positions[i].2);
            }
        }
        (root, 0)
    }

    fn remember_tail(&mut self, binder: &Binder, position: (u32, usize))
        ensures
            final(self).tail_positions@ == old(self).tail_positions@.push((binder.name.unique, position.0, position.1)),
            final(self).tails@ == old(self).tails@.push((position.0, position.1, *binder)),
            final(self).aliases@ == old(self).aliases@,
            final(self).types@ == old(self).types@,
            final(self).record_lengths@ == old(self).record_lengths@,
            final(self).nonempty@ == old(self).nonempty@,
            final(self).case_paths@ == old(self).case_paths@,
            final(self).projections@ == old(self).projections@,
            forall|x: u32| final(self).holds(x) ==> old(self).holds(x) || x == binder.name.unique,
    {
        self.tail_positions.push((binder.name.unique, position.0, position.1));
        let ghost before = self.tails@;
        self.tails.push((position.0, position.1, binder.duplicate()));
        proof {
            assert forall|x: u32| self.holds(x) implies old(self).holds(x) || x == binder.name.unique by {
                if exists|i: int| 0 <= i < self.tails@.len() && (#[trigger] self.tails@[i]).2.name.unique == x {
                    let i = choose|i: int| 0 <= i < self.tails@.len() && (#[trigger] self.tails@[i]).2.name.unique == x;
                    if i < before.len() {
                        assert(before[i] == self.tails@[i]);
                    }
                }
            }
        }
    }

    /// The runtime type of a variable or literal, as far as the scope knows it.
    fn ty(&self, core: &Core) -> (r: Ty)
        ensures
            r == type_under(self.types@, self.aliases@, core@),
    {
        match core {
            Core::Var(name) => match self.type_of(name.unique) {
                Some(t) => t.duplicate(),
                None => match self.type_of(self.canonical(name.unique)) {
                    Some(t) => t.duplicate(),
                    None => Ty::Erased,
                },
            },
            Core::Lit(Constant::Integer(_)) => Ty::Int,
            Core::Lit(Constant::ByteString(_)) => Ty::Bytes,
            Core::Lit(Constant::Str(_)) => Ty::Str,
            Core::Lit(Constant::Bool(_)) => Ty::Bool,
            Core::Lit(Constant::Unit) => Ty::Unit,
            _ => Ty::Erased,
        }
    }

    /// The projections that lead from a name to `core`, innermost first.
    fn path(&self, core: &Core) -> (r: Option<(Vec<Projection>, u32)>)
        ensures
            r matches Some(p) ==> path_end(core@, p.0@),
            r matches Some(p) ==> path_of(self.aliases@, core@) == Some((p.0@, p.1)),
            r is None ==> path_of(self.aliases@, core@) is None,
        decreases core,
    {
        proof {
            lemma_views(*core);
        }
        match core {
            Core::Var(name) => Some((Vec::new(), self.canonical(name.unique))),
            Core::Builtin { function, args } => {
                proof {
                    assert(decreases_to!(*core => (*core)->Builtin_args));
                    assert(decreases_to!(*args => args@));
                }
                if args.len() == 1 {
                    proof {
                        assert(decreases_to!(args@ => args@[0]));
                        assert(views(args@)[0] == args@[0]@);
                    }
                    match self.path(&args[0]) {
                        Some((mut path, name)) => {
                            path.push(Projection::Builtin(*function));
                            Some((path, name))
                        },
                        None => None,
                    }
                } else if args.len() == 2 && *function == DefaultFunction::DropList {
                    proof {
                        assert(decreases_to!(args@ => args@[1]));
                        assert(views(args@)[0] == args@[0]@);
                        assert(views(args@)[1] == args@[1]@);
                    }
                    match &args[0] {
                        Core::Lit(Constant::Integer(count)) => {
                            if 0 <= *count && *count <= 65535 {
                                match self.path(&args[1]) {
                                    Some((mut path, name)) => {
                                        path.push(Projection::DropList(*count as u16));
                                        Some((path, name))
                                    },
                                    None => None,
                                }
                            } else {
                                None
                            }
                        },
                        _ => None,
                    }
                } else {
                    None
                }
            },
            Core::Field { record, index, arity } => match self.path(record) {
                Some((mut path, name)) => {
                    path.push(Projection::Field(*index, *arity));
                    Some((path, name))
                },
                None => None,
            },
            _ => None,
        }
    }

    fn case_path(&self, path: &Vec<Projection>, name: u32) -> (r: Option<&Binder>)
        ensures
            r matches Some(b) ==> case_path_in(self.case_paths@, path@, name) == Some(*b),
            r is None ==> case_path_in(self.case_paths@, path@, name) is None,
            r is Some ==> exists|i: int| 0 <= i < self.case_paths@.len() && (#[trigger] self.case_paths@[i]).0@ == path@,
            r matches Some(b) ==> self.holds(b.name.unique),
    {
        let mut i: usize = self.case_paths.len();
        proof {
            assert(self.case_paths@.take(i as int) =~= self.case_paths@);
        }
        while i > 0
            invariant
                i <= self.case_paths@.len(),
                case_path_in(self.case_paths@.take(i as int), path@, name) == case_path_in(self.case_paths@, path@, name),
            decreases i,
        {
            proof {
                assert(self.case_paths@.take(i as int).drop_last() =~= self.case_paths@.take(i - 1));
                assert(self.case_paths@.take(i as int).last() == self.case_paths@[i - 1]);
            }
            i -= 1;
            if self.case_paths[i].1 == name && same_path(&self.case_paths[i].0, path) {
                return Some(&self.case_paths[i].2);
            }
        }
        None
    }

    fn projected(&self, projection: Projection, name: u32) -> (r: Option<&Binder>)
        ensures
            r matches Some(b) ==> projected_in(self.projections@, projection, name) == Some(*b),
            r is None ==> projected_in(self.projections@, projection, name) is None,
            r matches Some(b) ==> self.holds(b.name.unique),
    {
        let mut i: usize = self.projections.len();
        proof {
            assert(self.projections@.take(i as int) =~= self.projections@);
        }
        while i > 0
            invariant
                i <= self.projections@.len(),
                projected_in(self.projections@.take(i as int), projection, name) == projected_in(self.projections@, projection, name),
            decreases i,
        {
            proof {
                assert(self.projections@.take(i as int).drop_last() =~= self.projections@.take(i - 1));
                assert(self.projections@.take(i as int).last() == self.projections@[i - 1]);
            }
            i -= 1;
            if self.projections[i].0 == projection && self.projections[i].1 == name {
                return Some(&self.projections[i].2);
            }
        }
        None
    }

    /// The binder of the furthest known tail of `root` between the two
    /// positions, with its position.
    fn nearest_tail(&self, root: u32, from: usize, to: usize) -> (r: Option<(usize, &Binder)>)
        ensures
            r matches Some(t) ==> from <= t.0 <= to && self.holds(t.1.name.unique),
            r matches Some(t) ==> exists|i: int|
                0 <= i < self.tails@.len() && (#[trigger] self.tails@[i]) == (root, t.0, *t.1) && forall|k: int|
                    0 <= k < self.tails@.len() && (#[trigger] self.tails@[k]).0 == root && from <= self.tails@[k].1 <= to
                        ==> self.tails@[k].1 < t.0 || (self.tails@[k].1 == t.0 && k <= i),
            r is None ==> forall|k: int|
                0 <= k < self.tails@.len() ==> !((#[trigger] self.tails@[k]).0 == root && from <= self.tails@[k].1 <= to),
    {
        let mut best: Option<(usize, usize)> = None;
        let mut i: usize = 0;
        while i < self.tails.len()
            invariant
                i <= self.tails@.len(),
                best matches Some(b) ==> from <= b.0 <= to && b.1 < i && self.tails@[b.1 as int].0 == root
                    && self.tails@[b.1 as int].1 == b.0 && forall|k: int|
                    0 <= k < i && (#[trigger] self.tails@[k]).0 == root && from <= self.tails@[k].1 <= to
                        ==> self.tails@[k].1 < b.0 || (self.tails@[k].1 == b.0 && k <= b.1),
                best is None ==> forall|k: int|
                    0 <= k < i ==> !((#[trigger] self.tails@[k]).0 == root && from <= self.tails@[k].1 <= to),
            decreases self.tails@.len() - i,
        {
            let e = &self.tails[i];
            if e.0 == root && from <= e.1 && e.1 <= to {
                let better = match best {
                    Some(b) => e.1 >= b.0,
                    None => true,
                };
                if better {
                    best = Some((e.1, i));
                }
            }
            i += 1;
        }
        match best {
            Some(b) => Some((b.0, &self.tails[b.1].2)),
            None => None,
        }
    }

    fn record_length(&self, root: u32) -> (r: Option<usize>)
        ensures
            r == length_in(self.record_lengths@, root),
    {
        let mut i: usize = self.record_lengths.len();
        proof {
            assert(self.record_lengths@.take(i as int) =~= self.record_lengths@);
        }
        while i > 0
            invariant
                i <= self.record_lengths@.len(),
                length_in(self.record_lengths@.take(i as int), root) == length_in(self.record_lengths@, root),
            decreases i,
        {
            proof {
                assert(self.record_lengths@.take(i as int).drop_last() =~= self.record_lengths@.take(i - 1));
            }
            i -= 1;
            if self.record_lengths[i].0 == root {
                return Some(self.record_lengths[i].1);
            }
        }
        None
    }

    fn is_nonempty(&self, position: (u32, usize)) -> (r: bool)
        ensures
            r == self.nonempty@.contains(position),
    {
        let mut i: usize = 0;
        while i < self.nonempty.len()
            invariant
                i <= self.nonempty@.len(),
                forall|k: int| 0 <= k < i ==> self.nonempty@[k] != position,
            decreases self.nonempty@.len() - i,
        {
            if self.nonempty[i].0 == position.0 && self.nonempty[i].1 == position.1 {
                proof {
                    assert(self.nonempty@[i as int] == position);
                }
                return true;
            }
            i += 1;
        }
        false
    }

    /// Record the paths of `value` that the branch binds, so that the body
    /// reads them from the branch binders.
    fn case_binders(&mut self, kind: CaseKind, value: &Core, branch: &Branch)
        ensures
            path_of(old(self).aliases@, value@) is None ==> *final(self) == *old(self),
            path_of(old(self).aliases@, value@) matches Some(p) ==> {
                let bp = branch_paths(kind, branch.test@, branch.binders@.len());
                let m = fewer(bp.len(), branch.binders@.len());
                let o = old(self).case_paths@;
                let f = final(self).case_paths@;
                &&& final(self).aliases@ == old(self).aliases@
                &&& final(self).types@ == old(self).types@
                &&& final(self).projections@ == old(self).projections@
                &&& final(self).record_lengths@ == old(self).record_lengths@
                &&& f.len() == o.len() + m
                &&& forall|k: int| 0 <= k < o.len() ==> #[trigger] f[k] == o[k]
                &&& forall|j: int|
                    0 <= j < m ==> (#[trigger] f[o.len() + j]).0@ == p.0 + bp[j] && f[o.len() + j].1 == p.1 && f[o.len()
                        + j].2 == branch.binders@[j]
            },
            path_of(old(self).aliases@, value@) is Some && !cons_var(kind, branch.test@, value@) ==> {
                &&& final(self).nonempty@ == old(self).nonempty@
                &&& final(self).tail_positions@ == old(self).tail_positions@
                &&& final(self).tails@ == old(self).tails@
            },
            path_of(old(self).aliases@, value@) is Some && cons_var(kind, branch.test@, value@) ==> {
                let pos = position_in(old(self).tail_positions@, alias_of(old(self).aliases@, value@->Var_0.unique));
                &&& final(self).nonempty@ == old(self).nonempty@.push(pos)
                &&& branch.binders@.len() > 1 ==> final(self).tail_positions@ == old(self).tail_positions@.push(
                    (branch.binders@[1].name.unique, pos.0, next_position(pos.1)),
                ) && final(self).tails@ == old(self).tails@.push((pos.0, next_position(pos.1), branch.binders@[1]))
                &&& branch.binders@.len() <= 1 ==> final(self).tail_positions@ == old(self).tail_positions@
                    && final(self).tails@ == old(self).tails@
            },
            old(self).paths_ok() ==> final(self).paths_ok(),
            forall|x: u32| final(self).holds(x) ==> old(self).holds(x) || binder_uniques(branch.binders@).contains(x),
            path_of(old(self).aliases@, value@) matches Some(p) ==> (kind == CaseKind::Tag && branch.test@ is Tag
                && branch.binders@.len() <= 65536 ==> forall|j: int|
                0 <= j < branch.binders@.len() ==> case_path_in(
                    final(self).case_paths@,
                    p.0 + seq![Projection::Field(j as u16, branch.binders@.len() as u16)],
                    p.1,
                ) == Some(branch.binders@[j])),
    {
        let (base, name) = match self.path(value) {
            Some(p) => p,
            None => {
                return ;
            },
        };
        let cons = match branch.test {
            Test::Cons => true,
            _ => false,
        };
        if kind == CaseKind::List && cons {
            match value {
                Core::Var(v) => {
                    let (root, offset) = self.list_position(v.unique);
                    self.nonempty.push((root, offset));
                    if branch.binders.len() > 1 {
                        self.remember_tail(&branch.binders[1], (root, offset.saturating_add(1)));
                        proof {
                            assert(binder_uniques(branch.binders@)[1] == branch.binders@[1].name.unique);
                        }
                    }
                },
                _ => {},
            }
        }
        proof {
            lemma_views(*value);
        }
        let ghost start = self.case_paths@;
        let ghost mid = *self;
        let ghost bp = branch_paths(kind, branch.test@, branch.binders@.len());
        let mut paths: Vec<Vec<Projection>> = Vec::new();
        match (kind, &branch.test) {
            (CaseKind::Data, Test::DataConstr) => {
                paths.push(single(Projection::Builtin(DefaultFunction::UnConstrData)));
            },
            (CaseKind::Data, Test::DataMap) => {
                paths.push(single(Projection::Builtin(DefaultFunction::UnMapData)));
            },
            (CaseKind::Data, Test::DataList) => {
                paths.push(single(Projection::Builtin(DefaultFunction::UnListData)));
            },
            (CaseKind::Data, Test::DataI) => {
                paths.push(single(Projection::Builtin(DefaultFunction::UnIData)));
            },
            (CaseKind::Data, Test::DataB) => {
                paths.push(single(Projection::Builtin(DefaultFunction::UnBData)));
            },
            (CaseKind::List, Test::Cons) => {
                paths.push(single(Projection::Builtin(DefaultFunction::HeadList)));
                paths.push(single(Projection::Builtin(DefaultFunction::TailList)));
            },
            (CaseKind::Tag, Test::Tag(_)) => {
                let n = branch.binders.len();
                let mut index: usize = 0;
                while index < n
                    invariant
                        index <= n,
                        n == branch.binders@.len(),
                        paths@.len() == index,
                        forall|j: int| 0 <= j < paths@.len() ==> (#[trigger] paths@[j])@.len() == 1 && branch_step(paths@[j]@[0]),
                        forall|j: int| 0 <= j < paths@.len() ==> (#[trigger] paths@[j])@ == seq![Projection::Field(j as u16, n as u16)],
                    decreases n - index,
                {
                    paths.push(single(Projection::Field(index as u16, n as u16)));
                    index += 1;
                }
            },
            _ => {},
        }
        proof {
            assert(forall|j: int| 0 <= j < paths@.len() ==> (#[trigger] paths@[j])@.len() == 1 && branch_step(paths@[j]@[0]));
            assert(paths@.len() == bp.len());
            assert(forall|j: int| 0 <= j < paths@.len() ==> (#[trigger] paths@[j])@ == bp[j]);
        }
        let mut i: usize = 0;
        while i < paths.len() && i < branch.binders.len()
            invariant
                i <= paths@.len(),
                i <= branch.binders@.len(),
                paths@.len() == bp.len(),
                forall|j: int| 0 <= j < paths@.len() ==> (#[trigger] paths@[j])@ == bp[j],
                base@ == path_of(old(self).aliases@, value@)->Some_0.0,
                name == path_of(old(self).aliases@, value@)->Some_0.1,
                self.aliases@ == mid.aliases@,
                self.types@ == mid.types@,
                self.projections@ == mid.projections@,
                self.record_lengths@ == mid.record_lengths@,
                self.nonempty@ == mid.nonempty@,
                self.tail_positions@ == mid.tail_positions@,
                self.tails@ == mid.tails@,
                self.case_paths@.len() == start.len() + i,
                forall|k: int| 0 <= k < start.len() ==> #[trigger] self.case_paths@[k] == start[k],
                forall|j: int|
                    0 <= j < i ==> (#[trigger] self.case_paths@[start.len() + j]).0@ == base@ + bp[j]
                        && self.case_paths@[start.len() + j].1 == name && self.case_paths@[start.len() + j].2
                        == branch.binders@[j],
                forall|j: int| 0 <= j < paths@.len() ==> (#[trigger] paths@[j])@.len() == 1 && branch_step(paths@[j]@[0]),
                (forall|j: int| 0 <= j < start.len() ==> (#[trigger] start[j]).0@.len() > 0 && branch_step(start[j].0@.last()))
                    ==> self.paths_ok(),
                forall|x: u32| self.holds(x) ==> old(self).holds(x) || binder_uniques(branch.binders@).contains(x),
            decreases paths@.len() - i,
        {
            let mut full = copy_path(&base);
            let ghost b0 = full@;
            let mut k: usize = 0;
            while k < paths[i].len()
                invariant
                    i < paths@.len(),
                    k <= paths@[i as int]@.len(),
                    full@ == b0 + paths@[i as int]@.take(k as int),
                decreases paths@[i as int]@.len() - k,
            {
                full.push(paths[i][k]);
                k += 1;
                proof {
                    assert(full@ =~= b0 + paths@[i as int]@.take(k as int));
                }
            }
            proof {
                assert(paths@[i as int]@.take(k as int) =~= paths@[i as int]@);
                assert(full@.last() == paths@[i as int]@[0]);
            }
            let ghost before = self.case_paths@;
            let ghost held = *self;
            self.case_paths.push((full, name, branch.binders[i].duplicate()));
            proof {
                assert(full@ == base@ + bp[i as int]);
                assert(self.case_paths@[start.len() + i] == (full, name, branch.binders@[i as int]));
                assert forall|k: int| 0 <= k < start.len() implies #[trigger] self.case_paths@[k] == start[k] by {
                    assert(self.case_paths@[k] == before[k]);
                }
                assert forall|j: int|
                    0 <= j < i + 1 implies (#[trigger] self.case_paths@[start.len() + j]).0@ == base@ + bp[j]
                        && self.case_paths@[start.len() + j].1 == name && self.case_paths@[start.len() + j].2
                        == branch.binders@[j] by {
                    if j < i {
                        assert(self.case_paths@[start.len() + j] == before[start.len() + j]);
                    }
                }
                assert(binder_uniques(branch.binders@)[i as int] == branch.binders@[i as int].name.unique);
                assert forall|x: u32| self.holds(x) implies old(self).holds(x) || binder_uniques(branch.binders@).contains(x) by {
                    if exists|k: int| 0 <= k < self.case_paths@.len() && (#[trigger] self.case_paths@[k]).2.name.unique == x {
                        let k = choose|k: int| 0 <= k < self.case_paths@.len() && (#[trigger] self.case_paths@[k]).2.name.unique == x;
                        if k < before.len() {
                            assert(before[k] == self.case_paths@[k]);
                            assert(held.holds(x));
                        }
                    } else {
                        assert(held.holds(x));
                    }
                }
            }
            i += 1;
        }
        proof {
            if kind == CaseKind::Tag && branch.test@ is Tag && branch.binders@.len() <= 65536 {
                let tag = branch.test@->Tag_0;
                assert(branch.test@ == TestV::Tag(tag));
                assert forall|j: int| 0 <= j < branch.binders@.len() implies case_path_in(
                    self.case_paths@,
                    base@ + seq![Projection::Field(j as u16, branch.binders@.len() as u16)],
                    name,
                ) == Some(branch.binders@[j]) by {
                    lemma_tag_binders_read_their_fields(start, self.case_paths@, base@, name, branch.binders@, tag, j);
                }
            }
        }
    }
}

/// Terms that are values already, or cost nothing to evaluate again.
pub open spec fn simple_tm(t: Tm) -> bool {
    match t {
        Tm::Var(_) => true,
        Tm::Lit(_) => true,
        Tm::Lam(_, _) => true,
        Tm::Delay(_) => true,
        Tm::Builtin(_, args) => args.len() == 0,
        _ => false,
    }
}

fn simple(core: &Core) -> (r: bool)
    ensures
        r == simple_tm(core@),
{
    proof {
        lemma_views(*core);
    }
    match core {
        Core::Var(_) => true,
        Core::Lit(_) => true,
        Core::Lam { .. } => true,
        Core::Delay(_) => true,
        Core::Builtin { args, .. } => args.len() == 0,
        _ => false,
    }
}

/// The operands among `s` that are not simple.
pub open spec fn pending(s: Seq<Tm>) -> nat
    decreases s.len(),
{
    if s.len() == 0 {
        0
    } else {
        pending(s.drop_last()) + if simple_tm(s.last()) {
            0nat
        } else {
            1nat
        }
    }
}

proof fn lemma_pending_update(s: Seq<Tm>, m: int, t: Tm)
    requires
        0 <= m < s.len(),
        !simple_tm(s[m]),
        simple_tm(t),
    ensures
        pending(s.update(m, t)) + 1 == pending(s),
    decreases s.len(),
{
    let u = s.update(m, t);
    if m == s.len() - 1 {
        assert(u.drop_last() =~= s.drop_last());
    } else {
        assert(u.drop_last() =~= s.drop_last().update(m, t));
        lemma_pending_update(s.drop_last(), m, t);
    }
}

proof fn lemma_weight_positive(t: Tm)
    ensures
        weight(t) >= 1,
{
}

proof fn lemma_weight_list_take(s: Seq<Tm>, i: int)
    requires
        0 <= i < s.len(),
    ensures
        weight_list(s.take(i + 1)) == weight_list(s.take(i)) + weight(s[i]),
        weight_list(s.take(i + 1)) <= weight_list(s),
    decreases s.len() - i,
{
    assert(s.take(i + 1).drop_last() =~= s.take(i));
    if i + 1 < s.len() {
        lemma_weight_list_take(s, i + 1);
    } else {
        assert(s.take(i + 1) =~= s);
    }
}

proof fn lemma_weight_list_len(s: Seq<Tm>)
    ensures
        weight_list(s) >= s.len(),
    decreases s.len(),
{
    if s.len() > 0 {
        lemma_weight_list_len(s.drop_last());
        lemma_weight_positive(s.last());
    }
}

proof fn lemma_weight_list_concat(a: Seq<Tm>, b: Seq<Tm>)
    ensures
        weight_list(a + b) == weight_list(a) + weight_list(b),
    decreases b.len(),
{
    if b.len() == 0 {
        assert(a + b =~= a);
    } else {
        assert((a + b).drop_last() =~= a + b.drop_last());
        lemma_weight_list_concat(a, b.drop_last());
    }
}

proof fn lemma_weight_branches_take(s: Seq<crate::ir::BranchTm>, i: int)
    requires
        0 <= i < s.len(),
    ensures
        weight_branches(s.take(i + 1)) == weight_branches(s.take(i)) + weight(s[i].body),
        weight_branches(s.take(i + 1)) <= weight_branches(s),
    decreases s.len() - i,
{
    assert(s.take(i + 1).drop_last() =~= s.take(i));
    if i + 1 < s.len() {
        lemma_weight_branches_take(s, i + 1);
    } else {
        assert(s.take(i + 1) =~= s);
    }
}

proof fn lemma_weight_group_take(s: Seq<crate::ir::RecTm>, i: int)
    requires
        0 <= i < s.len(),
    ensures
        weight_group(s.take(i + 1)) == weight_group(s.take(i)) + weight(s[i].body),
        weight_group(s.take(i + 1)) <= weight_group(s),
    decreases s.len() - i,
{
    assert(s.take(i + 1).drop_last() =~= s.take(i));
    if i + 1 < s.len() {
        lemma_weight_group_take(s, i + 1);
    } else {
        assert(s.take(i + 1) =~= s);
    }
}

/// A term split into the bindings hoisted before it and its value.
struct Parts {
    bindings: Vec<(Binder, Core)>,
    value: Core,
}

/// The lets of `parts` around its value, first binding outermost.
fn wrap(parts: Parts) -> (r: Core)
    ensures
        parts.bindings@.len() == 0 ==> r == parts.value,
        r@ == wrap_tm(binding_views(parts.bindings@), parts.value@),
{
    let Parts { mut bindings, value } = parts;
    let ghost v0 = value;
    let ghost all = binding_views(bindings@);
    let ghost empty = bindings@.len() == 0;
    let mut body = value;
    while bindings.len() > 0
        invariant
            empty ==> bindings@.len() == 0 && body == v0,
            wrap_tm(binding_views(bindings@), body@) == wrap_tm(all, v0@),
        decreases bindings@.len(),
    {
        let ghost before = bindings@;
        match bindings.pop() {
            Some((binder, v)) => {
                body = Core::Let { binder, value: Box::new(v), body: Box::new(body) };
                proof {
                    assert(binding_views(before).drop_last() =~= binding_views(bindings@));
                    assert(binding_views(before).last() == (binder, v@));
                }
            },
            None => {},
        }
    }
    proof {
        assert(binding_views(bindings@) =~= Seq::<(Binder, Tm)>::empty());
    }
    body
}

/// Bind `value` to a fresh name before the current term.
fn temporary(build: &mut Builder, value: Core, scope: &mut Scope, bindings: &mut Vec<(Binder, Core)>) -> (r: Core)
    requires
        old(build).next < u32::MAX,
    ensures
        final(build).next == old(build).next + 1,
        r is Var,
        final(scope).case_paths@ == old(scope).case_paths@,
        final(scope).projections@ == old(scope).projections@,
        final(scope).tails@ == old(scope).tails@,
        final(bindings)@.len() == old(bindings)@.len() + 1,
        final(bindings)@.drop_last() == old(bindings)@,
        final(bindings)@.last().1 == value,
        r == Core::Var(final(bindings)@.last().0.name),
{
    let ty = scope.ty(&value);
    let binder = Binder { name: build.fresh("evaluated"), ty };
    scope.bind(&binder, Some(&value));
    let r = Core::Var(binder.name.duplicate());
    bindings.push((binder, value));
    proof {
        assert(bindings@.drop_last() =~= old(bindings)@);
    }
    r
}

/// What a free name of the result of `project` can be: free in its input,
/// or a binder of the scope that the input does not rebind.
spec fn project_goal(pb: Seq<(Binder, Tm)>, pv: Tm, s0: Scope, x: u32) -> bool {
    parts_free(pb, pv, x) || (s0.holds(x) && !binds(pb, x))
}

proof fn lemma_push_binding(s: Seq<(Binder, Tm)>, b: Binder, v: Tm, x: u32)
    ensures
        free_before(s.push((b, v)), x) == (free_before(s, x) || (free_in(v, x) && !binds(s, x))),
        binds(s.push((b, v)), x) == (binds(s, x) || b.name.unique == x),
{
    assert(s.push((b, v)).drop_last() =~= s);
}

/// Read `projection` of the value of `parts`: from a binder of the scope
/// when one holds it, else from a fresh binder that later reads share.
fn project(build: &mut Builder, projection: Projection, parts: Parts, scope: &mut Scope) -> (r: Parts)
    requires
        old(build).next + 2 < u32::MAX,
    ensures
        old(build).next <= final(build).next <= old(build).next + 2,
        final(scope).case_paths@ == old(scope).case_paths@,
        forall|x: u32|
            parts_free(binding_views(r.bindings@), r.value@, x) ==> parts_free(
                binding_views(parts.bindings@),
                parts.value@,
                x,
            ) || (old(scope).holds(x) && !binds(binding_views(parts.bindings@), x)),
        forall|x: u32| final(scope).holds(x) ==> old(scope).holds(x) || binds(binding_views(r.bindings@), x),
        forall|x: u32| binds(binding_views(parts.bindings@), x) ==> binds(binding_views(r.bindings@), x),
{
    let ghost pb = binding_views(parts.bindings@);
    let ghost pv = parts.value@;
    let ghost s0 = *scope;
    let Parts { mut bindings, mut value } = parts;
    let is_var = match &value {
        Core::Var(_) => true,
        _ => false,
    };
    if !is_var {
        let ghost b1 = bindings@;
        let ghost v1 = value;
        value = temporary(build, value, scope, &mut bindings);
        proof {
            let t = bindings@.last().0;
            assert(bindings@ =~= b1.push((t, v1)));
            lemma_binding_views_push(b1, t, v1);
            assert(binding_views(bindings@) == pb.push((t, pv)));
            assert forall|x: u32| #[trigger] free_before(binding_views(bindings@), x) implies project_goal(pb, pv, s0, x) by {
                lemma_push_binding(pb, t, pv, x);
            }
            assert forall|x: u32| #[trigger] free_in(value@, x) && !binds(binding_views(bindings@), x) implies project_goal(pb, pv, s0, x) by {
                lemma_push_binding(pb, t, pv, x);
            }
            assert forall|x: u32| binds(pb, x) implies #[trigger] binds(binding_views(bindings@), x) by {
                lemma_push_binding(pb, t, pv, x);
            }
        }
    }
    proof {
        assert forall|x: u32| #[trigger] free_before(binding_views(bindings@), x) implies project_goal(pb, pv, s0, x) by {}
        assert forall|x: u32| #[trigger] free_in(value@, x) && !binds(binding_views(bindings@), x) implies project_goal(pb, pv, s0, x) by {}
        assert forall|x: u32| binds(pb, x) implies #[trigger] binds(binding_views(bindings@), x) by {}
        assert(scope.projections@ == s0.projections@ && scope.tails@ == s0.tails@ && scope.case_paths@ == s0.case_paths@);
    }
    let unique = match &value {
        Core::Var(name) => name.unique,
        _ => 0,
    };
    let record_length = if projection == Projection::Builtin(DefaultFunction::UnListData) {
        match scope.ty(&value) {
            Ty::Encoded(fields) => Some(fields.len()),
            _ => None,
        }
    } else {
        None
    };
    let key_name = scope.canonical(unique);
    let known = match scope.projected(projection, key_name) {
        Some(b) => Some(b.duplicate()),
        None => {
            let single = vec![projection];
            match scope.case_path(&single, key_name) {
                Some(b) => Some(b.duplicate()),
                None => None,
            }
        },
    };
    match known {
        Some(binder) => {
            match record_length {
                Some(length) => {
                    let root = scope.list_position(binder.name.unique).0;
                    scope.record_lengths.push((root, length));
                },
                None => {},
            }
            proof {
                assert(s0.holds(binder.name.unique));
                assert forall|x: u32| #[trigger] parts_free(binding_views(bindings@), Core::Var(binder.name)@, x) implies project_goal(pb, pv, s0, x) by {
                    if !free_before(binding_views(bindings@), x) {
                        assert(x == binder.name.unique);
                        assert(!binds(pb, x));
                    }
                }
            }
            return Parts { bindings, value: Core::Var(binder.name) };
        },
        None => {},
    }
    let position = scope.list_position(unique);
    let tail_position = match projection {
        Projection::Builtin(DefaultFunction::TailList) => Some((position.0, position.1.saturating_add(1))),
        Projection::DropList(count) => Some((position.0, position.1.saturating_add(count as usize))),
        _ => None,
    };
    if projection == Projection::Builtin(DefaultFunction::HeadList) {
        scope.nonempty.push(position);
    }
    let mut emitted = projection;
    match projection {
        Projection::DropList(count) => {
            if count != 0 {
                let target = position.1.saturating_add(count as usize);
                let mut start = position.1;
                match scope.nearest_tail(position.0, position.1, target) {
                    Some((nearest, binder)) => {
                        start = nearest;
                        proof {
                            assert(s0.holds(binder.name.unique));
                        }
                        value = Core::Var(binder.name.duplicate());
                        proof {
                            assert forall|x: u32| free_in(value@, x) && !binds(binding_views(bindings@), x) implies project_goal(pb, pv, s0, x) by {
                                assert(x == binder.name.unique);
                                assert(!binds(pb, x));
                            }
                        }
                    },
                    None => {},
                }
                let remaining = target - start;
                if remaining == 0 {
                    proof {
                        assert forall|x: u32| #[trigger] parts_free(binding_views(bindings@), value@, x) implies project_goal(pb, pv, s0, x) by {}
                    }
                    return Parts { bindings, value };
                }
                let known_length = match scope.record_length(position.0) {
                    Some(length) => start < length,
                    None => false,
                };
                let nonempty = known_length || scope.is_nonempty((position.0, start));
                emitted = if remaining == 1 && nonempty {
                    Projection::Builtin(DefaultFunction::TailList)
                } else {
                    Projection::DropList(remaining as u16)
                };
            }
        },
        _ => {},
    }
    let input = scope.ty(&value);
    let ty = match projection {
        Projection::Builtin(DefaultFunction::UnListData) => Ty::List(Box::new(Ty::Data)),
        Projection::Builtin(DefaultFunction::UnConstrData) => Ty::Pair(
            Box::new(Ty::Int),
            Box::new(Ty::List(Box::new(Ty::Data))),
        ),
        Projection::Builtin(DefaultFunction::FstPair) => match input {
            Ty::Pair(a, _) => *a,
            _ => Ty::Erased,
        },
        Projection::Builtin(DefaultFunction::SndPair) => match input {
            Ty::Pair(_, b) => *b,
            _ => Ty::Erased,
        },
        Projection::Builtin(DefaultFunction::HeadList) => match input {
            Ty::List(element) => *element,
            _ => Ty::Erased,
        },
        Projection::Builtin(DefaultFunction::TailList) | Projection::DropList(_) => match input {
            Ty::List(element) => Ty::List(element),
            _ => Ty::Erased,
        },
        Projection::Field(index, _) => match input {
            Ty::Record(fields) => match fields.get(index as usize) {
                Some(t) => t.duplicate(),
                None => Ty::Erased,
            },
            Ty::Tuple(fields) => match fields.get(index as usize) {
                Some(t) => t.duplicate(),
                None => Ty::Erased,
            },
            _ => Ty::Erased,
        },
        _ => Ty::Erased,
    };
    let ghost val = value@;
    let read = match emitted {
        Projection::Builtin(function) => {
            let mut args: Vec<Core> = Vec::new();
            args.push(value);
            Core::Builtin { function, args }
        },
        Projection::DropList(count) => {
            let mut args: Vec<Core> = Vec::new();
            args.push(Core::Lit(Constant::Integer(count as i128)));
            args.push(value);
            Core::Builtin { function: DefaultFunction::DropList, args }
        },
        Projection::Field(index, arity) => Core::Field { record: Box::new(value), index, arity },
    };
    proof {
        lemma_views(read);
        assert forall|x: u32| free_in(read@, x) implies free_in(val, x) by {
            match read {
                Core::Builtin { args, .. } => {
                    lemma_free_in_list(views(args@), x);
                    let k = choose|k: int| 0 <= k < views(args@).len() && free_in(#[trigger] views(args@)[k], x);
                    assert(views(args@)[k] == args@[k]@);
                },
                _ => {},
            }
        }
    }
    let ghost b2 = bindings@;
    let binder = Binder { name: build.fresh("projection"), ty };
    scope.bind(&binder, None);
    scope.projections.push((projection, key_name, binder.duplicate()));
    match record_length {
        Some(length) => {
            scope.record_lengths.push((binder.name.unique, length));
        },
        None => {},
    }
    match tail_position {
        Some(p) => {
            scope.remember_tail(&binder, p);
        },
        None => {},
    }
    let v = Core::Var(binder.name.duplicate());
    let ghost bn = binder;
    let ghost rv = read@;
    bindings.push((binder, read));
    proof {
        lemma_binding_views_push(b2, bn, read);
        assert(binding_views(bindings@) == binding_views(b2).push((bn, rv)));
        assert(v@ == Tm::Var(bn.name));
        assert forall|x: u32| #[trigger] parts_free(binding_views(bindings@), v@, x) implies project_goal(pb, pv, s0, x) by {
            lemma_push_binding(binding_views(b2), bn, rv, x);
            if free_before(binding_views(b2), x) {
            } else if free_in(rv, x) && !binds(binding_views(b2), x) {
                assert(free_in(val, x));
            } else {
                assert(free_in(v@, x));
                assert(binds(binding_views(bindings@), x));
            }
        }
        assert forall|x: u32| scope.holds(x) implies s0.holds(x) || binds(binding_views(bindings@), x) by {
            lemma_push_binding(binding_views(b2), bn, rv, x);
        }
        assert forall|x: u32| binds(pb, x) implies binds(binding_views(bindings@), x) by {
            lemma_push_binding(binding_views(b2), bn, rv, x);
        }
    }
    Parts { bindings, value: v }
}

/// A plain term gives no path that a case branch binds.
proof fn lemma_plain_unshared(t: Tm, p: Seq<Projection>)
    requires
        plain(t),
        path_end(t, p),
    ensures
        p.len() == 0 || !branch_step(p.last()),
{
}

/// Every term of `s` is plain.
pub open spec fn all_plain(s: Seq<Tm>) -> bool {
    forall|i: int| 0 <= i < s.len() ==> plain(#[trigger] s[i])
}

/// `x` is free in the hoisted bindings `b` or, not bound by them, in one of
/// the operands `ops`.
pub open spec fn ops_free(b: Seq<(Binder, Tm)>, ops: Seq<Tm>, x: u32) -> bool {
    free_before(b, x) || (free_in_list(ops, x) && !binds(b, x))
}

/// Binding an operand to a fresh name adds no free name.
proof fn lemma_temp_step(bt: Seq<(Binder, Tm)>, ops: Seq<Tm>, m: int, t: Binder, x: u32)
    requires
        0 <= m < ops.len(),
    ensures
        ops_free(bt.push((t, ops[m])), ops.update(m, Tm::Var(t.name)), x) ==> ops_free(bt, ops, x),
        binds(bt, x) ==> binds(bt.push((t, ops[m])), x),
        binds(bt.push((t, ops[m])), x) ==> binds(bt, x) || x == t.name.unique,
{
    lemma_push_binding(bt, t, ops[m], x);
    let u = ops.update(m, Tm::Var(t.name));
    lemma_free_in_list(ops, x);
    lemma_free_in_list(u, x);
    if free_in_list(u, x) && !binds(bt.push((t, ops[m])), x) {
        let k = choose|k: int| 0 <= k < u.len() && free_in(#[trigger] u[k], x);
        if k != m {
            assert(u[k] == ops[k]);
        }
    }
}

/// Appending an operand and its hoisted bindings.
proof fn lemma_part_step(bt: Seq<(Binder, Tm)>, ops: Seq<Tm>, pb: Seq<(Binder, Tm)>, pv: Tm, x: u32)
    ensures
        ops_free(bt + pb, ops.push(pv), x) ==> ops_free(bt, ops, x) || (!binds(bt, x) && parts_free(pb, pv, x)),
        binds(bt + pb, x) == (binds(bt, x) || binds(pb, x)),
{
    lemma_binds_concat(bt, pb, x);
    assert(ops.push(pv).drop_last() =~= ops);
}

proof fn lemma_free_in_take(s: Seq<Tm>, j: int, x: u32)
    requires
        0 <= j < s.len(),
    ensures
        free_in_list(s.take(j + 1), x) == (free_in_list(s.take(j), x) || free_in(s[j], x)),
{
    assert(s.take(j + 1).drop_last() =~= s.take(j));
}

/// The operands `head` (if any) followed by `rest`.
pub open spec fn operand_terms(head: Option<&Core>, rest: Seq<Core>) -> Seq<Tm> {
    match head {
        Some(h) => seq![h@] + views(rest),
        None => views(rest),
    }
}

/// Evaluate the operands in order. Before the prefix of a later operand
/// moves out in front of the whole term, each earlier operand that might
/// have an effect is bound first, so it still runs at its own position.
fn operands(build: &mut Builder, head: Option<&Core>, rest: &Vec<Core>, scope: &mut Scope) -> (r: (
    Vec<(Binder, Core)>,
    Vec<Core>,
))
    requires
        old(build).next + 3 * weight_list(operand_terms(head, rest@)) < u32::MAX,
        old(scope).paths_ok(),
    ensures
        old(build).next <= final(build).next <= old(build).next + 3 * weight_list(
            operand_terms(head, rest@),
        ),
        r.1@.len() == operand_terms(head, rest@).len(),
        final(scope).paths_ok(),
        all_plain(operand_terms(head, rest@)) ==> r.0@.len() == 0 && views(r.1@) == operand_terms(head, rest@)
            && final(build).next == old(build).next,
        forall|x: u32|
            #[trigger] ops_free(binding_views(r.0@), views(r.1@), x) ==> free_in_list(operand_terms(head, rest@), x)
                || old(scope).holds(x),
        forall|x: u32| #[trigger] final(scope).holds(x) ==> old(scope).holds(x) || binds(binding_views(r.0@), x),
    decreases weight_list(operand_terms(head, rest@)), 1nat,
{
    let ghost items = operand_terms(head, rest@);
    let ghost n0 = build.next;
    let ghost s0 = *scope;
    let offset: usize = match head {
        Some(_) => 1,
        None => 0,
    };
    proof {
        lemma_weight_list_len(items);
        assert(items.len() == rest@.len() + offset);
        assert forall|k: int| 0 <= k < rest@.len() implies items[k + offset] == #[trigger] rest@[k]@ by {
            if head is Some {
                assert(items[k + 1] == views(rest@)[k]);
            }
        }
    }
    let n = rest.len() + offset;
    let mut bindings: Vec<(Binder, Core)> = Vec::new();
    let mut ops: Vec<Core> = Vec::new();
    let mut j: usize = 0;
    while j < n
        invariant
            j <= n,
            n == items.len(),
            n == rest@.len() + offset,
            offset == (if head is Some { 1usize } else { 0usize }),
            items == operand_terms(head, rest@),
            forall|k: int| 0 <= k < rest@.len() ==> items[k + offset] == #[trigger] rest@[k]@,
            ops@.len() == j,
            n0 <= build.next,
            build.next + pending(views(ops@)) <= n0 + 3 * weight_list(items.take(j as int)),
            n0 + 3 * weight_list(items) < u32::MAX,
            scope.paths_ok(),
            all_plain(items) ==> bindings@.len() == 0 && build.next == n0 && forall|k: int|
                0 <= k < j ==> (#[trigger] ops@[k])@ == items[k],
            forall|x: u32|
                #[trigger] ops_free(binding_views(bindings@), views(ops@), x) ==> free_in_list(items.take(j as int), x)
                    || s0.holds(x),
            forall|x: u32| #[trigger] scope.holds(x) ==> s0.holds(x) || binds(binding_views(bindings@), x),
        decreases n - j,
    {
        let ghost sj = *scope;
        let ghost bj = binding_views(bindings@);
        proof {
            lemma_weight_list_take(items, j as int);
        }
        let part = if j < offset {
            match head {
                Some(h) => {
                    proof {
                        assert(items[0] == h@);
                    }
                    term(build, h, scope)
                },
                None => Parts { bindings: Vec::new(), value: Core::Error },
            }
        } else {
            proof {
                assert(items[j as int] == rest@[j - offset]@);
            }
            term(build, &rest[j - offset], scope)
        };
        let ghost spent = build.next;
        let ghost sp = *scope;
        if part.bindings.len() > 0 {
            let mut m: usize = 0;
            while m < ops.len()
                invariant
                    m <= ops@.len(),
                    ops@.len() == j,
                    n0 <= build.next,
                    build.next + pending(views(ops@)) <= n0 + 3 * weight_list(items.take(j as int)) + 3 * weight(
                        items[j as int],
                    ) - 1,
                    n0 + 3 * weight_list(items) < u32::MAX,
                    weight_list(items.take(j as int)) + weight(items[j as int]) <= weight_list(items),
                    scope.paths_ok(),
                    forall|x: u32|
                        #[trigger] ops_free(binding_views(bindings@), views(ops@), x) ==> free_in_list(
                            items.take(j as int),
                            x,
                        ) || s0.holds(x),
                    forall|x: u32| binds(bj, x) ==> #[trigger] binds(binding_views(bindings@), x),
                    scope.projections@ == sp.projections@,
                    scope.tails@ == sp.tails@,
                    scope.case_paths@ == sp.case_paths@,
                decreases ops@.len() - m,
            {
                if !simple(&ops[m]) {
                    proof {
                        assert(views(ops@)[m as int] == ops@[m as int]@);
                        lemma_pending_positive(views(ops@), m as int);
                    }
                    let prev = ops[m].duplicate();
                    let ghost bt = bindings@;
                    let ghost ot = views(ops@);
                    let t = temporary(build, prev, scope, &mut bindings);
                    proof {
                        lemma_views(t);
                        lemma_pending_update(views(ops@), m as int, t@);
                        assert(views(ops@.update(m as int, t)) =~= views(ops@).update(m as int, t@));
                        let tb = bindings@.last().0;
                        assert(bindings@ =~= bt.push((tb, prev)));
                        lemma_binding_views_push(bt, tb, prev);
                        assert(prev@ == ot[m as int]);
                        assert(t@ == Tm::Var(tb.name));
                    }
                    ops.set(m, t);
                    proof {
                        let tb = bindings@.last().0;
                        assert(binding_views(bindings@) == binding_views(bt).push((tb, ot[m as int])));
                        assert(views(ops@) == ot.update(m as int, Tm::Var(tb.name)));
                        assert forall|x: u32| #[trigger] ops_free(binding_views(bindings@), views(ops@), x) implies free_in_list(items.take(j as int), x) || s0.holds(x) by {
                            lemma_temp_step(binding_views(bt), ot, m as int, tb, x);
                        }
                        assert forall|x: u32| binds(bj, x) implies #[trigger] binds(binding_views(bindings@), x) by {
                            lemma_temp_step(binding_views(bt), ot, m as int, tb, x);
                        }
                    }
                }
                m += 1;
            }
        }
        let Parts { bindings: mut pb, value: pv } = part;
        let ghost bt = bindings@;
        let ghost ot = views(ops@);
        let ghost pbv = binding_views(pb@);
        let ghost pbs = pb@;
        bindings.append(&mut pb);
        proof {
            assert(views(ops@.push(pv)) =~= views(ops@).push(pv@));
            assert(views(ops@).push(pv@).drop_last() =~= views(ops@));
            assert(bindings@ =~= bt + pbs);
        }
        ops.push(pv);
        proof {
            lemma_binding_views_concat(bt, pbs);
            assert(binding_views(bindings@) == binding_views(bt) + pbv);
            assert(views(ops@) == ot.push(pv@));
            assert forall|x: u32| #[trigger] ops_free(binding_views(bindings@), views(ops@), x) implies free_in_list(items.take(j + 1), x) || s0.holds(x) by {
                lemma_part_step(binding_views(bt), ot, pbv, pv@, x);
                lemma_free_in_take(items, j as int, x);
                if !ops_free(binding_views(bt), ot, x) {
                    assert(parts_free(pbv, pv@, x));
                    if sj.holds(x) {
                        assert(binds(bj, x) ==> binds(binding_views(bt), x));
                    }
                }
            }
            assert forall|x: u32| #[trigger] scope.holds(x) implies s0.holds(x) || binds(binding_views(bindings@), x) by {
                lemma_part_step(binding_views(bt), ot, pbv, pv@, x);
                assert(sp.holds(x));
                if sj.holds(x) {
                    assert(binds(bj, x) ==> binds(binding_views(bt), x));
                }
            }
        }
        j += 1;
    }
    proof {
        assert(items.take(j as int) =~= items);
        if all_plain(items) {
            assert(views(ops@) =~= items);
        }
    }
    (bindings, ops)
}

proof fn lemma_pending_positive(s: Seq<Tm>, m: int)
    requires
        0 <= m < s.len(),
        !simple_tm(s[m]),
    ensures
        pending(s) >= 1,
    decreases s.len(),
{
    if m < s.len() - 1 {
        assert(s.drop_last()[m] == s[m]);
        lemma_pending_positive(s.drop_last(), m);
    }
}

/// Share the projections of `core` in `scope`. Fresh names come from
/// `build`, at most three for each unit of weight.
#[verifier::rlimit(100)]
fn term(build: &mut Builder, core: &Core, scope: &mut Scope) -> (r: Parts)
    requires
        old(build).next + 3 * weight(core@) < u32::MAX,
        old(scope).paths_ok(),
    ensures
        old(build).next <= final(build).next,
        final(build).next + 1 <= old(build).next + 3 * weight(core@),
        final(scope).paths_ok(),
        plain(core@) ==> r.bindings@.len() == 0 && r.value@ == core@ && final(build).next == old(build).next,
        forall|x: u32|
            #[trigger] parts_free(binding_views(r.bindings@), r.value@, x) ==> free_in(core@, x) || old(scope).holds(
                x,
            ),
        forall|x: u32| #[trigger] final(scope).holds(x) ==> old(scope).holds(x) || binds(binding_views(r.bindings@), x),
    decreases weight(core@), 0nat,
{
    proof {
        lemma_views(*core);
    }
    let ghost n0 = build.next;
    let ghost s0 = *scope;
    let shared = match scope.path(core) {
        Some((path, name)) => {
            let found = scope.case_path(&path, name);
            proof {
                if found is Some && plain(core@) {
                    lemma_plain_unshared(core@, path@);
                    let i = choose|i: int| 0 <= i < scope.case_paths@.len() && (#[trigger] scope.case_paths@[i]).0@ == path@;
                    assert(scope.case_paths@[i].0@.len() > 0 && branch_step(scope.case_paths@[i].0@.last()));
                }
            }
            match found {
                Some(b) => {
                    proof {
                        assert(s0.holds(b.name.unique));
                    }
                    Some(b.name.duplicate())
                },
                None => None,
            }
        },
        None => None,
    };
    match shared {
        Some(name) => {
            let r = Parts { bindings: Vec::new(), value: Core::Var(name) };
            proof {
                assert(s0.holds(name.unique));
                assert(binding_views(r.bindings@) =~= Seq::<(Binder, Tm)>::empty());
            }
            return r;
        },
        None => {},
    }
    match core {
        Core::Var(_) | Core::Lit(_) | Core::Error | Core::Cast { .. } => {
            let r = Parts { bindings: Vec::new(), value: core.duplicate() };
            proof {
                assert(binding_views(r.bindings@) =~= Seq::<(Binder, Tm)>::empty());
            }
            r
        },
        Core::Lam { params, body } => {
            let mut inner = scope.duplicate();
            let mut i: usize = 0;
            while i < params.len()
                invariant
                    i <= params@.len(),
                    inner.paths_ok(),
                    forall|x: u32| #[trigger] inner.holds(x) ==> s0.holds(x),
                decreases params@.len() - i,
            {
                inner.bind(&params[i], None);
                i += 1;
            }
            let ghost i0 = inner;
            let b = term(build, body, &mut inner);
            let ghost bb = binding_views(b.bindings@);
            let ghost bvv = b.value@;
            let w = wrap(b);
            let r = Parts { bindings: Vec::new(), value: Core::Lam { params: duplicate_binders(params), body: Box::new(w) } };
            proof {
                assert(binding_views(r.bindings@) =~= Seq::<(Binder, Tm)>::empty());
                assert forall|x: u32| free_in(r.value@, x) implies free_in(core@, x) || s0.holds(x) by {
                    lemma_wrap_free(bb, bvv, x);
                    assert(parts_free(bb, bvv, x));
                    if i0.holds(x) {
                    }
                }
            }
            r
        },
        Core::Let { binder, value, body } => {
            let Parts { mut bindings, value: v } = term(build, value, scope);
            let ghost b1 = bindings@;
            let ghost v1 = v@;
            let ghost s1 = *scope;
            scope.bind(binder, Some(&v));
            let ghost s2 = *scope;
            let d = binder.duplicate();
            bindings.push((d, v));
            let ghost b2 = bindings@;
            let Parts { bindings: mut rest, value: b } = term(build, body, scope);
            let ghost rest0 = rest@;
            bindings.append(&mut rest);
            proof {
                assert(b2 =~= b1.push((*binder, b2.last().1)));
                lemma_binding_views_push(b1, *binder, b2.last().1);
                assert(bindings@ =~= b2 + rest0);
                lemma_binding_views_concat(b2, rest0);
                let rb = binding_views(rest0);
                let vb1 = binding_views(b1);
                let vb2 = binding_views(b2);
                assert(vb2 == vb1.push((*binder, v1)));
                assert forall|x: u32| #[trigger] parts_free(binding_views(bindings@), b@, x) implies free_in(core@, x) || s0.holds(x) by {
                    lemma_binds_concat(vb2, rb, x);
                    lemma_push_binding(vb1, *binder, v1, x);
                    if free_before(vb2, x) {
                        assert(parts_free(vb1, v1, x));
                    } else {
                        assert(parts_free(rb, b@, x));
                        if s2.holds(x) {
                            assert(s1.holds(x));
                        }
                    }
                }
                assert forall|x: u32| #[trigger] scope.holds(x) implies s0.holds(x) || binds(binding_views(bindings@), x) by {
                    lemma_binds_concat(vb2, rb, x);
                    lemma_push_binding(vb1, *binder, v1, x);
                    if s2.holds(x) {
                        assert(s1.holds(x));
                    }
                }
            }
            Parts { bindings, value: b }
        },
        Core::LetRec { binders, body } => {
            let ghost gv = group_views(binders@);
            let mut inner = scope.duplicate();
            let mut i: usize = 0;
            while i < binders.len()
                invariant
                    i <= binders@.len(),
                    inner.paths_ok(),
                    forall|x: u32| #[trigger] inner.holds(x) ==> s0.holds(x),
                decreases binders@.len() - i,
            {
                inner.bind(&binders[i].binder, None);
                i += 1;
            }
            let mut out: Vec<RecBinder> = Vec::new();
            let mut k: usize = 0;
            while k < binders.len()
                invariant
                    k <= binders@.len(),
                    gv == group_views(binders@),
                    core@ == Tm::LetRec(gv, Box::new(body@)),
                    n0 <= build.next,
                    build.next <= n0 + 3 * weight_group(gv.take(k as int)),
                    n0 + 3 * weight(core@) < u32::MAX,
                    inner.paths_ok(),
                    scope.paths_ok(),
                    *scope == s0,
                    forall|x: u32| #[trigger] inner.holds(x) ==> s0.holds(x),
                    out@.len() == k,
                    plain(core@) ==> build.next == n0 && forall|j: int| 0 <= j < k ==> (#[trigger] out@[j])@ == gv[j],
                    forall|j: int| 0 <= j < k ==> (#[trigger] out@[j])@.binder == gv[j].binder && out@[j]@.params == gv[j].params,
                    forall|j: int, x: u32|
                        0 <= j < k && #[trigger] free_in(out@[j]@.body, x) ==> free_in(gv[j].body, x) || s0.holds(x),
                decreases binders@.len() - k,
            {
                proof {
                    lemma_weight_group_take(gv, k as int);
                    assert(gv[k as int].body == binders@[k as int].body@);
                }
                let member = &binders[k];
                let mut local = inner.duplicate();
                let mut i: usize = 0;
                while i < member.params.len()
                    invariant
                        i <= member.params@.len(),
                        local.paths_ok(),
                        forall|x: u32| #[trigger] local.holds(x) ==> s0.holds(x),
                    decreases member.params@.len() - i,
                {
                    local.bind(&member.params[i], None);
                    i += 1;
                }
                let ghost l0 = local;
                let mb = term(build, &member.body, &mut local);
                let ghost bb = binding_views(mb.bindings@);
                let ghost bvv = mb.value@;
                let b = wrap(mb);
                proof {
                    if plain(core@) {
                        assert(plain(gv[k as int].body));
                    }
                    assert forall|x: u32| #[trigger] free_in(b@, x) implies free_in(gv[k as int].body, x) || s0.holds(x) by {
                        lemma_wrap_free(bb, bvv, x);
                        assert(parts_free(bb, bvv, x));
                        if l0.holds(x) {
                        }
                    }
                }
                let ghost before = out@;
                out.push(
                    RecBinder {
                        binder: member.binder.duplicate(),
                        params: duplicate_binders(&member.params),
                        static_params: copy_all(&member.static_params),
                        body: b,
                    },
                );
                proof {
                    assert forall|j: int, x: u32| 0 <= j < k + 1 && #[trigger] free_in(out@[j]@.body, x) implies free_in(gv[j].body, x) || s0.holds(x) by {
                        if j < k {
                            assert(out@[j] == before[j]);
                        }
                    }
                    assert forall|j: int| 0 <= j < k + 1 implies (#[trigger] out@[j])@.binder == gv[j].binder && out@[j]@.params == gv[j].params by {
                        if j < k {
                            assert(out@[j] == before[j]);
                        }
                    }
                }
                k += 1;
            }
            proof {
                assert(gv.take(k as int) =~= gv);
            }
            let ghost i0 = inner;
            let mb = term(build, body, &mut inner);
            let ghost bb = binding_views(mb.bindings@);
            let ghost bvv = mb.value@;
            let b = wrap(mb);
            let r = Core::LetRec { binders: out, body: Box::new(b) };
            proof {
                lemma_views(r);
                let go = group_views(out@);
                if plain(core@) {
                    assert(go =~= gv);
                }
                assert(group_uniques(go) =~= group_uniques(gv));
                assert forall|x: u32| free_in(r@, x) implies free_in(core@, x) || s0.holds(x) by {
                    lemma_wrap_free(bb, bvv, x);
                    if free_in(b@, x) {
                        assert(parts_free(bb, bvv, x));
                        if i0.holds(x) {
                        }
                    } else {
                        lemma_free_in_group(go, x);
                        lemma_free_in_group(gv, x);
                        let j = choose|j: int| 0 <= j < go.len() && !binder_uniques(go[j].params).contains(x) && free_in(#[trigger] go[j].body, x);
                        assert(go[j] == out@[j]@);
                        assert(free_in(out@[j]@.body, x));
                    }
                }
            }
            let res = Parts { bindings: Vec::new(), value: r };
            proof {
                assert(binding_views(res.bindings@) =~= Seq::<(Binder, Tm)>::empty());
            }
            res
        },
        Core::App { func, args } => {
            match &**func {
                Core::Builtin { function, args: fargs } => {
                    if fargs.len() == 0 && args.len() <= function.arity() {
                        let direct = Core::Builtin { function: *function, args: duplicate_terms(args) };
                        proof {
                            lemma_views(direct);
                            lemma_views(**func);
                            assert(fargs@.len() == 0);
                            assert(views(fargs@) =~= Seq::<Tm>::empty());
                            assert((**func)@ == Tm::Builtin(*function, views(fargs@)));
                            assert(weight_list(views(fargs@)) == 0);
                            assert(weight(func@) == 1);
                            assert forall|x: u32| free_in(direct@, x) implies free_in(core@, x) by {}
                        }
                        return term(build, &direct, scope);
                    }
                },
                _ => {},
            }
            proof {
                lemma_weight_list_concat(seq![func@], views(args@));
                assert(weight_list(seq![func@]) == weight(func@)) by {
                    reveal_with_fuel(weight_list, 2);
                    assert(seq![func@].drop_last() =~= Seq::<Tm>::empty());
                    assert(seq![func@].last() == func@);
                }
            }
            proof {
                if plain(core@) {
                    let items = operand_terms(Some(&**func), args@);
                    assert forall|i: int| 0 <= i < items.len() implies plain(#[trigger] items[i]) by {
                        if i > 0 {
                            assert(items[i] == views(args@)[i - 1]);
                        }
                    }
                }
            }
            let (bindings, mut values) = operands(build, Some(&**func), args, scope);
            let ghost vs = values@;
            let f = values.remove(0);
            let r = Core::App { func: Box::new(f), args: values };
            proof {
                lemma_views(r);
                let items = operand_terms(Some(&**func), args@);
                assert(values@ =~= vs.subrange(1, vs.len() as int));
                assert(vs[0] == f);
                if plain(core@) {
                    assert(views(vs) == items);
                    assert(vs[0]@ == items[0]);
                    assert(views(values@) =~= views(args@)) by {
                        assert forall|i: int| 0 <= i < values@.len() implies views(values@)[i] == views(args@)[i] by {
                            assert(views(vs)[i + 1] == items[i + 1]);
                        }
                    }
                }
                assert forall|x: u32| #[trigger] parts_free(binding_views(bindings@), r@, x) implies free_in(core@, x) || s0.holds(x) by {
                    if free_in(r@, x) {
                        lemma_free_in_list(views(values@), x);
                        lemma_free_in_list(views(vs), x);
                        if free_in(f@, x) {
                            assert(views(vs)[0] == f@);
                        } else {
                            let k = choose|k: int| 0 <= k < views(values@).len() && free_in(#[trigger] views(values@)[k], x);
                            assert(views(vs)[k + 1] == views(values@)[k]);
                        }
                    }
                    assert(ops_free(binding_views(bindings@), views(vs), x));
                    lemma_free_in_list(items, x);
                    if free_in_list(items, x) {
                        let k = choose|k: int| 0 <= k < items.len() && free_in(#[trigger] items[k], x);
                        if k > 0 {
                            assert(items[k] == views(args@)[k - 1]);
                            lemma_free_in_list(views(args@), x);
                        }
                    }
                }
            }
            Parts { bindings, value: r }
        },
        Core::Builtin { function, args } => {
            proof {
                if args@.len() > 0 {
                    lemma_weight_list_take(views(args@), 0);
                    assert(views(args@).take(0) =~= Seq::<Tm>::empty());
                    assert(views(args@)[0] == args@[0]@);
                }
                if args@.len() > 1 {
                    lemma_weight_list_take(views(args@), 1);
                    assert(views(args@)[1] == args@[1]@);
                }
            }
            let count = if *function == DefaultFunction::DropList && args.len() == 2 {
                match &args[0] {
                    Core::Lit(Constant::Integer(c)) => if 0 <= *c && *c <= 65535 {
                        Some(*c as u16)
                    } else {
                        None
                    },
                    _ => None,
                }
            } else {
                None
            };
            let unary = args.len() == 1 && match function {
                DefaultFunction::UnListData => true,
                DefaultFunction::UnConstrData => true,
                DefaultFunction::FstPair => true,
                DefaultFunction::SndPair => true,
                DefaultFunction::HeadList => true,
                DefaultFunction::TailList => true,
                _ => false,
            };
            match count {
                Some(c) => {
                    let parts = term(build, &args[1], scope);
                    let ghost pbv = binding_views(parts.bindings@);
                    let ghost ppv = parts.value@;
                    let ghost s1 = *scope;
                    let out = project(build, Projection::DropList(c), parts, scope);
                    proof {
                        assert forall|x: u32| #[trigger] parts_free(binding_views(out.bindings@), out.value@, x) implies free_in(core@, x) || s0.holds(x) by {
                            if parts_free(pbv, ppv, x) {
                                if free_in(args@[1]@, x) {
                                    lemma_free_in_list(views(args@), x);
                                }
                            } else if s1.holds(x) {
                            }
                        }
                        assert forall|x: u32| #[trigger] scope.holds(x) implies s0.holds(x) || binds(binding_views(out.bindings@), x) by {
                            if s1.holds(x) {
                            }
                        }
                    }
                    return out;
                },
                None => {},
            }
            if unary {
                let parts = term(build, &args[0], scope);
                let ghost pbv = binding_views(parts.bindings@);
                let ghost ppv = parts.value@;
                let ghost s1 = *scope;
                let out = project(build, Projection::Builtin(*function), parts, scope);
                proof {
                    assert forall|x: u32| #[trigger] parts_free(binding_views(out.bindings@), out.value@, x) implies free_in(core@, x) || s0.holds(x) by {
                        if parts_free(pbv, ppv, x) {
                            if free_in(args@[0]@, x) {
                                lemma_free_in_list(views(args@), x);
                            }
                        } else if s1.holds(x) {
                        }
                    }
                    assert forall|x: u32| #[trigger] scope.holds(x) implies s0.holds(x) || binds(binding_views(out.bindings@), x) by {
                        if s1.holds(x) {
                        }
                    }
                }
                return out;
            }
            proof {
                assert(operand_terms(None, args@) == views(args@));
            }
            let (bindings, values) = operands(build, None, args, scope);
            let r = Core::Builtin { function: *function, args: values };
            proof {
                lemma_views(r);
                assert forall|x: u32| #[trigger] parts_free(binding_views(bindings@), r@, x) implies free_in(core@, x) || s0.holds(x) by {
                    assert(ops_free(binding_views(bindings@), views(values@), x));
                }
            }
            Parts { bindings, value: r }
        },
        Core::Constr { tag, fields } => {
            proof {
                assert(operand_terms(None, fields@) == views(fields@));
            }
            let (bindings, values) = operands(build, None, fields, scope);
            let r = Core::Constr { tag: *tag, fields: values };
            proof {
                lemma_views(r);
                assert forall|x: u32| #[trigger] parts_free(binding_views(bindings@), r@, x) implies free_in(core@, x) || s0.holds(x) by {
                    assert(ops_free(binding_views(bindings@), views(values@), x));
                }
            }
            Parts { bindings, value: r }
        },
        Core::Field { record, index, arity } => {
            let parts = term(build, record, scope);
            let ghost pbv = binding_views(parts.bindings@);
            let ghost ppv = parts.value@;
            let ghost s1 = *scope;
            let out = project(build, Projection::Field(*index, *arity), parts, scope);
            proof {
                assert forall|x: u32| #[trigger] parts_free(binding_views(out.bindings@), out.value@, x) implies free_in(core@, x) || s0.holds(x) by {
                    if parts_free(pbv, ppv, x) {
                    } else if s1.holds(x) {
                    }
                }
                assert forall|x: u32| #[trigger] scope.holds(x) implies s0.holds(x) || binds(binding_views(out.bindings@), x) by {
                    if s1.holds(x) {
                    }
                }
            }
            out
        },
        Core::Case { kind, scrutinee, branches, default } => {
            let ghost bv = branch_views(branches@);
            let Parts { bindings, value: sv } = term(build, scrutinee, scope);
            let ghost n1 = build.next;
            let ghost s1 = *scope;
            let mut out: Vec<Branch> = Vec::new();
            let mut i: usize = 0;
            while i < branches.len()
                invariant
                    i <= branches@.len(),
                    bv == branch_views(branches@),
                    n0 <= build.next,
                    build.next <= n1 + 3 * weight_branches(bv.take(i as int)),
                    n1 + 1 <= n0 + 3 * weight(scrutinee@),
                    n0 + 3 * weight(core@) < u32::MAX,
                    scope.paths_ok(),
                    *scope == s1,
                    out@.len() == i,
                    core@ == Tm::Case(
                        *kind,
                        Box::new(scrutinee@),
                        bv,
                        match default {
                            Some(x) => Some(Box::new(x@)),
                            None => None,
                        },
                    ),
                    plain(core@) ==> build.next == n0 && sv@ == scrutinee@ && forall|j: int| 0 <= j < i ==> (#[trigger] out@[j])@ == bv[j],
                    weight(core@) == 1 + weight(scrutinee@) + weight_branches(bv) + match default {
                        Some(x) => weight(x@),
                        None => 0,
                    },
                    forall|j: int| 0 <= j < i ==> (#[trigger] out@[j])@.binders == bv[j].binders,
                    forall|j: int, x: u32|
                        0 <= j < i && #[trigger] free_in(out@[j]@.body, x) && !binder_uniques(bv[j].binders).contains(x)
                            ==> free_in(bv[j].body, x) || s1.holds(x),
                decreases branches@.len() - i,
            {
                proof {
                    lemma_weight_branches_take(bv, i as int);
                    assert(bv[i as int].body == branches@[i as int].body@);
                }
                let branch = &branches[i];
                let mut inner = scope.duplicate();
                let mut k: usize = 0;
                while k < branch.binders.len()
                    invariant
                        k <= branch.binders@.len(),
                        inner.paths_ok(),
                        forall|x: u32| #[trigger] inner.holds(x) ==> s1.holds(x),
                    decreases branch.binders@.len() - k,
                {
                    inner.bind(&branch.binders[k], None);
                    k += 1;
                }
                let ghost ib = inner;
                inner.case_binders(*kind, &sv, branch);
                let ghost i0 = inner;
                let mb = term(build, &branch.body, &mut inner);
                let ghost bb = binding_views(mb.bindings@);
                let ghost bvv = mb.value@;
                let body = wrap(mb);
                proof {
                    if plain(core@) {
                        assert(plain(bv[i as int].body));
                    }
                    assert forall|x: u32| #[trigger] free_in(body@, x) && !binder_uniques(bv[i as int].binders).contains(x) implies free_in(bv[i as int].body, x) || s1.holds(x) by {
                        lemma_wrap_free(bb, bvv, x);
                        assert(parts_free(bb, bvv, x));
                        if i0.holds(x) {
                            assert(ib.holds(x));
                        }
                    }
                }
                let ghost before = out@;
                out.push(Branch { test: branch.test.duplicate(), binders: duplicate_binders(&branch.binders), body });
                proof {
                    assert forall|j: int, x: u32| 0 <= j < i + 1 && #[trigger] free_in(out@[j]@.body, x) && !binder_uniques(bv[j].binders).contains(x) implies free_in(bv[j].body, x) || s1.holds(x) by {
                        if j < i {
                            assert(out@[j] == before[j]);
                        }
                    }
                    assert forall|j: int| 0 <= j < i + 1 implies (#[trigger] out@[j])@.binders == bv[j].binders by {
                        if j < i {
                            assert(out@[j] == before[j]);
                        }
                    }
                }
                i += 1;
            }
            proof {
                assert(bv.take(i as int) =~= bv);
            }
            let d = match default {
                Some(x) => {
                    let mut inner = scope.duplicate();
                    let ghost i0 = inner;
                    let mb = term(build, x, &mut inner);
                    let ghost bb = binding_views(mb.bindings@);
                    let ghost bvv = mb.value@;
                    let w = wrap(mb);
                    proof {
                        assert forall|y: u32| #[trigger] free_in(w@, y) implies free_in(x@, y) || s1.holds(y) by {
                            lemma_wrap_free(bb, bvv, y);
                            assert(parts_free(bb, bvv, y));
                            if i0.holds(y) {
                            }
                        }
                    }
                    Some(Box::new(w))
                },
                None => None,
            };
            let ghost gd = d;
            let r = Core::Case { kind: *kind, scrutinee: Box::new(sv), branches: out, default: d };
            proof {
                lemma_views(r);
                let ob = branch_views(out@);
                if plain(core@) {
                    assert(ob =~= bv);
                }
                assert forall|x: u32| #[trigger] parts_free(binding_views(bindings@), r@, x) implies free_in(core@, x) || s0.holds(x) by {
                    if free_before(binding_views(bindings@), x) || free_in(sv@, x) {
                        assert(parts_free(binding_views(bindings@), sv@, x));
                    } else {
                        if free_in_branches(ob, x) {
                            lemma_free_in_branches(ob, x);
                            lemma_free_in_branches(bv, x);
                            let j = choose|j: int| 0 <= j < ob.len() && !binder_uniques(ob[j].binders).contains(x) && free_in(#[trigger] ob[j].body, x);
                            assert(ob[j] == out@[j]@);
                            assert(free_in(out@[j]@.body, x));
                            if s1.holds(x) {
                            }
                        } else {
                            assert(gd is Some);
                            assert(free_in(gd->0@, x));
                            if s1.holds(x) {
                            }
                        }
                    }
                }
            }
            Parts { bindings, value: r }
        },
        Core::Trace { message, body } => {
            let Parts { bindings, value: m } = term(build, message, scope);
            let ghost s1 = *scope;
            let mut inner = scope.duplicate();
            let ghost i0 = inner;
            let mb = term(build, body, &mut inner);
            let ghost bb = binding_views(mb.bindings@);
            let ghost bvv = mb.value@;
            let b = wrap(mb);
            let r = Core::Trace { message: Box::new(m), body: Box::new(b) };
            proof {
                assert forall|x: u32| #[trigger] parts_free(binding_views(bindings@), r@, x) implies free_in(core@, x) || s0.holds(x) by {
                    if free_before(binding_views(bindings@), x) || free_in(m@, x) {
                        assert(parts_free(binding_views(bindings@), m@, x));
                    } else {
                        lemma_wrap_free(bb, bvv, x);
                        assert(parts_free(bb, bvv, x));
                        if i0.holds(x) {
                            assert(s1.holds(x));
                        }
                    }
                }
            }
            Parts { bindings, value: r }
        },
        Core::Delay(body) => {
            let mut inner = scope.duplicate();
            let ghost i0 = inner;
            let mb = term(build, body, &mut inner);
            let ghost bb = binding_views(mb.bindings@);
            let ghost bvv = mb.value@;
            let b = wrap(mb);
            let r = Parts { bindings: Vec::new(), value: Core::Delay(Box::new(b)) };
            proof {
                assert(binding_views(r.bindings@) =~= Seq::<(Binder, Tm)>::empty());
                assert forall|x: u32| free_in(r.value@, x) implies free_in(core@, x) || s0.holds(x) by {
                    lemma_wrap_free(bb, bvv, x);
                    assert(parts_free(bb, bvv, x));
                    if i0.holds(x) {
                    }
                }
            }
            r
        },
        Core::Force(body) => {
            let Parts { bindings, value: b } = term(build, body, scope);
            let r = Core::Force(Box::new(b));
            proof {
                assert forall|x: u32| #[trigger] parts_free(binding_views(bindings@), r@, x) implies free_in(core@, x) || s0.holds(x) by {
                    assert(parts_free(binding_views(bindings@), b@, x));
                }
            }
            Parts { bindings, value: r }
        },
    }
}

/// Share the pure projections of `core`: each decoder, list step or field
/// read is evaluated once per scope and bound, and later reads of the same
/// path use the binder. Fresh names come from `build`, at most three for
/// each unit of the term's weight. The result has no free name that `core`
/// does not have, and a plain term comes back as it is.
pub fn share(build: &mut Builder, core: &Core) -> (r: Core)
    requires
        old(build).next + 3 * weight(core@) < u32::MAX,
    ensures
        old(build).next <= final(build).next <= old(build).next + 3 * weight(core@),
        plain(core@) ==> r@ == core@ && final(build).next == old(build).next,
        forall|x: u32| #[trigger] free_in(r@, x) ==> free_in(core@, x),
{
    let mut scope = Scope::new();
    let ghost s0 = scope;
    let parts = term(build, core, &mut scope);
    let ghost pb = binding_views(parts.bindings@);
    let ghost pv = parts.value@;
    let r = wrap(parts);
    proof {
        assert forall|x: u32| #[trigger] free_in(r@, x) implies free_in(core@, x) by {
            lemma_wrap_free(pb, pv, x);
            assert(parts_free(pb, pv, x));
            assert(!s0.holds(x));
        }
    }
    r
}

} // verus!
