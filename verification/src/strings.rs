//! Shared strings: every string literal of a Core term is bound once, in
//! order of first occurrence, to a fresh `message` name, and each literal is
//! replaced by a reference to the name of its text.
use vstd::prelude::*;
use crate::ir::{
    Binder, Branch, Builder, Constant, ConstantV, Core, RecBinder, Tm, BranchTm, RecTm, Ty, views,
    branch_views, group_views, lemma_views, duplicate_binders, duplicate_u16s,
};

verus! {

/// The texts of the string literals of `t`, in traversal order, with
/// repetition: a value before its body, a function before its arguments,
/// group members before the body of the group, a scrutinee before the
/// branches and the branches before the default.
pub open spec fn string_lits(t: Tm) -> Seq<Seq<char>>
    decreases t,
{
    match t {
        Tm::Var(_) => Seq::empty(),
        Tm::Lit(k) => match k {
            ConstantV::Str(s) => seq![s],
            _ => Seq::empty(),
        },
        Tm::Error => Seq::empty(),
        Tm::Lam(_, b) => string_lits(*b),
        Tm::App(f, args) => string_lits(*f) + lits_list(args),
        Tm::Let(_, v, b) => string_lits(*v) + string_lits(*b),
        Tm::LetRec(rbs, body) => lits_group(rbs) + string_lits(*body),
        Tm::Case(_, s, bs, d) => string_lits(*s) + lits_branches(bs) + match d {
            Some(x) => string_lits(*x),
            None => Seq::empty(),
        },
        Tm::Constr(_, fs) => lits_list(fs),
        Tm::Field(r, _, _) => string_lits(*r),
        Tm::Builtin(_, args) => lits_list(args),
        Tm::Cast(_, _, _, a) => string_lits(*a),
        Tm::Trace(m, b) => string_lits(*m) + string_lits(*b),
        Tm::Delay(b) => string_lits(*b),
        Tm::Force(b) => string_lits(*b),
    }
}

pub open spec fn lits_list(s: Seq<Tm>) -> Seq<Seq<char>>
    decreases s,
{
    if s.len() == 0 {
        Seq::empty()
    } else {
        lits_list(s.drop_last()) + string_lits(s.last())
    }
}

pub open spec fn lits_branches(s: Seq<BranchTm>) -> Seq<Seq<char>>
    decreases s,
{
    if s.len() == 0 {
        Seq::empty()
    } else {
        lits_branches(s.drop_last()) + string_lits(s.last().body)
    }
}

pub open spec fn lits_group(s: Seq<RecTm>) -> Seq<Seq<char>>
    decreases s,
{
    if s.len() == 0 {
        Seq::empty()
    } else {
        lits_group(s.drop_last()) + string_lits(s.last().body)
    }
}

/// `d` extended by the texts of `s` it does not hold yet, in order.
pub open spec fn gather(d: Seq<Seq<char>>, s: Seq<Seq<char>>) -> Seq<Seq<char>>
    decreases s.len(),
{
    if s.len() == 0 {
        d
    } else {
        let g = gather(d, s.drop_last());
        if g.contains(s.last()) {
            g
        } else {
            g.push(s.last())
        }
    }
}

/// The texts that `t` shares: its distinct string literals, in order of
/// first occurrence.
pub open spec fn shared_texts(t: Tm) -> Seq<Seq<char>> {
    gather(Seq::empty(), string_lits(t))
}

/// No text occurs twice.
pub open spec fn distinct_texts(s: Seq<Seq<char>>) -> bool {
    forall|i: int, j: int| 0 <= i < j < s.len() ==> s[i] != s[j]
}

/// `n` is the name of text `s` in `tbl`, whose names count from `start`.
pub open spec fn names_text(n: crate::ir::Name, s: Seq<char>, tbl: Seq<Seq<char>>, start: nat) -> bool {
    &&& n.text@ == "message"@
    &&& start <= n.unique < start + tbl.len()
    &&& tbl[n.unique - start] == s
}

/// `r` is `t` with every string literal replaced by the name of its text.
pub open spec fn hoisted(r: Tm, t: Tm, tbl: Seq<Seq<char>>, start: nat) -> bool
    decreases t,
{
    match t {
        Tm::Lit(k) => match k {
            ConstantV::Str(s) => r matches Tm::Var(n) && names_text(n, s, tbl, start),
            _ => r == t,
        },
        Tm::Var(_) => r == t,
        Tm::Error => r == t,
        Tm::Lam(ps, b) => r matches Tm::Lam(ps2, b2) && ps2 == ps && hoisted(*b2, *b, tbl, start),
        Tm::App(f, args) => r matches Tm::App(f2, args2) && hoisted(*f2, *f, tbl, start) && args2.len()
            == args.len() && forall|i: int| 0 <= i < args.len() ==> hoisted(#[trigger] args2[i], args[i], tbl, start),
        Tm::Let(x, v, b) => r matches Tm::Let(x2, v2, b2) && x2 == x && hoisted(*v2, *v, tbl, start) && hoisted(
            *b2,
            *b,
            tbl,
            start,
        ),
        Tm::LetRec(rbs, body) => r matches Tm::LetRec(rbs2, body2) && hoisted(*body2, *body, tbl, start)
            && rbs2.len() == rbs.len() && forall|k: int|
            0 <= k < rbs.len() ==> (#[trigger] rbs2[k]).binder == rbs[k].binder && rbs2[k].params == rbs[k].params
                && rbs2[k].static_params == rbs[k].static_params && hoisted(rbs2[k].body, rbs[k].body, tbl, start),
        Tm::Case(kind, s, bs, d) => r matches Tm::Case(kind2, s2, bs2, d2) && kind2 == kind && hoisted(
            *s2,
            *s,
            tbl,
            start,
        ) && bs2.len() == bs.len() && (forall|i: int|
            0 <= i < bs.len() ==> (#[trigger] bs2[i]).test == bs[i].test && bs2[i].binders == bs[i].binders
                && hoisted(bs2[i].body, bs[i].body, tbl, start)) && match d {
            Some(x) => d2 matches Some(y) && hoisted(*y, *x, tbl, start),
            None => d2 is None,
        },
        Tm::Constr(tag, fs) => r matches Tm::Constr(tag2, fs2) && tag2 == tag && fs2.len() == fs.len() && forall|i: int|
            0 <= i < fs.len() ==> hoisted(#[trigger] fs2[i], fs[i], tbl, start),
        Tm::Field(rec, i, a) => r matches Tm::Field(rec2, i2, a2) && i2 == i && a2 == a && hoisted(*rec2, *rec, tbl, start),
        Tm::Builtin(f, args) => r matches Tm::Builtin(f2, args2) && f2 == f && args2.len() == args.len() && forall|i: int|
            0 <= i < args.len() ==> hoisted(#[trigger] args2[i], args[i], tbl, start),
        Tm::Cast(c, from, to, a) => r matches Tm::Cast(c2, from2, to2, a2) && c2 == c && from2 == from && to2 == to
            && hoisted(*a2, *a, tbl, start),
        Tm::Trace(m, b) => r matches Tm::Trace(m2, b2) && hoisted(*m2, *m, tbl, start) && hoisted(*b2, *b, tbl, start),
        Tm::Delay(b) => r matches Tm::Delay(b2) && hoisted(*b2, *b, tbl, start),
        Tm::Force(b) => r matches Tm::Force(b2) && hoisted(*b2, *b, tbl, start),
    }
}

/// `r` binds the texts of `tbl` from position `k` on, each to the name
/// `start + k` of type string, around `t` with its literals replaced.
pub open spec fn shares(r: Tm, t: Tm, tbl: Seq<Seq<char>>, start: nat, k: nat) -> bool
    decreases tbl.len() - k,
{
    if k >= tbl.len() {
        hoisted(r, t, tbl, start)
    } else {
        &&& r matches Tm::Let(b, v, body)
        &&& b.name.unique == start + k
        &&& b.name.text@ == "message"@
        &&& b.ty == Ty::Str
        &&& *v == Tm::Lit(ConstantV::Str(tbl[k as int]))
        &&& shares(*body, t, tbl, start, k + 1)
    }
}

/// `gather` over two pieces is `gather` over one, then the other.
pub proof fn lemma_gather_append(d: Seq<Seq<char>>, s1: Seq<Seq<char>>, s2: Seq<Seq<char>>)
    ensures
        gather(d, s1 + s2) == gather(gather(d, s1), s2),
    decreases s2.len(),
{
    if s2.len() == 0 {
        assert(s1 + s2 =~= s1);
    } else {
        lemma_gather_append(d, s1, s2.drop_last());
        assert((s1 + s2).drop_last() =~= s1 + s2.drop_last());
        assert((s1 + s2).last() == s2.last());
    }
}

/// `gather` only appends, at most one text per element, keeps texts
/// distinct, and ends up holding every element.
pub proof fn lemma_gather(d: Seq<Seq<char>>, s: Seq<Seq<char>>)
    ensures
        d.is_prefix_of(gather(d, s)),
        gather(d, s).len() <= d.len() + s.len(),
        distinct_texts(d) ==> distinct_texts(gather(d, s)),
        forall|i: int| 0 <= i < s.len() ==> gather(d, s).contains(#[trigger] s[i]),
        forall|x: Seq<char>| gather(d, s).contains(x) ==> d.contains(x) || s.contains(x),
    decreases s.len(),
{
    if s.len() > 0 {
        let g = gather(d, s.drop_last());
        lemma_gather(d, s.drop_last());
        assert forall|i: int| 0 <= i < s.len() implies gather(d, s).contains(#[trigger] s[i]) by {
            if i < s.len() - 1 {
                assert(s.drop_last()[i] == s[i]);
                assert(g.contains(s[i]));
                if !g.contains(s.last()) {
                    let k = choose|k: int| 0 <= k < g.len() && g[k] == s[i];
                    assert(g.push(s.last())[k] == s[i]);
                }
            } else {
                if !g.contains(s.last()) {
                    assert(g.push(s.last())[g.len() as int] == s.last());
                }
            }
        }
        assert forall|x: Seq<char>| gather(d, s).contains(x) implies d.contains(x) || s.contains(x) by {
            if g.contains(x) {
                if s.drop_last().contains(x) {
                    let k = choose|k: int| 0 <= k < s.drop_last().len() && s.drop_last()[k] == x;
                    assert(s[k] == x);
                }
            } else {
                assert(x == s.last());
                assert(s[s.len() - 1] == x);
            }
        }
        if distinct_texts(d) && !g.contains(s.last()) {
            assert forall|i: int, j: int| 0 <= i < j < g.push(s.last()).len() implies g.push(s.last())[i] != g.push(
                s.last(),
            )[j] by {
                if j == g.len() {
                    assert(g[i] == g.push(s.last())[i]);
                }
            }
        }
    }
}

/// A larger table that begins with `tbl` still names every replaced literal.
pub proof fn lemma_hoisted_mono(r: Tm, t: Tm, tbl: Seq<Seq<char>>, tbl2: Seq<Seq<char>>, start: nat)
    requires
        hoisted(r, t, tbl, start),
        tbl.is_prefix_of(tbl2),
    ensures
        hoisted(r, t, tbl2, start),
    decreases t,
{
    match t {
        Tm::Lit(k) => {},
        Tm::Var(_) => {},
        Tm::Error => {},
        Tm::Lam(ps, b) => {
            let b2 = r->Lam_1;
            lemma_hoisted_mono(*b2, *b, tbl, tbl2, start);
        },
        Tm::App(f, args) => {
            let f2 = r->App_0;
            let args2 = r->App_1;
            lemma_hoisted_mono(*f2, *f, tbl, tbl2, start);
            assert forall|i: int| 0 <= i < args.len() implies hoisted(#[trigger] args2[i], args[i], tbl2, start) by {
                lemma_hoisted_mono(args2[i], args[i], tbl, tbl2, start);
            }
        },
        Tm::Let(x, v, b) => {
            lemma_hoisted_mono(*r->Let_1, *v, tbl, tbl2, start);
            lemma_hoisted_mono(*r->Let_2, *b, tbl, tbl2, start);
        },
        Tm::LetRec(rbs, body) => {
            let rbs2 = r->LetRec_0;
            lemma_hoisted_mono(*r->LetRec_1, *body, tbl, tbl2, start);
            assert forall|k: int| 0 <= k < rbs.len() implies (#[trigger] rbs2[k]).binder == rbs[k].binder && rbs2[k].params
                == rbs[k].params && rbs2[k].static_params == rbs[k].static_params && hoisted(
                rbs2[k].body,
                rbs[k].body,
                tbl2,
                start,
            ) by {
                lemma_hoisted_mono(rbs2[k].body, rbs[k].body, tbl, tbl2, start);
            }
        },
        Tm::Case(kind, s, bs, d) => {
            let bs2 = r->Case_2;
            lemma_hoisted_mono(*r->Case_1, *s, tbl, tbl2, start);
            assert forall|i: int| 0 <= i < bs.len() implies (#[trigger] bs2[i]).test == bs[i].test && bs2[i].binders
                == bs[i].binders && hoisted(bs2[i].body, bs[i].body, tbl2, start) by {
                lemma_hoisted_mono(bs2[i].body, bs[i].body, tbl, tbl2, start);
            }
            match d {
                Some(x) => {
                    lemma_hoisted_mono(*r->Case_3->0, *x, tbl, tbl2, start);
                },
                None => {},
            }
        },
        Tm::Constr(tag, fs) => {
            let fs2 = r->Constr_1;
            assert forall|i: int| 0 <= i < fs.len() implies hoisted(#[trigger] fs2[i], fs[i], tbl2, start) by {
                lemma_hoisted_mono(fs2[i], fs[i], tbl, tbl2, start);
            }
        },
        Tm::Field(rec, i, a) => {
            lemma_hoisted_mono(*r->Field_0, *rec, tbl, tbl2, start);
        },
        Tm::Builtin(f, args) => {
            let args2 = r->Builtin_1;
            assert forall|i: int| 0 <= i < args.len() implies hoisted(#[trigger] args2[i], args[i], tbl2, start) by {
                lemma_hoisted_mono(args2[i], args[i], tbl, tbl2, start);
            }
        },
        Tm::Cast(c, from, to, a) => {
            lemma_hoisted_mono(*r->Cast_3, *a, tbl, tbl2, start);
        },
        Tm::Trace(m, b) => {
            lemma_hoisted_mono(*r->Trace_0, *m, tbl, tbl2, start);
            lemma_hoisted_mono(*r->Trace_1, *b, tbl, tbl2, start);
        },
        Tm::Delay(b) => {
            lemma_hoisted_mono(*r->Delay_0, *b, tbl, tbl2, start);
        },
        Tm::Force(b) => {
            lemma_hoisted_mono(*r->Force_0, *b, tbl, tbl2, start);
        },
    }
}

/// The views of a list of strings.
pub open spec fn text_views(v: Seq<String>) -> Seq<Seq<char>> {
    Seq::new(v.len(), |k: int| v[k]@)
}

/// Hoisting state: the texts bound so far, in order, and their names, all
/// taken from `build` from `start` on.
struct Hoist {
    build: Builder,
    texts: Vec<String>,
    names: Vec<Binder>,
    start: Ghost<nat>,
}

impl Hoist {
    spec fn table(&self) -> Seq<Seq<char>> {
        text_views(self.texts@)
    }

    spec fn wf(&self) -> bool {
        &&& self.texts@.len() == self.names@.len()
        &&& self.build.next == self.start@ + self.texts@.len()
        &&& distinct_texts(self.table())
        &&& forall|k: int|
            0 <= k < self.names@.len() ==> (#[trigger] self.names@[k]).name.unique == self.start@ + k
                && self.names@[k].name.text@ == "message"@ && self.names@[k].ty == Ty::Str
    }

    /// The state after `old` took the texts of `lits`.
    spec fn took(&self, old: Hoist, lits: Seq<Seq<char>>) -> bool {
        &&& self.wf()
        &&& self.start == old.start
        &&& self.table() == gather(old.table(), lits)
    }

    /// The name of text `s`, binding it first if it is new.
    fn name_of(&mut self, s: &String) -> (n: crate::ir::Name)
        requires
            old(self).wf(),
            old(self).build.next + 1 < u32::MAX,
        ensures
            final(self).took(*old(self), seq![s@]),
            names_text(n, s@, final(self).table(), final(self).start@),
    {
        let mut k: usize = 0;
        while k < self.texts.len()
            invariant
                k <= self.texts@.len(),
                *self == *old(self),
                old(self).wf(),
                forall|j: int| 0 <= j < k ==> self.texts@[j]@ != s@,
            decreases self.texts@.len() - k,
        {
            if self.texts[k] == *s {
                let n = self.names[k].name.duplicate();
                proof {
                    assert(self.table()[k as int] == s@);
                    assert(self.table().contains(s@));
                    assert(gather(self.table(), seq![s@]) =~= self.table()) by {
                        assert(seq![s@].drop_last() =~= Seq::<Seq<char>>::empty());
                        assert(gather(self.table(), Seq::<Seq<char>>::empty()) == self.table());
                        assert(seq![s@].last() == s@);
                    }
                    assert(self.names@[k as int].name.unique == self.start@ + k);
                }
                return n;
            }
            k += 1;
        }
        let ghost t0 = self.table();
        proof {
            assert(!t0.contains(s@)) by {
                if t0.contains(s@) {
                    let j = choose|j: int| 0 <= j < t0.len() && t0[j] == s@;
                    assert(self.texts@[j]@ == s@);
                }
            }
            assert(seq![s@].drop_last() =~= Seq::<Seq<char>>::empty());
            assert(gather(t0, Seq::<Seq<char>>::empty()) == t0);
            assert(seq![s@].last() == s@);
            assert(gather(t0, seq![s@]) == t0.push(s@));
        }
        let name = self.build.fresh("message");
        self.texts.push(s.clone());
        self.names.push(Binder { name: name.duplicate(), ty: Ty::Str });
        proof {
            assert(self.table() =~= t0.push(s@));
            assert forall|i: int, j: int| 0 <= i < j < self.table().len() implies self.table()[i] != self.table()[j] by {
                if j < t0.len() {
                    assert(self.table()[i] == t0[i] && self.table()[j] == t0[j]);
                } else {
                    assert(self.table()[i] == t0[i]);
                }
            }
            assert forall|k: int|
                0 <= k < self.names@.len() implies (#[trigger] self.names@[k]).name.unique == self.start@ + k
                    && self.names@[k].name.text@ == "message"@ && self.names@[k].ty == Ty::Str by {
                if k < self.names@.len() - 1 {
                    assert(self.names@[k] == old(self).names@[k]);
                }
            }
        }
        name
    }

    /// Hoist the strings of each of `items`.
    fn terms(&mut self, items: &Vec<Core>) -> (r: Vec<Core>)
        requires
            old(self).wf(),
            old(self).build.next + lits_list(views(items@)).len() < u32::MAX,
        ensures
            final(self).took(*old(self), lits_list(views(items@))),
            r@.len() == items@.len(),
            forall|i: int| 0 <= i < items@.len() ==> hoisted((#[trigger] r@[i])@, items@[i]@, final(self).table(), final(self).start@),
        decreases items, 0nat,
    {
        let ghost s = views(items@);
        let mut out: Vec<Core> = Vec::new();
        let mut i: usize = 0;
        proof {
            assert(s.take(0) =~= Seq::<Tm>::empty());
            lemma_lits_list_prefix(s, 0);
        }
        while i < items.len()
            invariant
                i <= items@.len(),
                s == views(items@),
                self.took(*old(self), lits_list(s.take(i as int))),
                old(self).wf(),
                old(self).build.next + lits_list(s).len() < u32::MAX,
                out@.len() == i,
                forall|k: int| 0 <= k < i ==> hoisted((#[trigger] out@[k])@, items@[k]@, self.table(), self.start@),
            decreases items@.len() - i,
        {
            proof {
                assert(decreases_to!(*items => items[i as int]));
                assert(s.take(i + 1).drop_last() =~= s.take(i as int));
                assert(s.take(i + 1).last() == items@[i as int]@);
                lemma_lits_list_prefix(s, i as int + 1);
                lemma_gather(old(self).table(), lits_list(s.take(i as int)));
            }
            let ghost t1 = self.table();
            let ghost before = *self;
            let r = self.term(&items[i]);
            proof {
                lemma_gather_append(old(self).table(), lits_list(s.take(i as int)), string_lits(items@[i as int]@));
                lemma_gather(t1, string_lits(items@[i as int]@));
                assert forall|k: int| 0 <= k < i implies hoisted((#[trigger] out@[k])@, items@[k]@, self.table(), self.start@) by {
                    lemma_hoisted_mono(out@[k]@, items@[k]@, t1, self.table(), self.start@);
                }
            }
            out.push(r);
            i += 1;
        }
        proof {
            assert(s.take(i as int) =~= s);
        }
        out
    }

    /// Replace the string literals of `core` by their names.
    fn term(&mut self, core: &Core) -> (r: Core)
        requires
            old(self).wf(),
            old(self).build.next + string_lits(core@).len() < u32::MAX,
        ensures
            final(self).took(*old(self), string_lits(core@)),
            hoisted(r@, core@, final(self).table(), final(self).start@),
        decreases core, 1nat,
    {
        proof {
            lemma_views(*core);
            assert(gather(self.table(), Seq::<Seq<char>>::empty()) == self.table());
        }
        match core {
            Core::Lit(Constant::Str(text)) => {
                let n = self.name_of(text);
                Core::Var(n)
            },
            Core::Var(n) => Core::Var(n.duplicate()),
            Core::Lit(_) => core.duplicate(),
            Core::Error => Core::Error,
            Core::Lam { params, body } => {
                let b = self.term(body);
                Core::Lam { params: duplicate_binders(params), body: Box::new(b) }
            },
            Core::App { func, args } => {
                let ghost t0 = self.table();
                let f = self.term(func);
                let ghost t1 = self.table();
                proof {
                    lemma_gather(t0, string_lits(func@));
                }
                let a = self.terms(args);
                let r = Core::App { func: Box::new(f), args: a };
                proof {
                    lemma_views(r);
                    lemma_gather_append(t0, string_lits(func@), lits_list(views(args@)));
                    lemma_gather(t1, lits_list(views(args@)));
                    lemma_hoisted_mono(f@, func@, t1, self.table(), self.start@);
                    assert forall|i: int| 0 <= i < views(args@).len() implies hoisted(#[trigger] views(a@)[i], views(args@)[i], self.table(), self.start@) by {
                        assert(views(a@)[i] == a@[i]@);
                    }
                }
                r
            },
            Core::Let { binder, value, body } => {
                let ghost t0 = self.table();
                let v = self.term(value);
                let ghost t1 = self.table();
                proof {
                    lemma_gather(t0, string_lits(value@));
                }
                let b = self.term(body);
                proof {
                    lemma_gather_append(t0, string_lits(value@), string_lits(body@));
                    lemma_gather(t1, string_lits(body@));
                    lemma_hoisted_mono(v@, value@, t1, self.table(), self.start@);
                }
                Core::Let { binder: binder.duplicate(), value: Box::new(v), body: Box::new(b) }
            },
            Core::LetRec { .. } => self.group(core),
            Core::Case { .. } => self.case(core),
            Core::Constr { tag, fields } => {
                let f = self.terms(fields);
                let r = Core::Constr { tag: *tag, fields: f };
                proof {
                    lemma_views(r);
                    assert forall|i: int| 0 <= i < views(fields@).len() implies hoisted(#[trigger] views(f@)[i], views(fields@)[i], self.table(), self.start@) by {
                        assert(views(f@)[i] == f@[i]@);
                    }
                }
                r
            },
            Core::Field { record, index, arity } => {
                let rec = self.term(record);
                Core::Field { record: Box::new(rec), index: *index, arity: *arity }
            },
            Core::Builtin { function, args } => {
                let a = self.terms(args);
                let r = Core::Builtin { function: *function, args: a };
                proof {
                    lemma_views(r);
                    assert forall|i: int| 0 <= i < views(args@).len() implies hoisted(#[trigger] views(a@)[i], views(args@)[i], self.table(), self.start@) by {
                        assert(views(a@)[i] == a@[i]@);
                    }
                }
                r
            },
            Core::Cast { cast, from, to, arg } => {
                let a = self.term(arg);
                Core::Cast { cast: *cast, from: from.duplicate(), to: to.duplicate(), arg: Box::new(a) }
            },
            Core::Trace { message, body } => {
                let ghost t0 = self.table();
                let m = self.term(message);
                let ghost t1 = self.table();
                proof {
                    lemma_gather(t0, string_lits(message@));
                }
                let b = self.term(body);
                proof {
                    lemma_gather_append(t0, string_lits(message@), string_lits(body@));
                    lemma_gather(t1, string_lits(body@));
                    lemma_hoisted_mono(m@, message@, t1, self.table(), self.start@);
                }
                Core::Trace { message: Box::new(m), body: Box::new(b) }
            },
            Core::Delay(b) => {
                let x = self.term(b);
                Core::Delay(Box::new(x))
            },
            Core::Force(b) => {
                let x = self.term(b);
                Core::Force(Box::new(x))
            },
        }
    }
}

impl Hoist {
    /// Hoist the strings of a recursive group: its members, then its body.
    fn group(&mut self, core: &Core) -> (r: Core)
        requires
            core is LetRec,
            old(self).wf(),
            old(self).build.next + string_lits(core@).len() < u32::MAX,
        ensures
            final(self).took(*old(self), string_lits(core@)),
            hoisted(r@, core@, final(self).table(), final(self).start@),
        decreases core, 0nat,
    {
        proof {
            lemma_views(*core);
        }
        match core {
            Core::LetRec { binders, body } => {
                let ghost gv = group_views(binders@);
                let mut out: Vec<RecBinder> = Vec::new();
                let mut k: usize = 0;
                proof {
                    assert(gv.take(0) =~= Seq::<RecTm>::empty());
                    lemma_lits_group_prefix(gv, 0);
                }
                while k < binders.len()
                    invariant
                        k <= binders@.len(),
                        gv == group_views(binders@),
                        core is LetRec,
                        (*core)->LetRec_binders == *binders,
                        core@ == Tm::LetRec(gv, Box::new((*core)->LetRec_body@)),
                        self.took(*old(self), lits_group(gv.take(k as int))),
                        old(self).wf(),
                        old(self).build.next + string_lits(core@).len() < u32::MAX,
                        out@.len() == k,
                        forall|j: int|
                            0 <= j < k ==> (#[trigger] out@[j])@.binder == gv[j].binder && out@[j]@.params == gv[j].params
                                && out@[j]@.static_params == gv[j].static_params && hoisted(
                                out@[j]@.body,
                                gv[j].body,
                                self.table(),
                                self.start@,
                            ),
                    decreases binders@.len() - k,
                {
                    proof {
                        assert(decreases_to!(*core => (*core)->LetRec_binders));
                        assert(decreases_to!(*binders => binders@));
                        assert(decreases_to!(binders@ => binders@[k as int]));
                        assert(decreases_to!(binders@[k as int] => binders@[k as int].body));
                        assert(gv.take(k + 1).drop_last() =~= gv.take(k as int));
                        assert(gv.take(k + 1).last() == binders@[k as int]@);
                        lemma_lits_group_prefix(gv, k as int + 1);
                        lemma_gather(old(self).table(), lits_group(gv.take(k as int)));
                    }
                    let ghost t1 = self.table();
                    let rb = &binders[k];
                    let b = self.term(&rb.body);
                    proof {
                        lemma_gather_append(old(self).table(), lits_group(gv.take(k as int)), string_lits(rb.body@));
                        lemma_gather(t1, string_lits(rb.body@));
                        assert forall|j: int| 0 <= j < k implies (#[trigger] out@[j])@.binder == gv[j].binder && out@[j]@.params
                            == gv[j].params && out@[j]@.static_params == gv[j].static_params && hoisted(
                            out@[j]@.body,
                            gv[j].body,
                            self.table(),
                            self.start@,
                        ) by {
                            lemma_hoisted_mono(out@[j]@.body, gv[j].body, t1, self.table(), self.start@);
                        }
                    }
                    out.push(
                        RecBinder {
                            binder: rb.binder.duplicate(),
                            params: duplicate_binders(&rb.params),
                            static_params: duplicate_u16s(&rb.static_params),
                            body: b,
                        },
                    );
                    k += 1;
                }
                proof {
                    assert(gv.take(k as int) =~= gv);
                    lemma_gather(old(self).table(), lits_group(gv));
                }
                let ghost t1 = self.table();
                let bd = self.term(body);
                let ghost gout = out@;
                let r = Core::LetRec { binders: out, body: Box::new(bd) };
                proof {
                    lemma_views(r);
                    lemma_gather_append(old(self).table(), lits_group(gv), string_lits(body@));
                    lemma_gather(t1, string_lits(body@));
                    let ov = group_views(gout);
                    assert forall|j: int| 0 <= j < gv.len() implies (#[trigger] ov[j]).binder == gv[j].binder && ov[j].params
                        == gv[j].params && ov[j].static_params == gv[j].static_params && hoisted(
                        ov[j].body,
                        gv[j].body,
                        self.table(),
                        self.start@,
                    ) by {
                        assert(ov[j] == gout[j]@);
                        lemma_hoisted_mono(gout[j]@.body, gv[j].body, t1, self.table(), self.start@);
                    }
                }
                r
            },
            _ => Core::Error,
        }
    }

    /// Hoist the strings of a case: scrutinee, branches, default.
    fn case(&mut self, core: &Core) -> (r: Core)
        requires
            core is Case,
            old(self).wf(),
            old(self).build.next + string_lits(core@).len() < u32::MAX,
        ensures
            final(self).took(*old(self), string_lits(core@)),
            hoisted(r@, core@, final(self).table(), final(self).start@),
        decreases core, 0nat,
    {
        proof {
            lemma_views(*core);
        }
        match core {
            Core::Case { kind, scrutinee, branches, default } => {
                let ghost bv = branch_views(branches@);
                let ghost t0 = self.table();
                let ghost dl = match default {
                    Some(d) => string_lits(d@),
                    None => Seq::<Seq<char>>::empty(),
                };
                assert(string_lits(core@) == string_lits(scrutinee@) + lits_branches(bv) + dl);
                let sc = self.term(scrutinee);
                let ghost t1 = self.table();
                let ghost p1 = *self;
                proof {
                    lemma_gather(t0, string_lits(scrutinee@));
                    assert(bv.take(0) =~= Seq::<BranchTm>::empty());
                    lemma_lits_branches_prefix(bv, 0);
                }
                let mut out: Vec<Branch> = Vec::new();
                let mut i: usize = 0;
                while i < branches.len()
                    invariant
                        i <= branches@.len(),
                        bv == branch_views(branches@),
                        core is Case,
                        (*core)->Case_branches == *branches,
                        self.took(p1, lits_branches(bv.take(i as int))),
                        p1.wf(),
                        p1.build.next + lits_branches(bv).len() < u32::MAX,
                        out@.len() == i,
                        forall|j: int|
                            0 <= j < i ==> (#[trigger] out@[j])@.test == bv[j].test && out@[j]@.binders == bv[j].binders
                                && hoisted(out@[j]@.body, bv[j].body, self.table(), self.start@),
                    decreases branches@.len() - i,
                {
                    proof {
                        assert(decreases_to!(*core => (*core)->Case_branches));
                        assert(decreases_to!(*branches => branches@));
                        assert(decreases_to!(branches@ => branches@[i as int]));
                        assert(decreases_to!(branches@[i as int] => branches@[i as int].body));
                        assert(bv.take(i + 1).drop_last() =~= bv.take(i as int));
                        assert(bv.take(i + 1).last() == branches@[i as int]@);
                        lemma_lits_branches_prefix(bv, i as int + 1);
                        lemma_gather(p1.table(), lits_branches(bv.take(i as int)));
                    }
                    let ghost t2 = self.table();
                    let br = &branches[i];
                    let b = self.term(&br.body);
                    proof {
                        lemma_gather_append(p1.table(), lits_branches(bv.take(i as int)), string_lits(br.body@));
                        lemma_gather(t2, string_lits(br.body@));
                        assert forall|j: int| 0 <= j < i implies (#[trigger] out@[j])@.test == bv[j].test && out@[j]@.binders
                            == bv[j].binders && hoisted(out@[j]@.body, bv[j].body, self.table(), self.start@) by {
                            lemma_hoisted_mono(out@[j]@.body, bv[j].body, t2, self.table(), self.start@);
                        }
                    }
                    out.push(Branch { test: br.test.duplicate(), binders: duplicate_binders(&br.binders), body: b });
                    i += 1;
                }
                proof {
                    assert(bv.take(i as int) =~= bv);
                    lemma_gather(p1.table(), lits_branches(bv));
                    lemma_gather_append(t0, string_lits(scrutinee@), lits_branches(bv));
                }
                let ghost t3 = self.table();
                let d = match default {
                    Some(x) => Some(Box::new(self.term(x))),
                    None => None,
                };
                let ghost gd = d;
                let ghost gout = out@;
                let r = Core::Case { kind: *kind, scrutinee: Box::new(sc), branches: out, default: d };
                proof {
                    lemma_views(r);
                    lemma_gather_append(t0, string_lits(scrutinee@) + lits_branches(bv), dl);
                    lemma_gather(t3, dl);
                    lemma_gather(t1, lits_branches(bv));
                    assert(t1.is_prefix_of(t3));
                    lemma_hoisted_mono(sc@, scrutinee@, t1, t3, self.start@);
                    lemma_hoisted_mono(sc@, scrutinee@, t3, self.table(), self.start@);
                    let ov = branch_views(gout);
                    assert forall|j: int| 0 <= j < bv.len() implies (#[trigger] ov[j]).test == bv[j].test && ov[j].binders
                        == bv[j].binders && hoisted(ov[j].body, bv[j].body, self.table(), self.start@) by {
                        assert(ov[j] == gout[j]@);
                        lemma_hoisted_mono(gout[j]@.body, bv[j].body, t3, self.table(), self.start@);
                    }
                    if gd is None {
                        assert(dl =~= Seq::<Seq<char>>::empty());
                    }
                }
                r
            },
            _ => Core::Error,
        }
    }
}

/// Each prefix of a list of branches takes at most the literals of all.
proof fn lemma_lits_branches_prefix(s: Seq<BranchTm>, i: int)
    requires
        0 <= i <= s.len(),
    ensures
        lits_branches(s.take(i)).len() <= lits_branches(s).len(),
    decreases s.len() - i,
{
    if i < s.len() {
        lemma_lits_branches_prefix(s, i + 1);
        assert(s.take(i + 1).drop_last() =~= s.take(i));
    } else {
        assert(s.take(i) =~= s);
    }
}

/// Each prefix of a group takes at most the literals of the whole group.
proof fn lemma_lits_group_prefix(s: Seq<RecTm>, i: int)
    requires
        0 <= i <= s.len(),
    ensures
        lits_group(s.take(i)).len() <= lits_group(s).len(),
    decreases s.len() - i,
{
    if i < s.len() {
        lemma_lits_group_prefix(s, i + 1);
        assert(s.take(i + 1).drop_last() =~= s.take(i));
    } else {
        assert(s.take(i) =~= s);
    }
}

/// Bind every string literal of `core` once, in order of first occurrence,
/// to a fresh name of type string from `build`, and refer to the names in
/// place of the literals.
pub fn hoist_strings(build: &mut Builder, core: &Core) -> (r: Core)
    requires
        old(build).next + string_lits(core@).len() < u32::MAX,
    ensures
        final(build).next == old(build).next + shared_texts(core@).len(),
        distinct_texts(shared_texts(core@)),
        shares(r@, core@, shared_texts(core@), old(build).next as nat, 0),
{
    let mut h = Hoist { build: Builder::new(build.next), texts: Vec::new(), names: Vec::new(), start: Ghost(build.next as nat) };
    proof {
        assert(h.table() =~= Seq::<Seq<char>>::empty());
    }
    let inner = h.term(core);
    build.next = h.build.next;
    let ghost tbl = h.table();
    let ghost start = h.start@;
    proof {
        assert(tbl == shared_texts(core@));
    }
    let mut r = inner;
    let mut k: usize = h.texts.len();
    while k > 0
        invariant
            k <= h.texts@.len(),
            h.wf(),
            h.table() == tbl,
            h.start@ == start,
            shares(r@, core@, tbl, start, k as nat),
        decreases k,
    {
        k -= 1;
        let text = h.texts[k].clone();
        let value = Core::Lit(Constant::Str(text));
        proof {
            assert(tbl[k as int] == h.texts@[k as int]@);
            assert(value@ == Tm::Lit(ConstantV::Str(tbl[k as int])));
            assert(h.names@[k as int].name.unique == start + k);
        }
        r = Core::Let { binder: h.names[k].duplicate(), value: Box::new(value), body: Box::new(r) };
    }
    r
}

/// Each prefix of a list takes at most the literals of the whole list.
proof fn lemma_lits_list_prefix(s: Seq<Tm>, i: int)
    requires
        0 <= i <= s.len(),
    ensures
        lits_list(s.take(i)).len() <= lits_list(s).len(),
    decreases s.len() - i,
{
    if i < s.len() {
        lemma_lits_list_prefix(s, i + 1);
        assert(s.take(i + 1).drop_last() =~= s.take(i));
    } else {
        assert(s.take(i) =~= s);
    }
}

} // verus!
