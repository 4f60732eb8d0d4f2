//! Core: the typed, strict intermediate language that specialization produces
//! and that the passes of this crate rewrite and lower.
//!
//! Every binder carries a unique number; two names denote the same variable
//! exactly when their uniques are equal. The text of a name is kept for
//! display only.
use vstd::prelude::*;

verus! {

/// A variable name: display text plus the unique number that identifies it.
#[derive(Debug)]
pub struct Name {
    pub text: String,
    pub unique: u32,
}

impl Name {
    pub fn new(text: &str, unique: u32) -> (r: Name)
        ensures
            r.text@ == text@,
            r.unique == unique,
    {
        Name { text: text.to_string(), unique }
    }

    /// A copy of this name with the same text and unique.
    pub fn duplicate(&self) -> (r: Name)
        ensures
            r == *self,
    {
        Name { text: self.text.clone(), unique: self.unique }
    }
}

/// Runtime representation metadata carried by binders. The passes of this
/// crate copy it through; only string literals and generated helpers
/// choose one themselves.
#[derive(PartialEq, Eq, Debug)]
pub enum Ty {
    /// The representation is irrelevant (generated plumbing).
    Erased,
    Int,
    Bytes,
    Str,
    Bool,
    Unit,
    Data,
    /// A builtin list with elements of the given type.
    List(Box<Ty>),
    /// A builtin pair.
    Pair(Box<Ty>, Box<Ty>),
    /// A record carried as Data: a list of encoded fields.
    Encoded(TyList),
    /// A record of the given field types, as a sum-of-products value.
    Record(TyList),
    /// A tuple of the given field types, as a sum-of-products value.
    Tuple(TyList),
    /// Any other runtime type, identified by a number of the caller's choosing.
    Other(u32),
}

/// The field types of a record or tuple, first field first.
#[derive(PartialEq, Eq, Debug)]
pub enum TyList {
    Nil,
    Cons(Box<Ty>, Box<TyList>),
}

impl TyList {
    pub open spec fn spec_len(self) -> nat
        decreases self,
    {
        match self {
            TyList::Nil => 0,
            TyList::Cons(_, rest) => 1 + rest.spec_len(),
        }
    }

    /// The number of fields, or `usize::MAX` for a longer list.
    pub fn len(&self) -> (r: usize)
        ensures
            r as nat == if self.spec_len() < usize::MAX { self.spec_len() } else { usize::MAX as nat },
        decreases self,
    {
        match self {
            TyList::Nil => 0,
            TyList::Cons(_, rest) => rest.len().saturating_add(1),
        }
    }

    /// The type of field `index`, if there is one.
    pub fn get(&self, index: usize) -> (r: Option<&Ty>)
        ensures
            r is Some <==> index < self.spec_len(),
        decreases self,
    {
        match self {
            TyList::Nil => None,
            TyList::Cons(first, rest) => if index == 0 {
                Some(&**first)
            } else {
                rest.get(index - 1)
            },
        }
    }

    pub fn duplicate(&self) -> (r: TyList)
        ensures
            r == *self,
        decreases self,
    {
        match self {
            TyList::Nil => TyList::Nil,
            TyList::Cons(first, rest) => TyList::Cons(Box::new(first.duplicate()), Box::new(rest.duplicate())),
        }
    }
}

impl Ty {
    /// A copy of this type.
    pub fn duplicate(&self) -> (r: Ty)
        ensures
            r == *self,
        decreases self,
    {
        match self {
            Ty::Erased => Ty::Erased,
            Ty::Int => Ty::Int,
            Ty::Bytes => Ty::Bytes,
            Ty::Str => Ty::Str,
            Ty::Bool => Ty::Bool,
            Ty::Unit => Ty::Unit,
            Ty::Data => Ty::Data,
            Ty::List(e) => Ty::List(Box::new(e.duplicate())),
            Ty::Pair(a, b) => Ty::Pair(Box::new(a.duplicate()), Box::new(b.duplicate())),
            Ty::Encoded(fs) => Ty::Encoded(fs.duplicate()),
            Ty::Record(fs) => Ty::Record(fs.duplicate()),
            Ty::Tuple(fs) => Ty::Tuple(fs.duplicate()),
            Ty::Other(n) => Ty::Other(*n),
        }
    }
}

/// A name together with its runtime type.
#[derive(Debug)]
pub struct Binder {
    pub name: Name,
    pub ty: Ty,
}

impl Binder {
    pub fn duplicate(&self) -> (r: Binder)
        ensures
            r == *self,
    {
        Binder { name: self.name.duplicate(), ty: self.ty.duplicate() }
    }
}

/// Plutus constants that Core literals can hold.
#[derive(Debug)]
pub enum Constant {
    Integer(i128),
    ByteString(Vec<u8>),
    Str(String),
    Bool(bool),
    Unit,
}

/// What a `Core::Case` inspects.
#[derive(Clone, Copy, PartialEq, Eq, Structural, Debug)]
pub enum CaseKind {
    /// Sums of products, by constructor tag.
    Tag,
    Bool,
    Int,
    Bytes,
    List,
    Data,
}

/// The test that selects one branch of a `Core::Case`.
#[derive(Debug)]
pub enum Test {
    Tag(u16),
    True,
    False,
    Int(i128),
    Bytes(Vec<u8>),
    Nil,
    Cons,
    DataConstr,
    DataMap,
    DataList,
    DataI,
    DataB,
}

/// The kind of a representation cast; casts are expanded before lowering,
/// so the passes here only carry it.
#[derive(Clone, Copy, PartialEq, Eq, Structural, Debug)]
pub struct CastKind {
    pub code: u8,
}

/// Plutus builtin functions. The functions that this crate's passes emit are
/// named; any other builtin carries its identity, arity and force count.
#[derive(Clone, Copy, PartialEq, Eq, Structural, Debug)]
pub enum DefaultFunction {
    AddInteger,
    SubtractInteger,
    MultiplyInteger,
    EqualsInteger,
    LessThanInteger,
    EqualsByteString,
    AppendString,
    IfThenElse,
    Trace,
    FstPair,
    SndPair,
    ChooseList,
    HeadList,
    TailList,
    NullList,
    ChooseData,
    ListData,
    UnConstrData,
    UnMapData,
    UnListData,
    UnIData,
    UnBData,
    DropList,
    Other { id: u16, arity: u16, forces: u16 },
}

impl DefaultFunction {
    pub open spec fn spec_arity(self) -> nat {
        match self {
            DefaultFunction::AddInteger => 2,
            DefaultFunction::SubtractInteger => 2,
            DefaultFunction::MultiplyInteger => 2,
            DefaultFunction::EqualsInteger => 2,
            DefaultFunction::LessThanInteger => 2,
            DefaultFunction::EqualsByteString => 2,
            DefaultFunction::AppendString => 2,
            DefaultFunction::IfThenElse => 3,
            DefaultFunction::Trace => 2,
            DefaultFunction::FstPair => 1,
            DefaultFunction::SndPair => 1,
            DefaultFunction::ChooseList => 3,
            DefaultFunction::HeadList => 1,
            DefaultFunction::TailList => 1,
            DefaultFunction::NullList => 1,
            DefaultFunction::ChooseData => 6,
            DefaultFunction::ListData => 1,
            DefaultFunction::UnConstrData => 1,
            DefaultFunction::UnMapData => 1,
            DefaultFunction::UnListData => 1,
            DefaultFunction::UnIData => 1,
            DefaultFunction::UnBData => 1,
            DefaultFunction::DropList => 2,
            DefaultFunction::Other { arity, .. } => arity as nat,
        }
    }

    /// Number of arguments the builtin is saturated with.
    pub fn arity(&self) -> (r: usize)
        ensures
            r == self.spec_arity(),
    {
        match self {
            DefaultFunction::AddInteger => 2,
            DefaultFunction::SubtractInteger => 2,
            DefaultFunction::MultiplyInteger => 2,
            DefaultFunction::EqualsInteger => 2,
            DefaultFunction::LessThanInteger => 2,
            DefaultFunction::EqualsByteString => 2,
            DefaultFunction::AppendString => 2,
            DefaultFunction::IfThenElse => 3,
            DefaultFunction::Trace => 2,
            DefaultFunction::FstPair => 1,
            DefaultFunction::SndPair => 1,
            DefaultFunction::ChooseList => 3,
            DefaultFunction::HeadList => 1,
            DefaultFunction::TailList => 1,
            DefaultFunction::NullList => 1,
            DefaultFunction::ChooseData => 6,
            DefaultFunction::ListData => 1,
            DefaultFunction::UnConstrData => 1,
            DefaultFunction::UnMapData => 1,
            DefaultFunction::UnListData => 1,
            DefaultFunction::UnIData => 1,
            DefaultFunction::UnBData => 1,
            DefaultFunction::DropList => 2,
            DefaultFunction::Other { arity, .. } => *arity as usize,
        }
    }

    pub open spec fn spec_force_count(self) -> nat {
        match self {
            DefaultFunction::IfThenElse => 1,
            DefaultFunction::Trace => 1,
            DefaultFunction::FstPair => 2,
            DefaultFunction::SndPair => 2,
            DefaultFunction::ChooseList => 2,
            DefaultFunction::HeadList => 1,
            DefaultFunction::TailList => 1,
            DefaultFunction::NullList => 1,
            DefaultFunction::ChooseData => 1,
            DefaultFunction::DropList => 1,
            DefaultFunction::Other { forces, .. } => forces as nat,
            _ => 0,
        }
    }

    /// Number of type instantiations (forces) the builtin needs before use.
    pub fn force_count(&self) -> (r: usize)
        ensures
            r == self.spec_force_count(),
    {
        match self {
            DefaultFunction::IfThenElse => 1,
            DefaultFunction::Trace => 1,
            DefaultFunction::FstPair => 2,
            DefaultFunction::SndPair => 2,
            DefaultFunction::ChooseList => 2,
            DefaultFunction::HeadList => 1,
            DefaultFunction::TailList => 1,
            DefaultFunction::NullList => 1,
            DefaultFunction::ChooseData => 1,
            DefaultFunction::DropList => 1,
            DefaultFunction::Other { forces, .. } => *forces as usize,
            _ => 0,
        }
    }
}

/// One arm of a `Core::Case`: the test, the fields it binds, and its body.
#[derive(Debug)]
pub struct Branch {
    pub test: Test,
    pub binders: Vec<Binder>,
    pub body: Core,
}

/// One function of a recursive group. `static_params` lists parameters that
/// every recursive call forwards unchanged (an annotation, rechecked before use).
#[derive(Debug)]
pub struct RecBinder {
    pub binder: Binder,
    pub params: Vec<Binder>,
    pub static_params: Vec<u16>,
    pub body: Core,
}

/// Core terms.
#[derive(Debug)]
pub enum Core {
    Var(Name),
    Lit(Constant),
    Lam { params: Vec<Binder>, body: Box<Core> },
    App { func: Box<Core>, args: Vec<Core> },
    Let { binder: Binder, value: Box<Core>, body: Box<Core> },
    LetRec { binders: Vec<RecBinder>, body: Box<Core> },
    Case { kind: CaseKind, scrutinee: Box<Core>, branches: Vec<Branch>, default: Option<Box<Core>> },
    Constr { tag: u16, fields: Vec<Core> },
    Field { record: Box<Core>, index: u16, arity: u16 },
    Builtin { function: DefaultFunction, args: Vec<Core> },
    Cast { cast: CastKind, from: Ty, to: Ty, arg: Box<Core> },
    Trace { message: Box<Core>, body: Box<Core> },
    Delay(Box<Core>),
    Force(Box<Core>),
    Error,
}

/// Spec view of a constant.
pub enum ConstantV {
    Integer(i128),
    ByteString(Seq<u8>),
    Str(Seq<char>),
    Bool(bool),
    Unit,
}

impl View for Constant {
    type V = ConstantV;

    open spec fn view(&self) -> ConstantV {
        match self {
            Constant::Integer(i) => ConstantV::Integer(*i),
            Constant::ByteString(b) => ConstantV::ByteString(b@),
            Constant::Str(s) => ConstantV::Str(s@),
            Constant::Bool(b) => ConstantV::Bool(*b),
            Constant::Unit => ConstantV::Unit,
        }
    }
}

/// Spec view of a branch test.
pub enum TestV {
    Tag(u16),
    True,
    False,
    Int(i128),
    Bytes(Seq<u8>),
    Nil,
    Cons,
    DataConstr,
    DataMap,
    DataList,
    DataI,
    DataB,
}

impl View for Test {
    type V = TestV;

    open spec fn view(&self) -> TestV {
        match self {
            Test::Tag(t) => TestV::Tag(*t),
            Test::True => TestV::True,
            Test::False => TestV::False,
            Test::Int(i) => TestV::Int(*i),
            Test::Bytes(b) => TestV::Bytes(b@),
            Test::Nil => TestV::Nil,
            Test::Cons => TestV::Cons,
            Test::DataConstr => TestV::DataConstr,
            Test::DataMap => TestV::DataMap,
            Test::DataList => TestV::DataList,
            Test::DataI => TestV::DataI,
            Test::DataB => TestV::DataB,
        }
    }
}

/// The mathematical value of a Core term: the same tree with sequences in
/// place of vectors. Two terms with equal views are interchangeable.
pub enum Tm {
    Var(Name),
    Lit(ConstantV),
    Lam(Seq<Binder>, Box<Tm>),
    App(Box<Tm>, Seq<Tm>),
    Let(Binder, Box<Tm>, Box<Tm>),
    LetRec(Seq<RecTm>, Box<Tm>),
    Case(CaseKind, Box<Tm>, Seq<BranchTm>, Option<Box<Tm>>),
    Constr(u16, Seq<Tm>),
    Field(Box<Tm>, u16, u16),
    Builtin(DefaultFunction, Seq<Tm>),
    Cast(CastKind, Ty, Ty, Box<Tm>),
    Trace(Box<Tm>, Box<Tm>),
    Delay(Box<Tm>),
    Force(Box<Tm>),
    Error,
}

/// Spec view of a `Branch`.
pub struct BranchTm {
    pub test: TestV,
    pub binders: Seq<Binder>,
    pub body: Tm,
}

/// Spec view of a `RecBinder`.
pub struct RecTm {
    pub binder: Binder,
    pub params: Seq<Binder>,
    pub static_params: Seq<u16>,
    pub body: Tm,
}

pub open spec fn view_core(c: Core) -> Tm
    decreases c,
{
    match c {
        Core::Var(n) => Tm::Var(n),
        Core::Lit(k) => Tm::Lit(k@),
        Core::Lam { params, body } => Tm::Lam(params@, Box::new(view_core(*body))),
        Core::App { func, args } => Tm::App(
            Box::new(view_core(*func)),
            Seq::new(
                args.len() as nat,
                |i: int|
                    if 0 <= i < args.len() {
                        view_core(args[i])
                    } else {
                        Tm::Error
                    },
            ),
        ),
        Core::Let { binder, value, body } => Tm::Let(
            binder,
            Box::new(view_core(*value)),
            Box::new(view_core(*body)),
        ),
        Core::LetRec { binders, body } => Tm::LetRec(
            Seq::new(
                binders.len() as nat,
                |i: int|
                    if 0 <= i < binders.len() {
                        RecTm {
                            binder: binders[i].binder,
                            params: binders[i].params@,
                            static_params: binders[i].static_params@,
                            body: view_core(binders[i].body),
                        }
                    } else {
                        RecTm {
                            binder: binders[0].binder,
                            params: Seq::empty(),
                            static_params: Seq::empty(),
                            body: Tm::Error,
                        }
                    },
            ),
            Box::new(view_core(*body)),
        ),
        Core::Case { kind, scrutinee, branches, default } => Tm::Case(
            kind,
            Box::new(view_core(*scrutinee)),
            Seq::new(
                branches.len() as nat,
                |i: int|
                    if 0 <= i < branches.len() {
                        BranchTm {
                            test: branches[i].test@,
                            binders: branches[i].binders@,
                            body: view_core(branches[i].body),
                        }
                    } else {
                        BranchTm { test: TestV::Nil, binders: Seq::empty(), body: Tm::Error }
                    },
            ),
            match default {
                Some(d) => Some(Box::new(view_core(*d))),
                None => None,
            },
        ),
        Core::Constr { tag, fields } => Tm::Constr(
            tag,
            Seq::new(
                fields.len() as nat,
                |i: int|
                    if 0 <= i < fields.len() {
                        view_core(fields[i])
                    } else {
                        Tm::Error
                    },
            ),
        ),
        Core::Field { record, index, arity } => Tm::Field(Box::new(view_core(*record)), index, arity),
        Core::Builtin { function, args } => Tm::Builtin(
            function,
            Seq::new(
                args.len() as nat,
                |i: int|
                    if 0 <= i < args.len() {
                        view_core(args[i])
                    } else {
                        Tm::Error
                    },
            ),
        ),
        Core::Cast { cast, from, to, arg } => Tm::Cast(cast, from, to, Box::new(view_core(*arg))),
        Core::Trace { message, body } => Tm::Trace(
            Box::new(view_core(*message)),
            Box::new(view_core(*body)),
        ),
        Core::Delay(b) => Tm::Delay(Box::new(view_core(*b))),
        Core::Force(b) => Tm::Force(Box::new(view_core(*b))),
        Core::Error => Tm::Error,
    }
}

impl View for Core {
    type V = Tm;

    open spec fn view(&self) -> Tm {
        view_core(*self)
    }
}

impl View for Branch {
    type V = BranchTm;

    open spec fn view(&self) -> BranchTm {
        BranchTm { test: self.test@, binders: self.binders@, body: self.body@ }
    }
}

impl View for RecBinder {
    type V = RecTm;

    open spec fn view(&self) -> RecTm {
        RecTm {
            binder: self.binder,
            params: self.params@,
            static_params: self.static_params@,
            body: self.body@,
        }
    }
}

/// Views of a sequence of terms.
pub open spec fn views(s: Seq<Core>) -> Seq<Tm> {
    Seq::new(s.len(), |i: int| s[i]@)
}

pub open spec fn branch_views(s: Seq<Branch>) -> Seq<BranchTm> {
    Seq::new(s.len(), |i: int| s[i]@)
}

pub open spec fn group_views(s: Seq<RecBinder>) -> Seq<RecTm> {
    Seq::new(s.len(), |i: int| s[i]@)
}

/// The view of an application, through `views`.
pub proof fn lemma_view_app(c: Core, func: Box<Core>, args: Vec<Core>)
    requires
        c == (Core::App { func, args }),
    ensures
        c@ == Tm::App(Box::new(func@), views(args@)),
{
    let v = view_core(c);
    let a = match v {
        Tm::App(_, a) => a,
        _ => Seq::empty(),
    };
    assert(a =~= views(args@));
}

/// The view of a term, one level down, through `views`, `branch_views`
/// and `group_views`.
pub proof fn lemma_views(c: Core)
    ensures
        match c {
            Core::App { func, args } => c@ == Tm::App(Box::new(func@), views(args@)),
            Core::LetRec { binders, body } => c@ == Tm::LetRec(group_views(binders@), Box::new(body@)),
            Core::Case { kind, scrutinee, branches, default } => c@ == Tm::Case(
                kind,
                Box::new(scrutinee@),
                branch_views(branches@),
                match default {
                    Some(d) => Some(Box::new(d@)),
                    None => None,
                },
            ),
            Core::Constr { tag, fields } => c@ == Tm::Constr(tag, views(fields@)),
            Core::Builtin { function, args } => c@ == Tm::Builtin(function, views(args@)),
            _ => true,
        },
{
    let v = view_core(c);
    match c {
        Core::App { func, args } => {
            lemma_view_app(c, func, args);
        },
        Core::LetRec { binders, body } => {
            let a = match v {
                Tm::LetRec(a, _) => a,
                _ => Seq::empty(),
            };
            assert(a =~= group_views(binders@));
        },
        Core::Case { branches, .. } => {
            let a = match v {
                Tm::Case(_, _, a, _) => a,
                _ => Seq::empty(),
            };
            assert(a =~= branch_views(branches@));
        },
        Core::Constr { fields, .. } => {
            let a = match v {
                Tm::Constr(_, a) => a,
                _ => Seq::empty(),
            };
            assert(a =~= views(fields@));
        },
        Core::Builtin { args, .. } => {
            let a = match v {
                Tm::Builtin(_, a) => a,
                _ => Seq::empty(),
            };
            assert(a =~= views(args@));
        },
        _ => {},
    }
}

/// The uniques of a sequence of binders.
pub open spec fn binder_uniques(bs: Seq<Binder>) -> Seq<u32> {
    Seq::new(bs.len(), |i: int| bs[i].name.unique)
}

/// The uniques that a recursive group binds: the names of its functions.
pub open spec fn group_uniques(rbs: Seq<RecTm>) -> Seq<u32> {
    Seq::new(rbs.len(), |i: int| rbs[i].binder.name.unique)
}

/// `u` occurs free in `t`: some occurrence `Var(n)` with `n.unique == u`
/// is not under a binder of `u`.
pub open spec fn free_in(t: Tm, u: u32) -> bool
    decreases t,
{
    match t {
        Tm::Var(n) => n.unique == u,
        Tm::Lit(_) => false,
        Tm::Error => false,
        Tm::Lam(params, body) => !binder_uniques(params).contains(u) && free_in(*body, u),
        Tm::App(func, args) => free_in(*func, u) || free_in_list(args, u),
        Tm::Let(binder, value, body) => free_in(*value, u) || (binder.name.unique != u && free_in(
            *body,
            u,
        )),
        Tm::LetRec(binders, body) => !group_uniques(binders).contains(u) && (free_in(*body, u)
            || free_in_group(binders, u)),
        Tm::Case(_, scrutinee, branches, default) => free_in(*scrutinee, u) || free_in_branches(
            branches,
            u,
        ) || match default {
            Some(d) => free_in(*d, u),
            None => false,
        },
        Tm::Constr(_, fields) => free_in_list(fields, u),
        Tm::Field(record, _, _) => free_in(*record, u),
        Tm::Builtin(_, args) => free_in_list(args, u),
        Tm::Cast(_, _, _, arg) => free_in(*arg, u),
        Tm::Trace(message, body) => free_in(*message, u) || free_in(*body, u),
        Tm::Delay(b) => free_in(*b, u),
        Tm::Force(b) => free_in(*b, u),
    }
}

/// `u` is free in some term of `s`.
pub open spec fn free_in_list(s: Seq<Tm>, u: u32) -> bool
    decreases s,
{
    if s.len() == 0 {
        false
    } else {
        free_in_list(s.drop_last(), u) || free_in(s.last(), u)
    }
}

/// `u` is free in the body of some branch and not bound by its fields.
pub open spec fn free_in_branches(s: Seq<BranchTm>, u: u32) -> bool
    decreases s,
{
    if s.len() == 0 {
        false
    } else {
        free_in_branches(s.drop_last(), u) || (!binder_uniques(s.last().binders).contains(u)
            && free_in(s.last().body, u))
    }
}

/// `u` is free in the body of some group member and not one of its parameters.
pub open spec fn free_in_group(s: Seq<RecTm>, u: u32) -> bool
    decreases s,
{
    if s.len() == 0 {
        false
    } else {
        free_in_group(s.drop_last(), u) || (!binder_uniques(s.last().params).contains(u)
            && free_in(s.last().body, u))
    }
}

pub proof fn lemma_free_in_list(s: Seq<Tm>, u: u32)
    ensures
        free_in_list(s, u) <==> exists|i: int| 0 <= i < s.len() && free_in(#[trigger] s[i], u),
    decreases s.len(),
{
    if s.len() > 0 {
        lemma_free_in_list(s.drop_last(), u);
        if exists|i: int| 0 <= i < s.len() && free_in(#[trigger] s[i], u) {
            let i = choose|i: int| 0 <= i < s.len() && free_in(#[trigger] s[i], u);
            if i < s.len() - 1 {
                assert(s.drop_last()[i] == s[i]);
            }
        }
        if free_in_list(s.drop_last(), u) {
            let i = choose|i: int| 0 <= i < s.drop_last().len() && free_in(#[trigger] s.drop_last()[i], u);
            assert(s[i] == s.drop_last()[i]);
        }
    }
}

pub proof fn lemma_free_in_branches(s: Seq<BranchTm>, u: u32)
    ensures
        free_in_branches(s, u) <==> exists|i: int|
            0 <= i < s.len() && !binder_uniques(s[i].binders).contains(u) && free_in(#[trigger] s[i].body, u),
    decreases s.len(),
{
    if s.len() > 0 {
        lemma_free_in_branches(s.drop_last(), u);
        if exists|i: int| 0 <= i < s.len() && !binder_uniques(s[i].binders).contains(u) && free_in(#[trigger] s[i].body, u) {
            let i = choose|i: int| 0 <= i < s.len() && !binder_uniques(s[i].binders).contains(u) && free_in(#[trigger] s[i].body, u);
            if i < s.len() - 1 {
                assert(s.drop_last()[i] == s[i]);
            }
        }
        if free_in_branches(s.drop_last(), u) {
            let i = choose|i: int| 0 <= i < s.drop_last().len() && !binder_uniques(s.drop_last()[i].binders).contains(u) && free_in(#[trigger] s.drop_last()[i].body, u);
            assert(s[i] == s.drop_last()[i]);
        }
    }
}

pub proof fn lemma_free_in_group(s: Seq<RecTm>, u: u32)
    ensures
        free_in_group(s, u) <==> exists|i: int|
            0 <= i < s.len() && !binder_uniques(s[i].params).contains(u) && free_in(#[trigger] s[i].body, u),
    decreases s.len(),
{
    if s.len() > 0 {
        lemma_free_in_group(s.drop_last(), u);
        if exists|i: int| 0 <= i < s.len() && !binder_uniques(s[i].params).contains(u) && free_in(#[trigger] s[i].body, u) {
            let i = choose|i: int| 0 <= i < s.len() && !binder_uniques(s[i].params).contains(u) && free_in(#[trigger] s[i].body, u);
            if i < s.len() - 1 {
                assert(s.drop_last()[i] == s[i]);
            }
        }
        if free_in_group(s.drop_last(), u) {
            let i = choose|i: int| 0 <= i < s.drop_last().len() && !binder_uniques(s.drop_last()[i].params).contains(u) && free_in(#[trigger] s.drop_last()[i].body, u);
            assert(s[i] == s.drop_last()[i]);
        }
    }
}

/// The set of uniques free in `t`.
pub open spec fn free_set(t: Tm) -> Set<u32> {
    Set::new(|u: u32| free_in(t, u))
}

pub fn duplicate_bytes(b: &Vec<u8>) -> (r: Vec<u8>)
    ensures
        r@ == b@,
{
    let mut r: Vec<u8> = Vec::new();
    let mut i: usize = 0;
    while i < b.len()
        invariant
            i <= b.len(),
            r@ == b@.take(i as int),
        decreases b.len() - i,
    {
        r.push(b[i]);
        i += 1;
        assert(r@ =~= b@.take(i as int));
    }
    assert(b@.take(i as int) =~= b@);
    r
}

pub fn duplicate_u16s(b: &Vec<u16>) -> (r: Vec<u16>)
    ensures
        r@ == b@,
{
    let mut r: Vec<u16> = Vec::new();
    let mut i: usize = 0;
    while i < b.len()
        invariant
            i <= b.len(),
            r@ == b@.take(i as int),
        decreases b.len() - i,
    {
        r.push(b[i]);
        i += 1;
        assert(r@ =~= b@.take(i as int));
    }
    assert(b@.take(i as int) =~= b@);
    r
}

/// A copy of a sequence of binders.
pub fn duplicate_binders(b: &Vec<Binder>) -> (r: Vec<Binder>)
    ensures
        r@ == b@,
{
    let mut r: Vec<Binder> = Vec::new();
    let mut i: usize = 0;
    while i < b.len()
        invariant
            i <= b.len(),
            r@ == b@.take(i as int),
        decreases b.len() - i,
    {
        r.push(b[i].duplicate());
        i += 1;
        assert(r@ =~= b@.take(i as int));
    }
    assert(b@.take(i as int) =~= b@);
    r
}

impl Constant {
    pub fn duplicate(&self) -> (r: Constant)
        ensures
            r@ == self@,
    {
        match self {
            Constant::Integer(i) => Constant::Integer(*i),
            Constant::ByteString(b) => Constant::ByteString(duplicate_bytes(b)),
            Constant::Str(s) => Constant::Str(s.clone()),
            Constant::Bool(b) => Constant::Bool(*b),
            Constant::Unit => Constant::Unit,
        }
    }
}

impl Test {
    pub fn duplicate(&self) -> (r: Test)
        ensures
            r@ == self@,
    {
        match self {
            Test::Tag(t) => Test::Tag(*t),
            Test::True => Test::True,
            Test::False => Test::False,
            Test::Int(i) => Test::Int(*i),
            Test::Bytes(b) => Test::Bytes(duplicate_bytes(b)),
            Test::Nil => Test::Nil,
            Test::Cons => Test::Cons,
            Test::DataConstr => Test::DataConstr,
            Test::DataMap => Test::DataMap,
            Test::DataList => Test::DataList,
            Test::DataI => Test::DataI,
            Test::DataB => Test::DataB,
        }
    }
}

/// A copy of a sequence of terms.
pub fn duplicate_terms(items: &Vec<Core>) -> (r: Vec<Core>)
    ensures
        views(r@) == views(items@),
    decreases items,
{
    let mut r: Vec<Core> = Vec::new();
    let mut i: usize = 0;
    while i < items.len()
        invariant
            i <= items.len(),
            views(r@) == views(items@).take(i as int),
            r@.len() == i,
        decreases items.len() - i,
    {
        proof {
            assert(decreases_to!(*items => items[i as int]));
        }
        let c = items[i].duplicate();
        let ghost before = r@;
        r.push(c);
        i += 1;
        assert(views(r@) =~= views(items@).take(i as int)) by {
            assert(r@ == before.push(c));
            assert forall|k: int| 0 <= k < i implies #[trigger] views(r@)[k] == views(items@).take(i as int)[k] by {
                if k < i - 1 {
                    assert(views(before)[k] == views(items@).take(i - 1)[k]);
                }
            }
        }
    }
    assert(views(items@).take(i as int) =~= views(items@));
    r
}

pub fn duplicate_branches(items: &Vec<Branch>) -> (r: Vec<Branch>)
    ensures
        branch_views(r@) == branch_views(items@),
    decreases items,
{
    let mut r: Vec<Branch> = Vec::new();
    let mut i: usize = 0;
    while i < items.len()
        invariant
            i <= items.len(),
            branch_views(r@) == branch_views(items@).take(i as int),
            r@.len() == i,
        decreases items.len() - i,
    {
        proof {
            assert(decreases_to!(*items => items[i as int]));
            assert(decreases_to!(items[i as int] => items[i as int].body));
        }
        let b = &items[i];
        let c = Branch { test: b.test.duplicate(), binders: duplicate_binders(&b.binders), body: b.body.duplicate() };
        let ghost before = r@;
        r.push(c);
        i += 1;
        assert(branch_views(r@) =~= branch_views(items@).take(i as int)) by {
            assert(r@ == before.push(c));
            assert forall|k: int| 0 <= k < i implies #[trigger] branch_views(r@)[k] == branch_views(items@).take(i as int)[k] by {
                if k < i - 1 {
                    assert(branch_views(before)[k] == branch_views(items@).take(i - 1)[k]);
                }
            }
        }
    }
    assert(branch_views(items@).take(i as int) =~= branch_views(items@));
    r
}

pub fn duplicate_group(items: &Vec<RecBinder>) -> (r: Vec<RecBinder>)
    ensures
        group_views(r@) == group_views(items@),
    decreases items,
{
    let mut r: Vec<RecBinder> = Vec::new();
    let mut i: usize = 0;
    while i < items.len()
        invariant
            i <= items.len(),
            group_views(r@) == group_views(items@).take(i as int),
            r@.len() == i,
        decreases items.len() - i,
    {
        proof {
            assert(decreases_to!(*items => items[i as int]));
            assert(decreases_to!(items[i as int] => items[i as int].body));
        }
        let b = &items[i];
        let c = RecBinder {
            binder: b.binder.duplicate(),
            params: duplicate_binders(&b.params),
            static_params: duplicate_u16s(&b.static_params),
            body: b.body.duplicate(),
        };
        let ghost before = r@;
        r.push(c);
        i += 1;
        assert(group_views(r@) =~= group_views(items@).take(i as int)) by {
            assert(r@ == before.push(c));
            assert forall|k: int| 0 <= k < i implies #[trigger] group_views(r@)[k] == group_views(items@).take(i as int)[k] by {
                if k < i - 1 {
                    assert(group_views(before)[k] == group_views(items@).take(i - 1)[k]);
                }
            }
        }
    }
    assert(group_views(items@).take(i as int) =~= group_views(items@));
    r
}

impl Core {
    /// A copy of this term.
    pub fn duplicate(&self) -> (r: Core)
        ensures
            r@ == self@,
        decreases self,
    {
        proof {
            lemma_views(*self);
        }
        let r = match self {
            Core::Var(n) => Core::Var(n.duplicate()),
            Core::Lit(k) => Core::Lit(k.duplicate()),
            Core::Lam { params, body } => Core::Lam {
                params: duplicate_binders(params),
                body: Box::new(body.duplicate()),
            },
            Core::App { func, args } => {
                proof {
                    assert(decreases_to!(*self => (*self)->App_args));
                }
                Core::App { func: Box::new(func.duplicate()), args: duplicate_terms(args) }
            },
            Core::Let { binder, value, body } => Core::Let {
                binder: binder.duplicate(),
                value: Box::new(value.duplicate()),
                body: Box::new(body.duplicate()),
            },
            Core::LetRec { binders, body } => {
                proof {
                    assert(decreases_to!(*self => (*self)->LetRec_binders));
                }
                Core::LetRec { binders: duplicate_group(binders), body: Box::new(body.duplicate()) }
            },
            Core::Case { kind, scrutinee, branches, default } => {
                proof {
                    assert(decreases_to!(*self => (*self)->Case_branches));
                }
                let d = match default {
                    Some(d) => Some(Box::new(d.duplicate())),
                    None => None,
                };
                Core::Case {
                    kind: *kind,
                    scrutinee: Box::new(scrutinee.duplicate()),
                    branches: duplicate_branches(branches),
                    default: d,
                }
            },
            Core::Constr { tag, fields } => {
                proof {
                    assert(decreases_to!(*self => (*self)->Constr_fields));
                }
                Core::Constr { tag: *tag, fields: duplicate_terms(fields) }
            },
            Core::Field { record, index, arity } => Core::Field {
                record: Box::new(record.duplicate()),
                index: *index,
                arity: *arity,
            },
            Core::Builtin { function, args } => {
                proof {
                    assert(decreases_to!(*self => (*self)->Builtin_args));
                }
                Core::Builtin { function: *function, args: duplicate_terms(args) }
            },
            Core::Cast { cast, from, to, arg } => Core::Cast {
                cast: *cast,
                from: from.duplicate(),
                to: to.duplicate(),
                arg: Box::new(arg.duplicate()),
            },
            Core::Trace { message, body } => Core::Trace {
                message: Box::new(message.duplicate()),
                body: Box::new(body.duplicate()),
            },
            Core::Delay(b) => Core::Delay(Box::new(b.duplicate())),
            Core::Force(b) => Core::Force(Box::new(b.duplicate())),
            Core::Error => Core::Error,
        };
        proof {
            lemma_views(r);
        }
        r
    }
}

/// A source of fresh names. Each call hands out the next unique.
pub struct Builder {
    pub next: u32,
}

impl Builder {
    pub fn new(next: u32) -> (r: Builder)
        ensures
            r.next == next,
    {
        Builder { next }
    }

    /// A name with the given text and the next unique of the supply.
    pub fn fresh(&mut self, text: &str) -> (r: Name)
        requires
            old(self).next < u32::MAX,
        ensures
            r.unique == old(self).next,
            r.text@ == text@,
            final(self).next == old(self).next + 1,
    {
        let n = Name::new(text, self.next);
        self.next = self.next + 1;
        n
    }
}

} // verus!
