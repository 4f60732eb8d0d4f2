use lib::ir::{
    Binder, Branch, Builder, CaseKind, Constant, Core, DefaultFunction as F, Name, RecBinder, Test, Ty,
};
use lib::lower::{self, lower};
use lib::program::{self, assemble, assemble_core, free_variables, reachable, Module};
use lib::recursion::{self, rewrite, static_params};
use lib::uplc::{Term, UName};
use lib::strings::hoist_strings;

// ---------------------------------------------------------------------
// Building Core terms.

fn binder(b: &mut Builder, text: &str) -> Binder {
    Binder { name: b.fresh(text), ty: Ty::Int }
}

fn function(b: &mut Builder, text: &str) -> Binder {
    Binder { name: b.fresh(text), ty: Ty::Other(1) }
}

fn var(x: &Binder) -> Core {
    Core::Var(x.name.duplicate())
}

fn num(i: i128) -> Core {
    Core::Lit(Constant::Integer(i))
}

fn op(f: F, x: Core, y: Core) -> Core {
    Core::Builtin { function: f, args: vec![x, y] }
}

fn decrement(n: &Binder) -> Core {
    op(F::SubtractInteger, var(n), num(1))
}

fn app(f: Core, args: Vec<Core>) -> Core {
    Core::App { func: Box::new(f), args }
}

fn lam(params: Vec<Binder>, body: Core) -> Core {
    Core::Lam { params, body: Box::new(body) }
}

fn let_(x: &Binder, value: Core, body: Core) -> Core {
    Core::Let { binder: x.duplicate(), value: Box::new(value), body: Box::new(body) }
}

fn let_rec(binders: Vec<RecBinder>, body: Core) -> Core {
    Core::LetRec { binders, body: Box::new(body) }
}

fn branch(test: Test, binders: Vec<Binder>, body: Core) -> Branch {
    Branch { test, binders, body }
}

fn if_(c: Core, t: Core, e: Core) -> Core {
    Core::Case {
        kind: CaseKind::Bool,
        scrutinee: Box::new(c),
        branches: vec![branch(Test::True, vec![], t), branch(Test::False, vec![], e)],
        default: None,
    }
}

fn boolean(v: bool) -> Core {
    Core::Lit(Constant::Bool(v))
}

fn string(s: &str) -> Core {
    Core::Lit(Constant::Str(s.to_string()))
}

fn rec(f: &Binder, params: Vec<Binder>, body: Core) -> RecBinder {
    let statics = static_params(&f.name, &params, &body);
    RecBinder { binder: f.duplicate(), params, static_params: statics, body }
}

fn binders(bs: &[&Binder]) -> Vec<Binder> {
    bs.iter().map(|x| x.duplicate()).collect()
}

fn has_letrec(c: &Core) -> bool {
    match c {
        Core::Var(_) | Core::Lit(_) | Core::Error => false,
        Core::Lam { body, .. } => has_letrec(body),
        Core::App { func, args } => has_letrec(func) || args.iter().any(has_letrec),
        Core::Let { value, body, .. } => has_letrec(value) || has_letrec(body),
        Core::LetRec { .. } => true,
        Core::Case { scrutinee, branches, default, .. } => {
            has_letrec(scrutinee)
                || branches.iter().any(|b| has_letrec(&b.body))
                || default.as_ref().map_or(false, |d| has_letrec(d))
        }
        Core::Constr { fields, .. } => fields.iter().any(has_letrec),
        Core::Field { record, .. } => has_letrec(record),
        Core::Builtin { args, .. } => args.iter().any(has_letrec),
        Core::Cast { arg, .. } => has_letrec(arg),
        Core::Trace { message, body } => has_letrec(message) || has_letrec(body),
        Core::Delay(b) | Core::Force(b) => has_letrec(b),
    }
}

// ---------------------------------------------------------------------
// A small evaluator for the UPLC that lowering produces.

#[derive(Clone)]
enum Value<'a> {
    Int(i128),
    Bool(bool),
    Bytes(Vec<u8>),
    Str(String),
    Unit,
    Lam(usize, &'a Term, Env<'a>),
    Delay(&'a Term, Env<'a>),
    Builtin(F, usize, Vec<Value<'a>>),
    Constr(usize, Vec<Value<'a>>),
}

type Env<'a> = Vec<(usize, Value<'a>)>;

struct Machine {
    logs: Vec<String>,
    steps: usize,
}

impl Machine {
    fn eval<'a>(&mut self, t: &'a Term, env: &Env<'a>) -> Result<Value<'a>, String> {
        self.steps += 1;
        if self.steps > 1_000_000 {
            return Err("budget".to_string());
        }
        match t {
            Term::Var(n) => env
                .iter()
                .rev()
                .find(|(u, _)| *u == n.unique)
                .map(|(_, v)| v.clone())
                .ok_or_else(|| format!("free variable {}", n.unique)),
            Term::Lambda(n, b) => Ok(Value::Lam(n.unique, b, env.clone())),
            Term::Apply(f, a) => {
                let f = self.eval(f, env)?;
                let a = self.eval(a, env)?;
                self.apply(f, a)
            }
            Term::Delay(b) => Ok(Value::Delay(b, env.clone())),
            Term::Force(b) => match self.eval(b, env)? {
                Value::Delay(t, e) => self.eval(t, &e),
                Value::Builtin(f, forces, args) if forces < f.force_count() => {
                    Ok(Value::Builtin(f, forces + 1, args))
                }
                _ => Err("force of a non-delayed value".to_string()),
            },
            Term::Constant(c) => Ok(match c {
                Constant::Integer(i) => Value::Int(*i),
                Constant::ByteString(b) => Value::Bytes(b.clone()),
                Constant::Str(s) => Value::Str(s.clone()),
                Constant::Bool(b) => Value::Bool(*b),
                Constant::Unit => Value::Unit,
            }),
            Term::Builtin(f) => Ok(Value::Builtin(*f, 0, vec![])),
            Term::Error => Err("error".to_string()),
            Term::Constr(tag, fields) => {
                let mut values = vec![];
                for f in fields {
                    values.push(self.eval(f, env)?);
                }
                Ok(Value::Constr(*tag, values))
            }
            Term::Case(s, arms) => match self.eval(s, env)? {
                Value::Constr(tag, fields) => {
                    let arm = arms.get(tag).ok_or_else(|| "missing arm".to_string())?;
                    let mut r = self.eval(arm, env)?;
                    for f in fields {
                        r = self.apply(r, f)?;
                    }
                    Ok(r)
                }
                _ => Err("case of a non-constructor".to_string()),
            },
        }
    }

    fn apply<'a>(&mut self, f: Value<'a>, a: Value<'a>) -> Result<Value<'a>, String> {
        match f {
            Value::Lam(p, body, mut env) => {
                env.push((p, a));
                self.eval(body, &env)
            }
            Value::Builtin(f, forces, mut args) if forces == f.force_count() => {
                args.push(a);
                if args.len() == f.arity() {
                    self.builtin(f, args)
                } else {
                    Ok(Value::Builtin(f, forces, args))
                }
            }
            _ => Err("application of a non-function".to_string()),
        }
    }

    fn builtin<'a>(&mut self, f: F, args: Vec<Value<'a>>) -> Result<Value<'a>, String> {
        let mut it = args.into_iter();
        let a = it.next();
        let b = it.next();
        let c = it.next();
        match (f, a, b, c) {
            (F::AddInteger, Some(Value::Int(x)), Some(Value::Int(y)), _) => Ok(Value::Int(x + y)),
            (F::SubtractInteger, Some(Value::Int(x)), Some(Value::Int(y)), _) => Ok(Value::Int(x - y)),
            (F::MultiplyInteger, Some(Value::Int(x)), Some(Value::Int(y)), _) => Ok(Value::Int(x * y)),
            (F::EqualsInteger, Some(Value::Int(x)), Some(Value::Int(y)), _) => Ok(Value::Bool(x == y)),
            (F::LessThanInteger, Some(Value::Int(x)), Some(Value::Int(y)), _) => Ok(Value::Bool(x < y)),
            (F::EqualsByteString, Some(Value::Bytes(x)), Some(Value::Bytes(y)), _) => Ok(Value::Bool(x == y)),
            (F::AppendString, Some(Value::Str(x)), Some(Value::Str(y)), _) => Ok(Value::Str(x + &y)),
            (F::IfThenElse, Some(Value::Bool(c)), Some(t), Some(e)) => Ok(if c { t } else { e }),
            (F::Trace, Some(Value::Str(m)), Some(v), _) => {
                self.logs.push(m);
                Ok(v)
            }
            _ => Err("unsupported builtin call".to_string()),
        }
    }
}

fn show(v: &Value) -> String {
    match v {
        Value::Int(i) => format!("(con integer {})", i),
        Value::Bool(b) => format!("(con bool {})", if *b { "True" } else { "False" }),
        Value::Unit => "(con unit ())".to_string(),
        Value::Str(s) => format!("(con string {:?})", s),
        Value::Bytes(b) => format!("(con bytestring {:?})", b),
        Value::Constr(tag, _) => format!("(constr {})", tag),
        _ => "(lam)".to_string(),
    }
}

fn run(t: &Term) -> (Result<String, String>, Vec<String>) {
    let mut m = Machine { logs: vec![], steps: 0 };
    let r = m.eval(t, &vec![]).map(|v| show(&v));
    (r, m.logs)
}

/// Rewrite recursion with the given supply, lower, and evaluate.
fn eval(b: &mut Builder, core: &Core) -> String {
    let rewritten = rewrite(b, core).unwrap();
    assert!(!has_letrec(&rewritten));
    let term = lower(&rewritten).unwrap();
    run(&term).0.unwrap()
}

fn evaluate(core: &Core) -> (Result<String, String>, Vec<String>) {
    let term = lower(core).unwrap();
    run(&term)
}

fn free_uplc(t: &Term, bound: &mut Vec<usize>, out: &mut Vec<usize>) {
    match t {
        Term::Var(n) => {
            if !bound.contains(&n.unique) {
                out.push(n.unique);
            }
        }
        Term::Lambda(n, b) => {
            bound.push(n.unique);
            free_uplc(b, bound, out);
            bound.pop();
        }
        Term::Apply(f, a) => {
            free_uplc(f, bound, out);
            free_uplc(a, bound, out);
        }
        Term::Delay(b) | Term::Force(b) => free_uplc(b, bound, out),
        Term::Constr(_, fs) => fs.iter().for_each(|f| free_uplc(f, bound, out)),
        Term::Case(s, arms) => {
            free_uplc(s, bound, out);
            arms.iter().for_each(|a| free_uplc(a, bound, out));
        }
        Term::Constant(_) | Term::Builtin(_) | Term::Error => {}
    }
}

// ---------------------------------------------------------------------
// Recursion removal.

#[test]
fn tail_recursion() {
    let mut b = Builder::new(0);
    let f = function(&mut b, "sum");
    let acc = binder(&mut b, "acc");
    let n = binder(&mut b, "n");
    let body = if_(
        op(F::EqualsInteger, var(&n), num(0)),
        var(&acc),
        app(var(&f), vec![op(F::AddInteger, var(&acc), var(&n)), decrement(&n)]),
    );
    let program = let_rec(vec![rec(&f, binders(&[&acc, &n]), body)], app(var(&f), vec![num(0), num(10)]));
    assert_eq!(eval(&mut b, &program), "(con integer 55)");
}

#[test]
fn non_tail_factorial() {
    let mut b = Builder::new(0);
    let f = function(&mut b, "factorial");
    let n = binder(&mut b, "n");
    let body = if_(
        op(F::EqualsInteger, var(&n), num(0)),
        num(1),
        op(F::MultiplyInteger, var(&n), app(var(&f), vec![decrement(&n)])),
    );
    let program = let_rec(vec![rec(&f, binders(&[&n]), body)], app(var(&f), vec![num(6)]));
    assert_eq!(eval(&mut b, &program), "(con integer 720)");
}

#[test]
fn static_parameter_keeps_original_position() {
    let mut b = Builder::new(0);
    let f = function(&mut b, "count");
    let n = binder(&mut b, "n");
    let step = binder(&mut b, "step");
    let body = if_(
        op(F::EqualsInteger, var(&n), num(0)),
        num(0),
        op(F::AddInteger, var(&step), app(var(&f), vec![decrement(&n), var(&step)])),
    );
    assert_eq!(static_params(&f.name, &binders(&[&n, &step]), &body), vec![1]);
    let program = let_rec(vec![rec(&f, binders(&[&n, &step]), body)], app(var(&f), vec![num(3), num(7)]));
    assert_eq!(eval(&mut b, &program), "(con integer 21)");
}

#[test]
fn mutual_even_odd_and_three_cycle() {
    for size in [2usize, 3] {
        let mut b = Builder::new(0);
        let functions = (0..size).map(|_| function(&mut b, "cycle")).collect::<Vec<_>>();
        let mut group = vec![];
        for i in 0..size {
            let n = binder(&mut b, "n");
            let body = if_(
                op(F::EqualsInteger, var(&n), num(0)),
                num(i as i128),
                app(var(&functions[(i + 1) % size]), vec![decrement(&n)]),
            );
            group.push(rec(&functions[i], binders(&[&n]), body));
        }
        let program = let_rec(group, app(var(&functions[0]), vec![num(7)]));
        assert_eq!(eval(&mut b, &program), format!("(con integer {})", 7 % size));
    }
}

#[test]
fn captures_lexical_binding() {
    let mut b = Builder::new(0);
    let f = function(&mut b, "go");
    let n = binder(&mut b, "n");
    let captured = binder(&mut b, "captured");
    let body = if_(op(F::EqualsInteger, var(&n), num(0)), var(&captured), app(var(&f), vec![decrement(&n)]));
    let program = let_(
        &captured,
        num(42),
        let_rec(vec![rec(&f, binders(&[&n]), body)], app(var(&f), vec![num(3)])),
    );
    assert_eq!(eval(&mut b, &program), "(con integer 42)");
}

#[test]
fn first_class_recursive_function() {
    let mut b = Builder::new(0);
    let f = function(&mut b, "go");
    let n = binder(&mut b, "n");
    let alias = function(&mut b, "alias");
    let body = if_(
        op(F::EqualsInteger, var(&n), num(0)),
        num(12),
        let_(&alias, var(&f), app(var(&alias), vec![decrement(&n)])),
    );
    assert!(static_params(&f.name, &binders(&[&n]), &body).is_empty());
    let program = let_rec(vec![rec(&f, binders(&[&n]), body)], app(var(&f), vec![num(3)]));
    assert_eq!(eval(&mut b, &program), "(con integer 12)");
}

#[test]
fn rejects_recursive_value() {
    let mut b = Builder::new(0);
    let f = binder(&mut b, "value");
    let program = let_rec(vec![rec(&f, vec![], var(&f))], num(0));
    assert!(matches!(rewrite(&mut b, &program), Err(recursion::Error::RecursiveValue)));
}

#[test]
fn static_analysis_distinguishes_shadowed_names() {
    let mut b = Builder::new(0);
    let f = function(&mut b, "f");
    let x = binder(&mut b, "x");
    let shadow = Binder { name: b.fresh("x"), ty: Ty::Int };
    assert_eq!(static_params(&f.name, &binders(&[&x]), &app(var(&f), vec![var(&x)])), vec![0]);
    assert!(static_params(
        &f.name,
        &binders(&[&x]),
        &lam(binders(&[&shadow]), app(var(&f), vec![var(&shadow)]))
    )
    .is_empty());
    assert!(static_params(&f.name, &binders(&[&x]), &app(var(&f), vec![num(1)])).is_empty());
}

#[test]
fn fully_static_dead_call_stays_lazy() {
    let mut b = Builder::new(0);
    let f = function(&mut b, "loop");
    let x = binder(&mut b, "x");
    let body = if_(boolean(true), var(&x), app(var(&f), vec![var(&x)]));
    assert_eq!(static_params(&f.name, &binders(&[&x]), &body), vec![0]);
    let program = let_rec(vec![rec(&f, binders(&[&x]), body)], app(var(&f), vec![num(8)]));
    assert_eq!(eval(&mut b, &program), "(con integer 8)");
}

#[test]
fn stale_static_metadata_does_not_drop_changing_arguments() {
    let mut b = Builder::new(0);
    let f = function(&mut b, "loop");
    let n = binder(&mut b, "n");
    let body = if_(op(F::EqualsInteger, var(&n), num(0)), num(9), app(var(&f), vec![decrement(&n)]));
    let mut rb = rec(&f, binders(&[&n]), body);
    rb.static_params = vec![0];
    let program = let_rec(vec![rb], app(var(&f), vec![num(3)]));
    assert_eq!(eval(&mut b, &program), "(con integer 9)");
}

#[test]
fn separate_builder_name_supply_does_not_capture_inputs() {
    let mut b = Builder::new(0);
    let f = function(&mut b, "go");
    let n = binder(&mut b, "n");
    let captured = binder(&mut b, "self");
    let body = if_(op(F::EqualsInteger, var(&n), num(0)), var(&captured), app(var(&f), vec![decrement(&n)]));
    let program = let_(
        &captured,
        num(42),
        let_rec(vec![rec(&f, binders(&[&n]), body)], app(var(&f), vec![num(3)])),
    );
    assert_eq!(eval(&mut Builder::new(0), &program), "(con integer 42)");
}

#[test]
fn rewrite_rejects_repeated_group_binder() {
    let mut b = Builder::new(0);
    let f = function(&mut b, "f");
    let n = binder(&mut b, "n");
    let m = binder(&mut b, "m");
    let program = let_rec(
        vec![rec(&f, binders(&[&n]), var(&n)), rec(&f, binders(&[&m]), var(&m))],
        app(var(&f), vec![num(1)]),
    );
    assert!(matches!(rewrite(&mut b, &program), Err(recursion::Error::DuplicateBinder)));
}

#[test]
fn rewrite_keeps_programs_without_groups() {
    let mut b = Builder::new(0);
    let x = binder(&mut b, "x");
    let program = let_(&x, num(4), op(F::AddInteger, var(&x), num(1)));
    let before = b.next;
    let rewritten = rewrite(&mut b, &program).unwrap();
    assert!(!has_letrec(&rewritten));
    assert_eq!(format!("{:?}", rewritten), format!("{:?}", program));
    assert_eq!(b.next, before);
    assert_eq!(run(&lower(&rewritten).unwrap()).0.unwrap(), "(con integer 5)");
}

#[test]
fn rewrite_takes_fresh_names_from_the_supply() {
    let mut b = Builder::new(0);
    let f = function(&mut b, "go");
    let n = binder(&mut b, "n");
    let body = if_(op(F::EqualsInteger, var(&n), num(0)), num(1), app(var(&f), vec![decrement(&n)]));
    let program = let_rec(vec![rec(&f, binders(&[&n]), body)], app(var(&f), vec![num(2)]));
    let before = b.next;
    let rewritten = rewrite(&mut b, &program).unwrap();
    assert!(b.next > before);
    assert!(free_variables(&rewritten).is_empty());
}

// ---------------------------------------------------------------------
// Lowering.

#[test]
fn let_application_evaluates() {
    let mut b = Builder::new(0);
    let x = binder(&mut b, "x");
    let y = binder(&mut b, "y");
    let add = op(F::AddInteger, var(&x), var(&y));
    let core = let_(&x, num(1), app(lam(binders(&[&y]), add), vec![num(2)]));
    assert_eq!(evaluate(&core).0.unwrap(), "(con integer 3)");
}

#[test]
fn boolean_case_does_not_evaluate_unselected_failure() {
    let core = if_(boolean(true), num(42), Core::Error);
    assert_eq!(evaluate(&core).0.unwrap(), "(con integer 42)");
}

#[test]
fn trace_precedes_failure() {
    let core = Core::Trace { message: Box::new(string("before failure")), body: Box::new(Core::Error) };
    let (result, logs) = evaluate(&core);
    assert!(result.is_err());
    assert_eq!(logs, vec!["before failure".to_string()]);
}

#[test]
fn field_projection_and_tag_order_are_semantic() {
    let mut b = Builder::new(0);
    let x = Binder { name: b.fresh("x"), ty: Ty::Erased };
    let core = Core::Case {
        kind: CaseKind::Tag,
        scrutinee: Box::new(Core::Constr { tag: 1, fields: vec![num(17)] }),
        branches: vec![
            branch(Test::Tag(1), binders(&[&x]), var(&x)),
            branch(Test::Tag(0), vec![], Core::Error),
        ],
        default: None,
    };
    assert_eq!(evaluate(&core).0.unwrap(), "(con integer 17)");
    let field = Core::Field { record: Box::new(Core::Constr { tag: 0, fields: vec![num(1), num(2)] }), index: 1, arity: 2 };
    assert_eq!(evaluate(&field).0.unwrap(), "(con integer 2)");
}

#[test]
fn malformed_core_cases_are_rejected() {
    let malformed = Core::Field { record: Box::new(Core::Constr { tag: 0, fields: vec![] }), index: 1, arity: 1 };
    assert!(matches!(lower(&malformed), Err(lower::Error::InvalidField { .. })));
    let sparse = Core::Case {
        kind: CaseKind::Tag,
        scrutinee: Box::new(Core::Constr { tag: 2, fields: vec![] }),
        branches: vec![branch(Test::Tag(2), vec![], num(1))],
        default: None,
    };
    assert!(matches!(lower(&sparse), Err(lower::Error::InvalidCase(_))));
}

#[test]
fn lower_rejects_recursive_groups_and_casts() {
    let mut b = Builder::new(0);
    let f = function(&mut b, "f");
    let n = binder(&mut b, "n");
    let group = let_rec(vec![rec(&f, binders(&[&n]), var(&n))], num(0));
    assert!(matches!(lower(&group), Err(lower::Error::Unlowered(_))));
    let cast = Core::Cast { cast: lib::ir::CastKind { code: 0 }, from: Ty::Int, to: Ty::Data, arg: Box::new(num(1)) };
    assert!(matches!(lower(&cast), Err(lower::Error::Unlowered(_))));
}

#[test]
fn lower_rejects_overapplied_builtins() {
    let core = Core::Builtin { function: F::AddInteger, args: vec![num(1), num(2), num(3)] };
    assert!(matches!(lower(&core), Err(lower::Error::BuiltinArity)));
}

#[test]
fn lower_rejects_repeated_case_tests() {
    let core = Core::Case {
        kind: CaseKind::Int,
        scrutinee: Box::new(num(1)),
        branches: vec![branch(Test::Int(1), vec![], num(10)), branch(Test::Int(1), vec![], num(20))],
        default: Some(Box::new(num(0))),
    };
    assert!(matches!(lower(&core), Err(lower::Error::InvalidCase(_))));
}

#[test]
fn lower_names_variables_by_unique() {
    let mut b = Builder::new(5);
    let x = binder(&mut b, "x");
    match lower(&lam(binders(&[&x]), var(&x))).unwrap() {
        Term::Lambda(p, body) => {
            assert_eq!(p.unique, 5);
            assert!(matches!(*body, Term::Var(UName { unique: 5, .. })));
        }
        _ => panic!("expected a lambda"),
    }
}

#[test]
fn integer_case_tests_literals_in_order() {
    let core = Core::Case {
        kind: CaseKind::Int,
        scrutinee: Box::new(num(2)),
        branches: vec![branch(Test::Int(1), vec![], num(10)), branch(Test::Int(2), vec![], num(20))],
        default: Some(Box::new(num(0))),
    };
    assert_eq!(evaluate(&core).0.unwrap(), "(con integer 20)");
    let miss = Core::Case {
        kind: CaseKind::Int,
        scrutinee: Box::new(num(7)),
        branches: vec![branch(Test::Int(1), vec![], num(10)), branch(Test::Int(2), vec![], num(20))],
        default: Some(Box::new(num(0))),
    };
    assert_eq!(evaluate(&miss).0.unwrap(), "(con integer 0)");
}

#[test]
fn case_value_is_evaluated_once() {
    let core = Core::Case {
        kind: CaseKind::Bool,
        scrutinee: Box::new(Core::Trace { message: Box::new(string("scrutinee")), body: Box::new(boolean(false)) }),
        branches: vec![branch(Test::True, vec![], num(1)), branch(Test::False, vec![], num(2))],
        default: None,
    };
    let (result, logs) = evaluate(&core);
    assert_eq!(result.unwrap(), "(con integer 2)");
    assert_eq!(logs, vec!["scrutinee".to_string()]);
}

#[test]
fn lowered_closed_terms_stay_closed() {
    let mut b = Builder::new(0);
    let x = binder(&mut b, "x");
    let y = binder(&mut b, "y");
    let core = lam(
        binders(&[&x]),
        Core::Case {
            kind: CaseKind::Tag,
            scrutinee: Box::new(var(&x)),
            branches: vec![branch(Test::Tag(0), binders(&[&y]), var(&y))],
            default: None,
        },
    );
    let term = lower(&core).unwrap();
    let mut out = vec![];
    free_uplc(&term, &mut vec![], &mut out);
    assert!(out.is_empty());
}

// ---------------------------------------------------------------------
// Program assembly.

#[test]
fn assemble_lets_chain() {
    let mut b = Builder::new(0);
    let x = binder(&mut b, "x");
    let y = binder(&mut b, "y");
    let unused = binder(&mut b, "unused");
    let bindings = vec![
        (x.duplicate(), num(40)),
        (y.duplicate(), op(F::AddInteger, var(&x), num(2))),
        (unused.duplicate(), Core::Error),
    ];
    let compiled = assemble(Module { bindings, root: var(&y) }).unwrap();
    assert!(compiled.program.version.is_v1_1_0());
    assert_eq!(run(&compiled.named).0.unwrap(), "(con integer 42)");
}

#[test]
fn reachable_keeps_transitive_bindings_and_cycles() {
    let mut b = Builder::new(0);
    let x = binder(&mut b, "x");
    let y = binder(&mut b, "y");
    let dead = binder(&mut b, "dead");
    let bindings = vec![(x.duplicate(), num(1)), (y.duplicate(), var(&x)), (dead.duplicate(), Core::Error)];
    let kept = reachable(bindings, &var(&y));
    assert_eq!(kept.iter().map(|(binder, _)| binder.name.unique).collect::<Vec<_>>(), vec![x.name.unique, y.name.unique]);
    let cycle = vec![(x.duplicate(), var(&y)), (y.duplicate(), var(&x)), (dead.duplicate(), Core::Error)];
    assert_eq!(reachable(cycle, &var(&x)).len(), 2);
}

#[test]
fn lexical_binders_do_not_reach_shadowed_globals() {
    let mut b = Builder::new(0);
    let x = binder(&mut b, "x");
    let globals = || vec![(x.duplicate(), Core::Error)];
    assert!(reachable(globals(), &lam(binders(&[&x]), var(&x))).is_empty());
    let case = Core::Case {
        kind: CaseKind::Tag,
        scrutinee: Box::new(Core::Constr { tag: 0, fields: vec![num(1)] }),
        branches: vec![branch(Test::Tag(0), binders(&[&x]), var(&x))],
        default: None,
    };
    assert!(reachable(globals(), &case).is_empty());
    // A strict let's value is outside the new binder's scope.
    assert_eq!(reachable(globals(), &let_(&x, var(&x), var(&x))).len(), 1);
}

#[test]
fn recursive_scopes_bind_group_and_parameters() {
    let mut b = Builder::new(0);
    let f = function(&mut b, "f");
    let g = function(&mut b, "g");
    let n = binder(&mut b, "n");
    let outside = binder(&mut b, "outside");
    let group = || {
        let_rec(
            vec![
                RecBinder { binder: f.duplicate(), params: binders(&[&n]), static_params: vec![], body: app(var(&g), vec![var(&n)]) },
                RecBinder { binder: g.duplicate(), params: binders(&[&n]), static_params: vec![], body: var(&outside) },
            ],
            app(var(&f), vec![num(0)]),
        )
    };
    assert_eq!(free_variables(&group()).iter().map(|n| n.unique).collect::<Vec<_>>(), vec![outside.name.unique]);
    let compiled = assemble(Module { bindings: vec![(outside.duplicate(), num(9))], root: group() }).unwrap();
    assert_eq!(run(&compiled.named).0.unwrap(), "(con integer 9)");
}

#[test]
fn closedness_and_duplicate_bindings_are_reported() {
    let mut b = Builder::new(0);
    let x = binder(&mut b, "missing");
    assert!(matches!(assemble_core(var(&x)), Err(program::Error::NotClosed(n)) if n.unique == x.name.unique));
    let module = Module { bindings: vec![(x.duplicate(), num(1)), (x.duplicate(), num(2))], root: var(&x) };
    assert!(matches!(assemble(module), Err(program::Error::DuplicateBinding(n)) if n.unique == x.name.unique));
}

#[test]
fn free_variables_follow_first_occurrence() {
    let mut b = Builder::new(0);
    let x = binder(&mut b, "x");
    let y = binder(&mut b, "y");
    let z = binder(&mut b, "z");
    let core = app(var(&y), vec![var(&x), var(&y), lam(binders(&[&z]), op(F::AddInteger, var(&z), var(&x)))]);
    let names: Vec<Name> = free_variables(&core);
    assert_eq!(names.iter().map(|n| n.unique).collect::<Vec<_>>(), vec![y.name.unique, x.name.unique]);
}

#[test]
fn assemble_reports_recursion_and_lowering_errors() {
    let mut b = Builder::new(0);
    let f = binder(&mut b, "value");
    let bad_group = let_rec(vec![rec(&f, vec![], var(&f))], num(0));
    assert!(matches!(assemble_core(bad_group), Err(program::Error::Recursion(recursion::Error::RecursiveValue))));
    let bad_field = Core::Field { record: Box::new(Core::Constr { tag: 0, fields: vec![] }), index: 3, arity: 1 };
    assert!(matches!(assemble_core(bad_field), Err(program::Error::Lower(lower::Error::InvalidField { index: 3, arity: 1 }))));
}

#[test]
fn assembled_programs_are_closed() {
    let mut b = Builder::new(0);
    let f = function(&mut b, "go");
    let n = binder(&mut b, "n");
    let body = if_(op(F::EqualsInteger, var(&n), num(0)), num(3), app(var(&f), vec![decrement(&n)]));
    let root = let_rec(vec![rec(&f, binders(&[&n]), body)], app(var(&f), vec![num(4)]));
    let compiled = assemble_core(root).unwrap();
    let mut out = vec![];
    free_uplc(&compiled.named, &mut vec![], &mut out);
    assert!(out.is_empty());
    assert_eq!(run(&compiled.named).0.unwrap(), "(con integer 3)");
}

// ---------------------------------------------------------------------
// Shared strings.

fn trace(message: Core, body: Core) -> Core {
    Core::Trace { message: Box::new(message), body: Box::new(body) }
}

#[test]
fn repeated_strings_are_bound_once_in_first_occurrence_order() {
    let mut b = Builder::new(10);
    let core = trace(string("b"), trace(string("a"), trace(string("b"), num(7))));
    let hoisted = hoist_strings(&mut b, &core);
    assert_eq!(b.next, 12);
    let mut texts = vec![];
    let mut uniques = vec![];
    let mut inner = &hoisted;
    while let Core::Let { binder, value, body } = inner {
        match &**value {
            Core::Lit(Constant::Str(s)) => texts.push(s.clone()),
            _ => panic!("expected a string"),
        }
        assert_eq!(binder.name.text, "message");
        assert_eq!(binder.ty, Ty::Str);
        uniques.push(binder.name.unique);
        inner = body;
    }
    assert_eq!(texts, vec!["b".to_string(), "a".to_string()]);
    assert_eq!(uniques, vec![10, 11]);
    match inner {
        Core::Trace { message, body } => {
            assert!(matches!(&**message, Core::Var(n) if n.unique == 10));
            assert!(matches!(&**body, Core::Trace { message, .. } if matches!(&**message, Core::Var(n) if n.unique == 11)));
        }
        _ => panic!("expected a trace"),
    }
    let (result, logs) = evaluate(&hoisted);
    assert_eq!(result.unwrap(), "(con integer 7)");
    assert_eq!(logs, vec!["b".to_string(), "a".to_string(), "b".to_string()]);
}

#[test]
fn hoisting_without_strings_changes_nothing() {
    let mut b = Builder::new(3);
    let core = op(F::AddInteger, num(1), num(2));
    let hoisted = hoist_strings(&mut b, &core);
    assert_eq!(b.next, 3);
    assert!(matches!(hoisted, Core::Builtin { function: F::AddInteger, .. }));
}

#[test]
fn nested_group_faults_are_reported() {
    let mut b = Builder::new(0);
    let f = function(&mut b, "f");
    let g = binder(&mut b, "g");
    let n = binder(&mut b, "n");
    let inner = let_rec(vec![rec(&g, vec![], var(&g))], num(0));
    let outer = let_rec(vec![rec(&f, binders(&[&n]), inner)], app(var(&f), vec![num(1)]));
    assert!(matches!(rewrite(&mut b, &lam(vec![], outer)), Err(recursion::Error::RecursiveValue)));
}

#[test]
fn empty_groups_leave_their_body() {
    let mut b = Builder::new(0);
    let program = let_rec(vec![], num(5));
    let rewritten = rewrite(&mut b, &program).unwrap();
    assert!(matches!(rewritten, Core::Lit(Constant::Integer(5))));
}

#[test]
fn assembling_a_program_without_groups_is_lowering_it() {
    let mut b = Builder::new(0);
    let x = binder(&mut b, "x");
    let program = let_(&x, num(20), op(F::AddInteger, var(&x), num(22)));
    let lowered = lower(&program).unwrap();
    let assembled = assemble_core(program).unwrap();
    assert_eq!(format!("{:?}", assembled.named), format!("{:?}", lowered));
    assert_eq!(run(&assembled.named).0.unwrap(), "(con integer 42)");
}

#[test]
fn rewritten_groups_bind_their_members_by_let() {
    let mut b = Builder::new(0);
    let f = function(&mut b, "factorial");
    let n = binder(&mut b, "n");
    let body = if_(
        op(F::EqualsInteger, var(&n), num(0)),
        num(1),
        op(F::MultiplyInteger, var(&n), app(var(&f), vec![decrement(&n)])),
    );
    let program = let_rec(vec![rec(&f, binders(&[&n]), body)], app(var(&f), vec![num(6)]));
    match rewrite(&mut b, &program).unwrap() {
        Core::Let { binder, value, body } => {
            assert_eq!(binder.name.unique, f.name.unique);
            assert!(matches!(*value, Core::App { .. }));
            assert!(matches!(*body, Core::App { .. }));
        }
        other => panic!("expected a let, got {:?}", other),
    }
    let even = function(&mut b, "even");
    let odd = function(&mut b, "odd");
    let m = binder(&mut b, "m");
    let k = binder(&mut b, "k");
    let group = vec![
        rec(&even, binders(&[&m]), app(var(&odd), vec![var(&m)])),
        rec(&odd, binders(&[&k]), app(var(&even), vec![var(&k)])),
    ];
    let program = let_rec(group, app(var(&even), vec![num(0)]));
    match rewrite(&mut b, &program).unwrap() {
        Core::Let { value, body, .. } => {
            assert!(matches!(*value, Core::Lam { ref params, .. } if params.len() == 2));
            match *body {
                Core::Let { binder, body, .. } => {
                    assert_eq!(binder.name.unique, even.name.unique);
                    assert!(matches!(*body, Core::Let { ref binder, .. } if binder.name.unique == odd.name.unique));
                }
                other => panic!("expected a let, got {:?}", other),
            }
        }
        other => panic!("expected a let, got {:?}", other),
    }
}

#[test]
fn out_of_range_field_names_its_index_and_arity() {
    let malformed = Core::Field { record: Box::new(Core::Constr { tag: 0, fields: vec![] }), index: 1, arity: 1 };
    assert!(matches!(lower(&malformed), Err(lower::Error::InvalidField { index: 1, arity: 1 })));
}
