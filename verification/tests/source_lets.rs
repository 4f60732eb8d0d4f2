use lib::ir::{Binder, Branch, Builder, CaseKind, Constant, Core, DefaultFunction as F, Test, Ty};
use lib::source_lets::{carries_result, carry_result, contains_binding, lookup};
use std::collections::HashSet;

fn binder(b: &mut Builder, text: &str) -> Binder {
    Binder { name: b.fresh(text), ty: Ty::Int }
}

fn var(x: &Binder) -> Core {
    Core::Var(x.name.duplicate())
}

fn num(i: i128) -> Core {
    Core::Lit(Constant::Integer(i))
}

fn boolean(v: bool) -> Core {
    Core::Lit(Constant::Bool(v))
}

fn let_(x: &Binder, value: Core, body: Core) -> Core {
    Core::Let { binder: x.duplicate(), value: Box::new(value), body: Box::new(body) }
}

fn lam(params: Vec<Binder>, body: Core) -> Core {
    Core::Lam { params, body: Box::new(body) }
}

fn app(f: Core, args: Vec<Core>) -> Core {
    Core::App { func: Box::new(f), args }
}

fn bool_branches(t: Core, e: Core) -> Vec<Branch> {
    vec![
        Branch { test: Test::True, binders: vec![], body: t },
        Branch { test: Test::False, binders: vec![], body: e },
    ]
}

fn set(items: &[u32]) -> HashSet<u32> {
    items.iter().copied().collect()
}

#[test]
fn carriers_are_control_flow_that_ends_in_a_value() {
    let mut b = Builder::new(0);
    let x = binder(&mut b, "x");
    assert!(carries_result(&let_(&x, num(1), var(&x))));
    assert!(carries_result(&Core::Trace { message: Box::new(num(0)), body: Box::new(num(1)) }));
    assert!(carries_result(&app(lam(vec![x.duplicate()], var(&x)), vec![num(1)])));
    assert!(!carries_result(&app(var(&x), vec![num(1)])));
    assert!(!carries_result(&num(1)));
}

#[test]
fn registered_lets_are_found_at_any_depth() {
    let mut b = Builder::new(0);
    let x = binder(&mut b, "x");
    let y = binder(&mut b, "y");
    let inner = app(var(&y), vec![lam(vec![], let_(&x, num(1), var(&x)))]);
    assert!(contains_binding(&inner, &set(&[x.name.unique])));
    assert!(!contains_binding(&inner, &set(&[y.name.unique])));
    assert!(!contains_binding(&num(3), &set(&[x.name.unique])));
}

#[test]
fn boolean_literals_pick_their_branch() {
    let picked = carry_result(&boolean(false), &bool_branches(num(1), num(2)), &None);
    assert!(matches!(picked, Core::Lit(Constant::Integer(2))));
    let only_true = vec![Branch { test: Test::True, binders: vec![], body: num(1) }];
    let fallback = carry_result(&boolean(false), &only_true, &Some(Box::new(num(9))));
    assert!(matches!(fallback, Core::Lit(Constant::Integer(9))));
    let failure = carry_result(&boolean(false), &only_true, &None);
    assert!(matches!(failure, Core::Error));
}

#[test]
fn the_consumer_moves_through_lets_onto_the_final_value() {
    let mut b = Builder::new(0);
    let x = binder(&mut b, "x");
    let flag = binder(&mut b, "flag");
    let value = let_(&x, num(1), var(&flag));
    match carry_result(&value, &bool_branches(num(10), num(20)), &None) {
        Core::Let { binder, body, .. } => {
            assert_eq!(binder.name.unique, x.name.unique);
            match *body {
                Core::Case { kind: CaseKind::Bool, scrutinee, branches, default: None } => {
                    assert!(matches!(*scrutinee, Core::Var(ref n) if n.unique == flag.name.unique));
                    assert_eq!(branches.len(), 2);
                }
                _ => panic!("expected the case around the let body"),
            }
        }
        _ => panic!("expected the let to stay outside"),
    }
}

#[test]
fn uses_count_occurrences_outside_rebinding() {
    let mut b = Builder::new(0);
    let x = binder(&mut b, "x");
    let twice = Core::Builtin { function: F::AddInteger, args: vec![var(&x), var(&x)] };
    let u = lookup(&twice, &x.name, 0, 0, &HashSet::new());
    assert_eq!(u.count, 2);
    assert!(!u.delayed && !u.barrier);
    let shadowed = lam(vec![x.duplicate()], var(&x));
    assert_eq!(lookup(&shadowed, &x.name, 1, 0, &HashSet::new()).count, 0);
}

#[test]
fn uses_under_an_unapplied_lambda_are_delayed() {
    let mut b = Builder::new(0);
    let x = binder(&mut b, "x");
    let p = binder(&mut b, "p");
    let f = lam(vec![p.duplicate()], var(&x));
    let delayed = lookup(&f, &x.name, 0, 0, &HashSet::new());
    assert_eq!(delayed.count, 1);
    assert!(delayed.delayed);
    let applied = lookup(&app(f, vec![num(1)]), &x.name, 0, 0, &HashSet::new());
    assert!(!applied.delayed);
    let barred = lookup(&lam(vec![p.duplicate()], var(&x)), &x.name, 1, 0, &set(&[p.name.unique]));
    assert!(barred.barrier);
}

#[test]
fn uses_in_traces_and_unforced_delays_are_delayed() {
    let mut b = Builder::new(0);
    let x = binder(&mut b, "x");
    let traced = Core::Trace { message: Box::new(num(0)), body: Box::new(var(&x)) };
    assert!(lookup(&traced, &x.name, 0, 0, &HashSet::new()).delayed);
    let delay = Core::Delay(Box::new(var(&x)));
    assert!(lookup(&delay, &x.name, 0, 0, &HashSet::new()).delayed);
    assert!(!lookup(&Core::Force(Box::new(Core::Delay(Box::new(var(&x))))), &x.name, 0, 0, &HashSet::new()).delayed);
}

#[test]
fn a_refuting_case_does_not_delay_its_live_branch() {
    let mut b = Builder::new(0);
    let x = binder(&mut b, "x");
    let c = binder(&mut b, "c");
    let refuting = Core::Case {
        kind: CaseKind::Bool,
        scrutinee: Box::new(var(&c)),
        branches: bool_branches(var(&x), Core::Error),
        default: None,
    };
    assert!(!lookup(&refuting, &x.name, 0, 0, &HashSet::new()).delayed);
    let both = Core::Case {
        kind: CaseKind::Bool,
        scrutinee: Box::new(var(&c)),
        branches: bool_branches(var(&x), num(0)),
        default: None,
    };
    assert!(lookup(&both, &x.name, 0, 0, &HashSet::new()).delayed);
}
