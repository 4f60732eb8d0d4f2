use lib::emission::{components, names, Engine, Error, Group, InstanceBody};
use lib::ir::{Binder, Branch, Builder, CaseKind, Constant, Core, DefaultFunction as F, Test, Ty};
use lib::program::{assemble_core, free_variables};

fn binder(b: &mut Builder, text: &str) -> Binder {
    Binder { name: b.fresh(text), ty: Ty::Int }
}

fn var(x: &Binder) -> Core {
    Core::Var(x.name.duplicate())
}

fn num(i: i128) -> Core {
    Core::Lit(Constant::Integer(i))
}

fn op(f: F, x: Core, y: Core) -> Core {
    Core::Builtin { function: f, args: vec![x, y] }
}

fn app(f: Core, args: Vec<Core>) -> Core {
    Core::App { func: Box::new(f), args }
}

fn lam(params: Vec<Binder>, body: Core) -> Core {
    Core::Lam { params, body: Box::new(body) }
}

fn if_(c: Core, t: Core, e: Core) -> Core {
    Core::Case {
        kind: CaseKind::Bool,
        scrutinee: Box::new(c),
        branches: vec![
            Branch { test: Test::True, binders: vec![], body: t },
            Branch { test: Test::False, binders: vec![], body: e },
        ],
        default: None,
    }
}

fn spec(x: &Binder, value: Option<Core>) -> InstanceBody {
    InstanceBody { binder: x.duplicate(), value }
}

fn engine(specs: Vec<InstanceBody>) -> Engine {
    let all = (0..specs.len()).collect();
    Engine { groups: vec![Group { specs: all, cursor: 0 }], specs }
}

/// The binders of the outer `let` chain and recursive groups, outermost first.
fn outer_binders(c: &Core) -> Vec<Vec<u32>> {
    match c {
        Core::Let { binder, body, .. } => {
            let mut r = vec![vec![binder.name.unique]];
            r.extend(outer_binders(body));
            r
        }
        Core::LetRec { binders, body } => {
            let mut r = vec![binders.iter().map(|rb| rb.binder.name.unique).collect()];
            r.extend(outer_binders(body));
            r
        }
        _ => vec![],
    }
}

#[test]
fn components_come_in_dependency_order() {
    // 0 uses 1, 2 uses 0, 3 and 4 use each other.
    let edges = vec![vec![1], vec![], vec![0], vec![4], vec![3]];
    assert_eq!(components(&edges), vec![vec![1], vec![0], vec![2], vec![3, 4]]);
    assert_eq!(components(&vec![vec![0]]), vec![vec![0]]);
    assert!(components(&vec![]).is_empty());
}

#[test]
fn names_skip_bound_variables() {
    let mut b = Builder::new(0);
    let x = binder(&mut b, "x");
    let y = binder(&mut b, "y");
    let core = app(var(&y), vec![lam(vec![x.duplicate()], var(&x))]);
    let found = names(&core);
    assert!(found.contains(&y.name.unique));
    assert!(!found.contains(&x.name.unique));
    assert_eq!(found.len(), 1);
}

#[test]
fn emit_group_orders_definitions_by_dependency() {
    let mut b = Builder::new(0);
    let x = binder(&mut b, "x");
    let y = binder(&mut b, "y");
    // y is requested first but depends on x.
    let e = engine(vec![spec(&y, Some(op(F::AddInteger, var(&x), num(2)))), spec(&x, Some(num(40)))]);
    let r = e.emit_group(0, var(&y), false).ok().unwrap();
    assert_eq!(outer_binders(&r), vec![vec![x.name.unique], vec![y.name.unique]]);
    assert!(free_variables(&r).is_empty());
}

#[test]
fn emit_group_reachable_only_drops_unused_specializations() {
    let mut b = Builder::new(0);
    let x = binder(&mut b, "x");
    let dead = binder(&mut b, "dead");
    let e = engine(vec![spec(&x, Some(num(1))), spec(&dead, Some(num(2)))]);
    let kept = e.emit_group(0, var(&x), true).ok().unwrap();
    assert_eq!(outer_binders(&kept), vec![vec![x.name.unique]]);
    let all = e.emit_group(0, var(&x), false).ok().unwrap();
    assert_eq!(outer_binders(&all).len(), 2);
}

#[test]
fn emit_group_reports_specializations_still_compiling() {
    let mut b = Builder::new(0);
    let x = binder(&mut b, "x");
    let e = engine(vec![spec(&x, None)]);
    assert!(matches!(e.emit_group(0, var(&x), true), Err(Error::ComptimeAssembly(_))));
    assert!(matches!(e.emit_group(0, num(0), false), Err(Error::ComptimeAssembly(_))));
    // Unreachable and still compiling: nothing to emit.
    assert!(e.emit_group(0, num(0), true).is_ok());
}

#[test]
fn recursive_specializations_become_a_group() {
    let mut b = Builder::new(0);
    let f = binder(&mut b, "count");
    let n = binder(&mut b, "n");
    let body = if_(
        op(F::EqualsInteger, var(&n), num(0)),
        num(0),
        op(F::AddInteger, num(1), app(var(&f), vec![op(F::SubtractInteger, var(&n), num(1))])),
    );
    let e = engine(vec![spec(&f, Some(lam(vec![n.duplicate()], body)))]);
    let r = e.emit_group(0, app(var(&f), vec![num(3)]), true).ok().unwrap();
    assert!(matches!(r, Core::LetRec { .. }));
    assert_eq!(outer_binders(&r), vec![vec![f.name.unique]]);
    assert!(assemble_core(r).is_ok());
}

#[test]
fn recursive_let_values_are_hoisted_before_the_group() {
    let mut b = Builder::new(0);
    let f = binder(&mut b, "f");
    let k = binder(&mut b, "k");
    let n = binder(&mut b, "n");
    // f = let k = 5 in \n. f n : the constant is bound once, outside the group.
    let value = Core::Let {
        binder: k.duplicate(),
        value: Box::new(num(5)),
        body: Box::new(lam(vec![n.duplicate()], app(var(&f), vec![var(&k)]))),
    };
    let e = engine(vec![spec(&f, Some(value))]);
    let r = e.emit_group(0, var(&f), true).ok().unwrap();
    assert_eq!(outer_binders(&r), vec![vec![k.name.unique], vec![f.name.unique]]);
}

#[test]
fn recursive_non_function_values_are_rejected() {
    let mut b = Builder::new(0);
    let f = binder(&mut b, "f");
    let v = binder(&mut b, "v");
    let n = binder(&mut b, "n");
    // f = let v = f in \n. v : the value needs f before f exists.
    let value = Core::Let {
        binder: v.duplicate(),
        value: Box::new(var(&f)),
        body: Box::new(lam(vec![n.duplicate()], var(&v))),
    };
    let e = engine(vec![spec(&f, Some(value))]);
    assert!(matches!(e.emit_group(0, var(&f), true), Err(Error::RecursiveValue)));
}

#[test]
fn closed_dependencies_bind_every_needed_specialization() {
    let mut b = Builder::new(0);
    let x = binder(&mut b, "x");
    let y = binder(&mut b, "y");
    let other = binder(&mut b, "other");
    let mut e = Engine {
        groups: vec![
            Group { specs: vec![0], cursor: 1 },
            Group { specs: vec![1, 2], cursor: 2 },
        ],
        specs: vec![spec(&x, Some(num(1))), spec(&y, Some(var(&x))), spec(&other, Some(num(3)))],
    };
    let r = e.closed_dependencies(var(&y)).ok().unwrap();
    assert!(free_variables(&r).is_empty());
    assert_eq!(outer_binders(&r), vec![vec![x.name.unique], vec![y.name.unique]]);
    assert_eq!(e.specs.len(), 3);
    assert_eq!(e.groups.len(), 2);
}

#[test]
fn cycles_are_not_split_across_components() {
    // 0 -> 1 -> 2 -> 0 is a cycle; 3 depends on it; 4 depends on itself.
    let edges = vec![vec![1], vec![2], vec![0], vec![2], vec![4, 3]];
    let comps = components(&edges);
    let position = |v: usize| comps.iter().position(|c| c.contains(&v)).unwrap();
    assert_eq!(position(0), position(1));
    assert_eq!(position(1), position(2));
    assert_ne!(position(3), position(0));
    assert!(position(0) < position(3));
    assert!(position(3) < position(4));
    assert_eq!(comps.iter().map(|c| c.len()).sum::<usize>(), 5);
}
