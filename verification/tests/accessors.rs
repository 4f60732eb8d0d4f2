use lib::accessors::share;
use lib::program::free_variables;
use lib::ir::{Binder, Branch, Builder, CaseKind, Constant, Core, DefaultFunction as F, Test, Ty, TyList};

fn binder(b: &mut Builder, text: &str, ty: Ty) -> Binder {
    Binder { name: b.fresh(text), ty }
}

fn var(x: &Binder) -> Core {
    Core::Var(x.name.duplicate())
}

fn num(i: i128) -> Core {
    Core::Lit(Constant::Integer(i))
}

fn builtin(function: F, args: Vec<Core>) -> Core {
    Core::Builtin { function, args }
}

fn data_list() -> Ty {
    Ty::List(Box::new(Ty::Data))
}

fn count(core: &Core, needle: &str) -> usize {
    format!("{:?}", core).matches(needle).count()
}

#[test]
fn repeated_head_reads_share_one_binding() {
    let mut b = Builder::new(0);
    let xs = binder(&mut b, "xs", data_list());
    let body = builtin(F::AddInteger, vec![
        builtin(F::HeadList, vec![var(&xs)]),
        builtin(F::HeadList, vec![var(&xs)]),
    ]);
    let core = Core::Lam { params: vec![xs.duplicate()], body: Box::new(body) };
    let shared = share(&mut b, &core);
    assert_eq!(count(&shared, "HeadList"), 1);
    match shared {
        Core::Lam { body, .. } => match *body {
            Core::Let { binder, value, body } => {
                assert_eq!(binder.name.text, "projection");
                assert_eq!(binder.ty, Ty::Data);
                assert!(matches!(*value, Core::Builtin { function: F::HeadList, .. }));
                match *body {
                    Core::Builtin { function: F::AddInteger, args } => {
                        for arg in &args {
                            match arg {
                                Core::Var(n) => assert_eq!(n.unique, binder.name.unique),
                                other => panic!("expected the shared binder, got {:?}", other),
                            }
                        }
                    }
                    other => panic!("unexpected body {:?}", other),
                }
            }
            other => panic!("expected a let, got {:?}", other),
        },
        other => panic!("expected a lambda, got {:?}", other),
    }
}

#[test]
fn delayed_decoding_stays_inside_the_delay() {
    let mut b = Builder::new(0);
    let xs = binder(&mut b, "xs", data_list());
    let core = Core::Lam {
        params: vec![xs.duplicate()],
        body: Box::new(Core::Delay(Box::new(builtin(F::HeadList, vec![var(&xs)])))),
    };
    let shared = share(&mut b, &core);
    match shared {
        Core::Lam { body, .. } => match *body {
            Core::Delay(inner) => assert!(matches!(*inner, Core::Let { .. })),
            other => panic!("decoding left the delay: {:?}", other),
        },
        other => panic!("expected a lambda, got {:?}", other),
    }
}

#[test]
fn unselected_branch_decoding_stays_in_its_branch() {
    let mut b = Builder::new(0);
    let xs = binder(&mut b, "xs", data_list());
    let flag = binder(&mut b, "flag", Ty::Bool);
    let core = Core::Case {
        kind: CaseKind::Bool,
        scrutinee: Box::new(var(&flag)),
        branches: vec![
            Branch { test: Test::True, binders: vec![], body: builtin(F::HeadList, vec![var(&xs)]) },
            Branch { test: Test::False, binders: vec![], body: num(0) },
        ],
        default: None,
    };
    let shared = share(&mut b, &core);
    match shared {
        Core::Case { branches, .. } => {
            assert!(matches!(branches[0].body, Core::Let { .. }));
            assert!(matches!(branches[1].body, Core::Lit(Constant::Integer(0))));
        }
        other => panic!("decoding left the branch: {:?}", other),
    }
}

#[test]
fn trace_message_runs_before_body_decoding() {
    let mut b = Builder::new(0);
    let xs = binder(&mut b, "xs", data_list());
    let core = Core::Trace {
        message: Box::new(Core::Lit(Constant::Str("before".to_string()))),
        body: Box::new(builtin(F::HeadList, vec![var(&xs)])),
    };
    let shared = share(&mut b, &core);
    match shared {
        Core::Trace { message, body } => {
            assert!(matches!(*message, Core::Lit(Constant::Str(_))));
            assert!(matches!(*body, Core::Let { .. }));
        }
        other => panic!("the trace moved: {:?}", other),
    }
}

#[test]
fn cons_branch_binders_replace_head_and_tail_reads() {
    let mut b = Builder::new(0);
    let xs = binder(&mut b, "xs", data_list());
    let h = binder(&mut b, "h", Ty::Data);
    let t = binder(&mut b, "t", data_list());
    let body = builtin(F::ListData, vec![builtin(F::TailList, vec![var(&xs)])]);
    let core = Core::Case {
        kind: CaseKind::List,
        scrutinee: Box::new(var(&xs)),
        branches: vec![Branch { test: Test::Cons, binders: vec![h.duplicate(), t.duplicate()], body }],
        default: Some(Box::new(Core::Error)),
    };
    let shared = share(&mut b, &core);
    assert_eq!(count(&shared, "TailList"), 0);
    match shared {
        Core::Case { branches, .. } => match &branches[0].body {
            Core::Builtin { function: F::ListData, args } => match &args[0] {
                Core::Var(n) => assert_eq!(n.unique, t.name.unique),
                other => panic!("expected the tail binder, got {:?}", other),
            },
            other => panic!("unexpected branch body {:?}", other),
        },
        other => panic!("expected a case, got {:?}", other),
    }
}

#[test]
fn a_read_head_turns_a_single_drop_into_tail_list() {
    let mut b = Builder::new(0);
    let xs = binder(&mut b, "xs", data_list());
    let core = Core::Constr {
        tag: 0,
        fields: vec![
            builtin(F::HeadList, vec![var(&xs)]),
            builtin(F::DropList, vec![num(1), var(&xs)]),
        ],
    };
    let shared = share(&mut b, &core);
    assert_eq!(count(&shared, "DropList"), 0);
    assert_eq!(count(&shared, "TailList"), 1);
}

#[test]
fn consecutive_drops_reuse_the_previous_tail() {
    let mut b = Builder::new(0);
    let xs = binder(&mut b, "xs", data_list());
    let core = Core::Constr {
        tag: 0,
        fields: vec![
            builtin(F::DropList, vec![num(2), var(&xs)]),
            builtin(F::DropList, vec![num(3), var(&xs)]),
        ],
    };
    let shared = share(&mut b, &core);
    let text = format!("{:?}", shared);
    assert!(text.contains("Integer(2)"));
    assert!(text.contains("Integer(1)"));
    assert!(!text.contains("Integer(3)"));
    assert_eq!(count(&shared, "DropList"), 2);
    assert_eq!(count(&shared, "TailList"), 0);
}

#[test]
fn field_reads_of_a_record_are_shared_and_typed() {
    let mut b = Builder::new(0);
    let fields = TyList::Cons(Box::new(Ty::Int), Box::new(TyList::Cons(Box::new(Ty::Bytes), Box::new(TyList::Nil))));
    let r = binder(&mut b, "r", Ty::Record(fields));
    let read = || Core::Field { record: Box::new(var(&r)), index: 1, arity: 2 };
    let core = Core::Lam {
        params: vec![r.duplicate()],
        body: Box::new(Core::Constr { tag: 0, fields: vec![read(), read()] }),
    };
    let shared = share(&mut b, &core);
    assert_eq!(count(&shared, "Field {"), 1);
    match shared {
        Core::Lam { body, .. } => match *body {
            Core::Let { binder, .. } => assert_eq!(binder.ty, Ty::Bytes),
            other => panic!("expected a let, got {:?}", other),
        },
        other => panic!("expected a lambda, got {:?}", other),
    }
}

#[test]
fn earlier_effects_are_bound_before_a_hoisted_read() {
    let mut b = Builder::new(0);
    let f = binder(&mut b, "f", Ty::Erased);
    let xs = binder(&mut b, "xs", data_list());
    let effect = Core::App { func: Box::new(var(&f)), args: vec![num(1)] };
    let core = Core::Constr { tag: 0, fields: vec![effect, builtin(F::HeadList, vec![var(&xs)])] };
    let shared = share(&mut b, &core);
    match shared {
        Core::Let { binder, value, body } => {
            assert_eq!(binder.name.text, "evaluated");
            assert!(matches!(*value, Core::App { .. }));
            assert!(matches!(*body, Core::Let { .. }));
        }
        other => panic!("expected the effect bound first, got {:?}", other),
    }
}

#[test]
fn terms_without_projections_keep_their_shape() {
    let mut b = Builder::new(0);
    let x = binder(&mut b, "x", Ty::Int);
    let core = Core::Lam {
        params: vec![x.duplicate()],
        body: Box::new(builtin(F::AddInteger, vec![var(&x), num(1)])),
    };
    let before = b.next;
    let shared = share(&mut b, &core);
    assert_eq!(format!("{:?}", shared), format!("{:?}", core));
    assert_eq!(b.next, before);
}

#[test]
fn saturated_builtin_application_becomes_a_builtin_node() {
    let mut b = Builder::new(0);
    let core = Core::App {
        func: Box::new(builtin(F::AddInteger, vec![])),
        args: vec![num(1), num(2)],
    };
    let shared = share(&mut b, &core);
    assert!(matches!(shared, Core::Builtin { function: F::AddInteger, ref args } if args.len() == 2));
}

#[test]
fn sharing_keeps_the_free_names_of_the_input() {
    let mut b = Builder::new(0);
    let xs = binder(&mut b, "xs", data_list());
    let f = binder(&mut b, "f", Ty::Erased);
    let y = binder(&mut b, "y", Ty::Data);
    let body = Core::Constr {
        tag: 0,
        fields: vec![
            Core::App { func: Box::new(var(&f)), args: vec![builtin(F::HeadList, vec![var(&xs)])] },
            builtin(F::HeadList, vec![var(&xs)]),
            builtin(F::DropList, vec![num(2), var(&xs)]),
            Core::Let { binder: y.duplicate(), value: Box::new(builtin(F::HeadList, vec![var(&xs)])), body: Box::new(var(&y)) },
        ],
    };
    let shared = share(&mut b, &body);
    let before: Vec<u32> = free_variables(&body).iter().map(|n| n.unique).collect();
    let after: Vec<u32> = free_variables(&shared).iter().map(|n| n.unique).collect();
    for name in &after {
        assert!(before.contains(name), "sharing freed name {}", name);
    }
    assert_eq!(count(&shared, "HeadList"), 1);
}
