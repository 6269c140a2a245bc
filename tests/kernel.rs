use minipi::ast;
use minipi::check::type_check_expr;
use minipi::eval::eval;
use minipi::resolve::convert_expr;
use minipi::scope::{get_index, Context};
use minipi::subst::{fits_in, subst};
use minipi::term::{CheckError, Expr, Ident, Item};

fn leaf(head: Ident) -> Expr {
    Expr { arrow_params: vec![], head, tail: vec![] }
}

fn app(head: Ident, tail: Vec<Expr>) -> Expr {
    Expr { arrow_params: vec![], head, tail }
}

#[test]
fn subst_with_no_replacements_is_identity() {
    let e = Expr {
        arrow_params: vec![leaf(Ident::Type), leaf(Ident::Local(0))],
        head: Ident::Local(3),
        tail: vec![app(Ident::Global(1), vec![leaf(Ident::Local(2))])],
    };
    let r = subst(&e, 3, &[], 3);
    assert!(r.same(&e));
}

#[test]
fn subst_splices_replacement_tail_and_renumbers() {
    // Local(0) [Local(1)] with Local(0) := Global(0) [Type], nothing else bound
    let base = app(Ident::Local(0), vec![leaf(Ident::Local(1))]);
    let arg = app(Ident::Global(0), vec![leaf(Ident::Type)]);
    let r = subst(&base, 0, &[arg], 0);
    let want = app(Ident::Global(0), vec![leaf(Ident::Type), leaf(Ident::Local(0))]);
    assert!(r.same(&want));
}

#[test]
fn subst_keeps_base_locals_and_shifts_deeper_ones() {
    let base = app(Ident::Local(0), vec![leaf(Ident::Local(3))]);
    let r = subst(&base, 1, &[leaf(Ident::Type)], 5);
    // Local(3) lies past base (1) and window (1): 3 - 2 + 5 = 6
    let want = app(Ident::Local(0), vec![leaf(Ident::Local(6))]);
    assert!(r.same(&want));
}

#[test]
fn subst_prepends_replacement_parameters() {
    let base = Expr { arrow_params: vec![leaf(Ident::Type)], head: Ident::Local(0), tail: vec![] };
    let arg = Expr { arrow_params: vec![leaf(Ident::Global(7))], head: Ident::Global(2), tail: vec![] };
    let r = subst(&base, 0, &[arg], 0);
    let want = Expr {
        arrow_params: vec![leaf(Ident::Global(7)), leaf(Ident::Type)],
        head: Ident::Global(2),
        tail: vec![],
    };
    assert!(r.same(&want));
}

fn identity_env() -> Vec<Item> {
    // id x = x, one parameter
    vec![Item { ty: leaf(Ident::Type), param_num: 1, def: leaf(Ident::Local(0)) }]
}

#[test]
fn eval_unfolds_full_application() {
    let globals = identity_env();
    let mut e = app(Ident::Global(0), vec![leaf(Ident::Type)]);
    eval(&globals, &mut e, 100).unwrap();
    assert!(e.same(&leaf(Ident::Type)));
}

#[test]
fn eval_keeps_extra_arguments() {
    let globals = identity_env();
    let mut e = app(Ident::Global(0), vec![leaf(Ident::Local(4)), leaf(Ident::Type)]);
    eval(&globals, &mut e, 100).unwrap();
    assert!(e.same(&app(Ident::Local(4), vec![leaf(Ident::Type)])));
}

#[test]
fn eval_leaves_under_application() {
    let globals = identity_env();
    let mut e = leaf(Ident::Global(0));
    eval(&globals, &mut e, 100).unwrap();
    assert!(e.same(&leaf(Ident::Global(0))));
}

#[test]
fn eval_chains_unfoldings_and_is_idempotent() {
    let globals = identity_env();
    let inner = app(Ident::Global(0), vec![leaf(Ident::Global(0))]);
    let mut e = app(Ident::Global(0), vec![inner, leaf(Ident::Local(1))]);
    eval(&globals, &mut e, 100).unwrap();
    // id (id id) x = id x = x
    assert!(e.same(&leaf(Ident::Local(1))));
    let mut again = e.duplicate();
    eval(&globals, &mut again, 100).unwrap();
    assert!(again.same(&e));
}

#[test]
fn eval_self_application_runs_out_of_fuel() {
    // w f = f f; w w never reaches a normal form
    let globals = vec![Item {
        ty: leaf(Ident::Type),
        param_num: 1,
        def: app(Ident::Local(0), vec![leaf(Ident::Local(0))]),
    }];
    let mut e = app(Ident::Global(0), vec![leaf(Ident::Global(0))]);
    assert!(matches!(eval(&globals, &mut e, 50), Err(CheckError::OutOfFuel)));
}

#[test]
fn eval_with_no_fuel_fails() {
    let mut e = leaf(Ident::Type);
    assert!(matches!(eval(&vec![], &mut e, 0), Err(CheckError::OutOfFuel)));
}

#[test]
fn universe_is_universe() {
    assert!(Expr::universe().is_universe());
    assert!(!leaf(Ident::Local(0)).is_universe());
    assert!(!app(Ident::Type, vec![leaf(Ident::Type)]).is_universe());
}

fn strings(xs: &[&str]) -> Vec<String> {
    xs.iter().map(|x| x.to_string()).collect()
}

#[test]
fn get_index_finds_last() {
    let names = strings(&["a", "b", "a"]);
    assert_eq!(get_index(&names, &"a".to_string()), Some(2));
    assert_eq!(get_index(&names, &"b".to_string()), Some(1));
    assert_eq!(get_index(&names, &"c".to_string()), None);
    assert_eq!(get_index(&[], &"c".to_string()), None);
}

#[test]
fn scope_round_trip() {
    let outer = strings(&["x", "y"]);
    let inner = strings(&["z", "x"]);
    let base = Context::new(&outer);
    let ctx = base.push(&inner);
    assert_eq!(ctx.size(), 4);
    let i = ctx.index_from_value(&"x".to_string()).unwrap();
    assert_eq!(i, 3);
    assert_eq!(ctx.value_from_index(i), "x");
    let j = ctx.index_from_value(&"y".to_string()).unwrap();
    assert_eq!(ctx.value_from_index(j), "y");
    assert_eq!(ctx.index_from_value(&"w".to_string()), None);
}

#[test]
fn shadow_frame_index_lookups() {
    let outer = strings(&["a", "b", "c"]);
    let inner = strings(&["d"]);
    let base = Context::new(&outer);
    let ctx = base.push_shadowed(&inner, 2);
    assert_eq!(ctx.size(), 3);
    assert_eq!(ctx.value_from_index(0), "a");
    assert_eq!(ctx.value_from_index(1), "b");
    assert_eq!(ctx.value_from_index(2), "d");
}

#[test]
fn check_unbound_local() {
    let none: Vec<Expr> = vec![];
    let r = type_check_expr(&vec![], &Context::new(&none), &leaf(Ident::Local(0)), Expr::universe(), 10);
    assert!(matches!(r, Err(CheckError::UnboundLocal(0))));
}

#[test]
fn check_unknown_global() {
    let none: Vec<Expr> = vec![];
    let r = type_check_expr(&vec![], &Context::new(&none), &leaf(Ident::Global(3)), Expr::universe(), 10);
    assert!(matches!(r, Err(CheckError::UnknownGlobal(3))));
}

#[test]
fn check_index_overflow() {
    let types = vec![leaf(Ident::Local(usize::MAX))];
    let r = type_check_expr(&vec![], &Context::new(&types), &leaf(Ident::Local(0)), Expr::universe(), 10);
    assert!(matches!(r, Err(CheckError::IndexOverflow)));
}

#[test]
fn check_local_against_its_type() {
    let types = vec![leaf(Ident::Type), leaf(Ident::Local(0))];
    let ok = type_check_expr(&vec![], &Context::new(&types), &leaf(Ident::Local(1)), leaf(Ident::Local(0)), 10);
    assert!(ok.is_ok());
    let bad = type_check_expr(&vec![], &Context::new(&types), &leaf(Ident::Local(0)), leaf(Ident::Local(0)), 10);
    assert!(matches!(bad, Err(CheckError::Mismatch { .. })));
}

#[test]
fn fits_in_detects_overflow() {
    assert!(fits_in(&leaf(Ident::Local(5)), 0, 0, 10));
    assert!(!fits_in(&leaf(Ident::Local(usize::MAX)), 0, 0, 1));
    assert!(fits_in(&leaf(Ident::Local(usize::MAX)), 0, 1, 1));
}

fn sv(name: &str) -> ast::Expr {
    ast::Expr::Alg(ast::AlgExpr { head: name.to_string(), tail: vec![] })
}

#[test]
fn resolve_dependent_arrow() {
    // (A: Type) -> (_: A) -> A
    let e = ast::Expr::Arrow(ast::ArrowExpr {
        params: vec![(Some("A".to_string()), sv("Type")), (None, sv("A"))],
        output: Box::new(sv("A")),
    });
    let globals: Vec<String> = vec![];
    let none: Vec<String> = vec![];
    let r = convert_expr(&globals, &Context::new(&none), &e).unwrap();
    let want = Expr {
        arrow_params: vec![leaf(Ident::Type), leaf(Ident::Local(0))],
        head: Ident::Local(0),
        tail: vec![],
    };
    assert!(r.same(&want));
}

#[test]
fn resolve_prefers_local_then_global_then_universe() {
    let globals = vec!["f".to_string(), "Type".to_string(), "f".to_string()];
    let locals = vec!["x".to_string(), "f".to_string()];
    let ctx = Context::new(&locals);
    let e = ast::Expr::Alg(ast::AlgExpr { head: "f".to_string(), tail: vec![sv("Type"), sv("x")] });
    let r = convert_expr(&globals, &ctx, &e).unwrap();
    let want = app(Ident::Local(1), vec![leaf(Ident::Global(1)), leaf(Ident::Local(0))]);
    assert!(r.same(&want));
    let none: Vec<String> = vec![];
    let g = convert_expr(&globals, &Context::new(&none), &sv("f")).unwrap();
    assert!(g.same(&leaf(Ident::Global(2))));
    let u = convert_expr(&vec![], &Context::new(&none), &sv("Type")).unwrap();
    assert!(u.is_universe());
}

#[test]
fn resolve_reports_first_unresolved_name() {
    let none: Vec<String> = vec![];
    let e = ast::Expr::Alg(ast::AlgExpr { head: "Type".to_string(), tail: vec![sv("p"), sv("q")] });
    match convert_expr(&vec![], &Context::new(&none), &e) {
        Err(CheckError::Unresolved(n)) => assert_eq!(n, "p"),
        other => panic!("unexpected {:?}", other),
    }
}
