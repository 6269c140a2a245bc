use minipi::ast::{AlgExpr, Annotation, ArrowExpr, Definition, Expr, Item};
use minipi::check::{type_check_all, type_check_program};
use minipi::term::CheckError;

fn alg(head: &str, tail: Vec<Expr>) -> Expr {
    Expr::Alg(AlgExpr { head: head.to_string(), tail })
}

fn var(name: &str) -> Expr {
    alg(name, vec![])
}

fn arrow(params: Vec<(&str, Expr)>, output: Expr) -> Expr {
    Expr::Arrow(ArrowExpr {
        params: params.into_iter().map(|(n, t)| (Some(n.to_string()), t)).collect(),
        output: Box::new(output),
    })
}

fn decl(name: &str, typ: Expr, vars: &[&str], body: Expr) -> Item {
    Item {
        annotation: Some(Annotation { name: name.to_string(), typ }),
        definition: Definition {
            fname: name.to_string(),
            vars: vars.iter().map(|v| v.to_string()).collect(),
            body,
        },
        associated: vec![],
    }
}

fn id_type() -> Expr {
    arrow(vec![("A", var("Type")), ("x", var("A"))], var("A"))
}

fn const_type() -> Expr {
    arrow(
        vec![("A", var("Type")), ("B", var("Type")), ("x", var("A")), ("y", var("B"))],
        var("A"),
    )
}

fn const_decl() -> Item {
    decl("const", const_type(), &["A", "B", "x", "y"], var("x"))
}

#[test]
fn identity_checks() {
    let r = type_check_all(vec![decl("id", id_type(), &["A", "x"], var("x"))]);
    assert_eq!(r.unwrap(), vec!["id".to_string()]);
}

#[test]
fn identity_returning_type_is_mismatch() {
    let r = type_check_all(vec![decl("bad", id_type(), &["A", "x"], var("A"))]);
    assert!(matches!(r, Err(CheckError::Mismatch { .. })));
}

#[test]
fn const_checks() {
    let r = type_check_all(vec![const_decl()]);
    assert_eq!(r.unwrap(), vec!["const".to_string()]);
}

#[test]
fn const_applied_with_matching_types() {
    let use_ty = arrow(vec![("A", var("Type")), ("a", var("A"))], var("A"));
    let body = alg("const", vec![var("A"), var("Type"), var("a"), var("Type")]);
    let r = type_check_all(vec![const_decl(), decl("use", use_ty, &["A", "a"], body)]);
    assert_eq!(r.unwrap(), vec!["const".to_string(), "use".to_string()]);
}

#[test]
fn const_applied_with_swapped_types() {
    let use_ty = arrow(vec![("A", var("Type")), ("a", var("A"))], var("A"));
    let body = alg("const", vec![var("A"), var("Type"), var("a"), var("a")]);
    let r = type_check_all(vec![const_decl(), decl("use", use_ty, &["A", "a"], body)]);
    assert!(matches!(r, Err(CheckError::Mismatch { .. })));
}

#[test]
fn undeclared_global_in_body() {
    let ty = arrow(vec![("A", var("Type"))], var("A"));
    let r = type_check_all(vec![decl("f", ty, &["A"], var("g"))]);
    match r {
        Err(CheckError::Unresolved(n)) => assert_eq!(n, "g"),
        other => panic!("unexpected {:?}", other),
    }
}

#[test]
fn undeclared_global_in_annotation() {
    let r = type_check_all(vec![decl("f", var("Foo"), &[], var("Type"))]);
    match r {
        Err(CheckError::Unresolved(n)) => assert_eq!(n, "Foo"),
        other => panic!("unexpected {:?}", other),
    }
}

#[test]
fn later_declaration_cannot_be_referenced_early() {
    let r = type_check_all(vec![
        decl("a", var("Type"), &[], var("b")),
        decl("b", var("Type"), &[], var("Type")),
    ]);
    assert!(matches!(r, Err(CheckError::Unresolved(_))));
}

#[test]
fn applying_a_type_parameter_is_not_a_function() {
    let ty = arrow(vec![("x", var("Type"))], var("Type"));
    let r = type_check_all(vec![decl("f", ty, &["x"], alg("x", vec![var("x")]))]);
    assert!(matches!(r, Err(CheckError::NotAFunction(_))));
}

#[test]
fn applying_to_a_free_name_is_unresolved() {
    let ty = arrow(vec![("x", var("Type"))], var("Type"));
    let r = type_check_all(vec![decl("f", ty, &["x"], alg("x", vec![var("y")]))]);
    assert!(matches!(r, Err(CheckError::Unresolved(_))));
}

#[test]
fn universe_applied() {
    let r = type_check_all(vec![decl("f", var("Type"), &[], alg("Type", vec![var("Type")]))]);
    assert!(matches!(r, Err(CheckError::UniverseApplied)));
}

#[test]
fn arrow_against_non_universe() {
    let ty = arrow(vec![("A", var("Type"))], var("A"));
    let body = arrow(vec![("x", var("A"))], var("A"));
    let r = type_check_all(vec![decl("f", ty, &["A"], body)]);
    assert!(matches!(r, Err(CheckError::ArrowNotType(_))));
}

#[test]
fn arrow_against_universe() {
    let body = arrow(vec![("x", var("Type"))], var("Type"));
    let r = type_check_all(vec![decl("F", var("Type"), &[], body)]);
    assert_eq!(r.unwrap(), vec!["F".to_string()]);
}

#[test]
fn too_many_parameters() {
    let r = type_check_all(vec![decl("f", var("Type"), &["x"], var("x"))]);
    assert!(matches!(r, Err(CheckError::TooManyParameters(_))));
}

#[test]
fn name_mismatch() {
    let mut d = decl("f", var("Type"), &[], var("Type"));
    d.definition.fname = "g".to_string();
    let r = type_check_all(vec![d]);
    assert!(matches!(r, Err(CheckError::NameMismatch { .. })));
}

#[test]
fn missing_annotation_with_parameters() {
    let mut d = decl("f", var("Type"), &["x"], var("x"));
    d.annotation = None;
    let r = type_check_all(vec![d]);
    assert!(matches!(r, Err(CheckError::MissingAnnotation(_))));
}

#[test]
fn missing_annotation_without_parameters() {
    let mut d = decl("f", var("Type"), &[], var("Type"));
    d.annotation = None;
    let r = type_check_all(vec![d]);
    assert!(matches!(r, Err(CheckError::Unsupported(_))));
}

#[test]
fn associated_declarations_unsupported() {
    let mut d = decl("f", var("Type"), &[], var("Type"));
    d.associated.push(decl("g", var("Type"), &[], var("Type")));
    let r = type_check_all(vec![d]);
    assert!(matches!(r, Err(CheckError::Unsupported(_))));
}

#[test]
fn empty_program() {
    let r = type_check_all(vec![]);
    assert_eq!(r.unwrap(), Vec::<String>::new());
}

#[test]
fn alias_unfolds_in_annotation() {
    let r = type_check_program(
        &vec![
            decl("T", var("Type"), &[], var("Type")),
            decl("f", arrow(vec![("x", var("T"))], var("T")), &["x"], var("x")),
        ],
        100,
    );
    assert_eq!(r.unwrap(), vec!["T".to_string(), "f".to_string()]);
}

#[test]
fn repeated_parameter_names_use_the_last() {
    let ty = arrow(vec![("A", var("Type")), ("A", var("A"))], var("Type"));
    let r = type_check_all(vec![decl("f", ty, &["A", "A"], var("Type"))]);
    assert_eq!(r.unwrap(), vec!["f".to_string()]);
}
