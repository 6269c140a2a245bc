use vstd::prelude::*;

verus! {

/// Named surface syntax, as a parser hands it over.
#[derive(Debug)]
pub enum Expr {
    Arrow(ArrowExpr),
    Alg(AlgExpr),
}

/// `(x1: A) -> (x2: B) -> output`; a parameter without a name binds `_`.
#[derive(Debug)]
pub struct ArrowExpr {
    pub params: Vec<(Option<String>, Expr)>,
    pub output: Box<Expr>,
}

/// An identifier applied to arguments: `head a1 ... an`.
#[derive(Debug)]
pub struct AlgExpr {
    pub head: String,
    pub tail: Vec<Expr>,
}

/// `name : typ`
#[derive(Debug)]
pub struct Annotation {
    pub name: String,
    pub typ: Expr,
}

/// `fname v1 ... vk = body`
#[derive(Debug)]
pub struct Definition {
    pub fname: String,
    pub vars: Vec<String>,
    pub body: Expr,
}

/// One declaration of a program.
#[derive(Debug)]
pub struct Item {
    pub annotation: Option<Annotation>,
    pub definition: Definition,
    pub associated: Vec<Item>,
}

} // verus!
