use vstd::prelude::*;

verus! {

/// What an expression is applied to: the universe, a declaration of the
/// environment (by position) or a bound variable (by position in the scope).
#[derive(Clone, Copy, PartialEq, Eq, Structural, Debug)]
pub enum Ident {
    Type,
    Global(usize),
    Local(usize),
}

/// Mathematical model of an expression.
pub struct Term {
    pub params: Seq<Term>,
    pub head: Ident,
    pub args: Seq<Term>,
}

/// `(p1) -> ... -> (pk) -> head a1 ... an`; with no parameters it is just
/// `head a1 ... an`.
#[derive(Debug)]
pub struct Expr {
    pub arrow_params: Vec<Expr>,
    pub head: Ident,
    pub tail: Vec<Expr>,
}

/// A checked declaration: its type, how many leading parameters its
/// definition binds, and the definition body under those parameters.
#[derive(Debug)]
pub struct Item {
    pub ty: Expr,
    pub param_num: usize,
    pub def: Expr,
}

/// Mathematical model of a checked declaration.
pub struct Decl {
    pub ty: Term,
    pub param_num: nat,
    pub def: Term,
}

impl Item {
    pub open spec fn view(self) -> Decl {
        Decl { ty: self.ty@, param_num: self.param_num as nat, def: self.def@ }
    }
}

pub open spec fn decls(s: Seq<Item>) -> Seq<Decl> {
    s.map_values(|i: Item| i@)
}

pub open spec fn views(s: Seq<Expr>) -> Seq<Term> {
    s.map_values(|e: Expr| e@)
}

pub open spec fn universe_term() -> Term {
    Term { params: Seq::empty(), head: Ident::Type, args: Seq::empty() }
}

/// The model of an expression is built from the models of its parts.
pub proof fn lemma_view_parts(e: Expr)
    ensures
        e@.params == views(e.arrow_params@),
        e@.head == e.head,
        e@.args == views(e.tail@),
{
    assert(e@.params =~= views(e.arrow_params@));
    assert(e@.args =~= views(e.tail@));
}

impl Expr {
    pub open spec fn view(self) -> Term
        decreases self,
    {
        Term {
            params: Seq::new(
                self.arrow_params.len() as nat,
                |i: int|
                    if 0 <= i < self.arrow_params.len() {
                        self.arrow_params[i].view()
                    } else {
                        arbitrary()
                    },
            ),
            head: self.head,
            args: Seq::new(
                self.tail.len() as nat,
                |i: int|
                    if 0 <= i < self.tail.len() {
                        self.tail[i].view()
                    } else {
                        arbitrary()
                    },
            ),
        }
    }

    pub fn universe() -> (r: Expr)
        ensures
            r@ == universe_term(),
    {
        let r = Expr { arrow_params: Vec::new(), head: Ident::Type, tail: Vec::new() };
        assert(r@.params =~= Seq::<Term>::empty());
        assert(r@.args =~= Seq::<Term>::empty());
        r
    }

    pub fn is_universe(&self) -> (r: bool)
        ensures
            r == (self@ == universe_term()),
    {
        proof {
            lemma_view_parts(*self);
        }
        if self.arrow_params.len() == 0 && self.tail.len() == 0 {
            assert(self@.params =~= Seq::<Term>::empty());
            assert(self@.args =~= Seq::<Term>::empty());
        }
        let h = self.head == Ident::Type;
        if self.arrow_params.len() != 0 {
            assert(self@.params.len() != 0);
            assert(self@ != universe_term());
        }
        if self.tail.len() != 0 {
            assert(self@.args.len() != 0);
        }
        self.arrow_params.len() == 0 && self.tail.len() == 0 && h
    }

    /// A copy with the same model.
    pub fn duplicate(&self) -> (r: Expr)
        ensures
            r@ == self@,
        decreases self,
    {
        let arrow_params = duplicate_all(&self.arrow_params);
        let tail = duplicate_all(&self.tail);
        let r = Expr { arrow_params, head: self.head, tail };
        proof {
            lemma_view_parts(r);
            lemma_view_parts(*self);
        }
        r
    }

    /// Structural equality of the models.
    pub fn same(&self, other: &Expr) -> (r: bool)
        ensures
            r == (self@ == other@),
        decreases self,
    {
        proof {
            lemma_view_parts(*self);
            lemma_view_parts(*other);
        }
        if self.head != other.head {
            assert(self@.head != other@.head);
            return false;
        }
        if self.arrow_params.len() != other.arrow_params.len() {
            assert(self@.params.len() != other@.params.len());
            return false;
        }
        if self.tail.len() != other.tail.len() {
            assert(self@.args.len() != other@.args.len());
            return false;
        }
        let p = same_all(&self.arrow_params, &other.arrow_params);
        let t = same_all(&self.tail, &other.tail);
        if p && t {
            assert(self@ == other@);
        } else if !p {
            assert(self@.params != other@.params);
        } else {
            assert(self@.args != other@.args);
        }
        p && t
    }
}

fn duplicate_all(xs: &Vec<Expr>) -> (r: Vec<Expr>)
    ensures
        views(r@) == views(xs@),
    decreases xs,
{
    let mut r: Vec<Expr> = Vec::new();
    let mut i: usize = 0;
    while i < xs.len()
        invariant
            i <= xs.len(),
            r@.len() == i,
            forall|k: int| 0 <= k < i ==> #[trigger] r@[k]@ == xs@[k]@,
        decreases xs.len() - i,
    {
        assert(decreases_to!(xs => xs[i as int]));
        r.push(xs[i].duplicate());
        i += 1;
    }
    assert(views(r@) =~= views(xs@));
    r
}

fn same_all(xs: &Vec<Expr>, ys: &Vec<Expr>) -> (r: bool)
    requires
        xs.len() == ys.len(),
    ensures
        r == (views(xs@) == views(ys@)),
    decreases xs,
{
    let mut i: usize = 0;
    while i < xs.len()
        invariant
            i <= xs.len(),
            xs.len() == ys.len(),
            forall|k: int| 0 <= k < i ==> #[trigger] xs@[k]@ == ys@[k]@,
        decreases xs.len() - i,
    {
        assert(decreases_to!(xs => xs[i as int]));
        if !xs[i].same(&ys[i]) {
            assert(views(xs@)[i as int] != views(ys@)[i as int]);
            assert(views(xs@) != views(ys@));
            return false;
        }
        i += 1;
    }
    assert(views(xs@) =~= views(ys@));
    true
}

} // verus!

verus! {

/// Why checking stopped.
#[derive(Debug)]
pub enum CheckError {
    /// A feature outside the calculus (associated declarations, type inference).
    Unsupported(String),
    /// A declaration with parameters but no type annotation.
    MissingAnnotation(String),
    /// The annotation and the definition name different declarations.
    NameMismatch { annotation: String, definition: String },
    /// A name that is neither local, global nor the universe.
    Unresolved(String),
    /// The universe applied to arguments.
    UniverseApplied,
    /// An argument given to something whose type has no parameters, even
    /// after evaluation.
    NotAFunction(Expr),
    /// A function type checked against something other than the universe.
    ArrowNotType(Expr),
    /// The evaluated type of an expression differs from the expected one.
    Mismatch { expected: Expr, actual: Expr },
    /// The definition has more parameters than its evaluated type.
    TooManyParameters(String),
    /// Evaluation used up its step budget.
    OutOfFuel,
    /// A local index outside the scope.
    UnboundLocal(usize),
    /// A global index outside the environment.
    UnknownGlobal(usize),
    /// A renumbered local index would not fit in a `usize`.
    IndexOverflow,
}

} // verus!
