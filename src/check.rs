use vstd::prelude::*;
use crate::ast;
use crate::eval::{eval, eval_term};
use crate::resolve::{convert_expr, resolve_error, resolve_term};
use crate::scope::{Context, names};
use crate::subst::{fits, fits_in, subst, subst_term};
use crate::term::{CheckError, Decl, Expr, Ident, Item, decls, Term, universe_term, views, lemma_view_parts};

verus! {

/// `e` has type `expected` under the local types `ctx` (outermost first).
/// A function type must be expected to be the universe, and each of its
/// parameter types must be a type under the parameters before it. The
/// universe alone needs no check. Scope positions must fit in a `usize`. Otherwise the head's type takes the
/// arguments (see `spine_base`), and what remains of it, with the arguments
/// put in and evaluated, must equal `expected`.
pub open spec fn check_term(g: Seq<Decl>, ctx: Seq<Term>, e: Term, expected: Term, fuel: nat) -> bool
    decreases e, 0nat,
{
    &&& (e.params.len() > 0 ==> {
        &&& ctx.len() + e.params.len() <= usize::MAX
        &&& check_params(g, ctx, e.params, e.params.len(), fuel)
        &&& expected == universe_term()
    })
    &&& match e.head {
        Ident::Type => e.args.len() == 0,
        Ident::Local(i) => i < ctx.len() && check_spine(g, ctx, e.args, ctx[i as int], i as nat, expected, fuel),
        Ident::Global(i) => i < g.len() && check_spine(g, ctx, e.args, g[i as int].ty, 0, expected, fuel),
    }
}

/// The first `j` parameter types are types, each under the ones before it.
pub open spec fn check_params(g: Seq<Decl>, ctx: Seq<Term>, ps: Seq<Term>, j: nat, fuel: nat) -> bool
    decreases ps, j,
{
    if j == 0 {
        true
    } else {
        &&& j <= ps.len()
        &&& check_params(g, ctx, ps, (j - 1) as nat, fuel)
        &&& check_term(g, ctx + ps.take(j - 1), ps[j - 1], universe_term(), fuel)
    }
}

/// The type `base` (under `a` locals) after taking the arguments from the
/// `k`-th on: a type without parameters is evaluated first, the first
/// parameter type with the earlier arguments put in is what the next
/// argument must have. `None` when an argument does not check or the type
/// has no parameter left.
pub open spec fn spine_base(
    g: Seq<Decl>,
    ctx: Seq<Term>,
    args: Seq<Term>,
    k: nat,
    base: Term,
    a: nat,
    fuel: nat,
) -> Option<Term>
    decreases args, args.len() - k,
{
    if k >= args.len() {
        Some(base)
    } else {
        let b = if base.params.len() == 0 {
            eval_term(g, base, fuel)
        } else {
            Some(base)
        };
        match b {
            Some(b) => {
                if b.params.len() > 0 && fits(b.params[0], a, k, ctx.len()) && check_term(
                    g,
                    ctx,
                    args[k as int],
                    subst_term(b.params[0], a, args.take(k as int), ctx.len()),
                    fuel,
                ) {
                    spine_base(
                        g,
                        ctx,
                        args,
                        k + 1,
                        Term { params: b.params.drop_first(), head: b.head, args: b.args },
                        a,
                        fuel,
                    )
                } else {
                    None
                }
            },
            None => None,
        }
    }
}

/// The head, of type `base`, applied to `args` has type `expected`.
pub open spec fn check_spine(
    g: Seq<Decl>,
    ctx: Seq<Term>,
    args: Seq<Term>,
    base: Term,
    a: nat,
    expected: Term,
    fuel: nat,
) -> bool
    decreases args, args.len() + 1,
{
    match spine_base(g, ctx, args, 0, base, a, fuel) {
        Some(b) => fits(b, a, args.len(), ctx.len()) && eval_term(g, subst_term(b, a, args, ctx.len()), fuel)
            == Some(expected),
        None => false,
    }
}

proof fn lemma_params_fail(g: Seq<Decl>, ctx: Seq<Term>, ps: Seq<Term>, j: nat, m: nat, fuel: nat)
    requires
        j <= m,
        !check_params(g, ctx, ps, j, fuel),
    ensures
        !check_params(g, ctx, ps, m, fuel),
    decreases m,
{
    if j < m {
        lemma_params_fail(g, ctx, ps, j, (m - 1) as nat, fuel);
    }
}

/// Checks `expr` against `expected` under the local types `locals`,
/// evaluating within `fuel` steps at a time.
pub fn type_check_expr(
    globals: &Vec<Item>,
    locals: &Context<Expr>,
    expr: &Expr,
    expected: Expr,
    fuel: usize,
) -> (r: Result<(), CheckError>)
    requires
        locals.wf(),
    ensures
        r is Ok <==> check_term(decls(globals@), views(locals@), expr@, expected@, fuel as nat),
    decreases expr, 1nat,
{
    let ghost g = decls(globals@);
    let ghost ctx = views(locals@);
    proof {
        lemma_view_parts(*expr);
    }
    if expr.arrow_params.len() > 0 {
        let size = locals.size();
        if size > usize::MAX - expr.arrow_params.len() {
            return Err(CheckError::IndexOverflow);
        }
        let ghost ps = expr@.params;
        let mut new_locals: Vec<Expr> = Vec::new();
        let mut j: usize = 0;
        assert(views(new_locals@) =~= ps.take(0));
        while j < expr.arrow_params.len()
            invariant
                j <= expr.arrow_params.len(),
                ps == expr@.params,
                ps == views(expr.arrow_params@),
                locals.wf(),
                size == locals@.len(),
                size + ps.len() <= usize::MAX,
                g == decls(globals@),
                ctx == views(locals@),
                views(new_locals@) == ps.take(j as int),
                new_locals@.len() == j,
                check_params(g, ctx, ps, j as nat, fuel as nat),
            decreases expr.arrow_params.len() - j,
        {
            assert(decreases_to!(expr => expr.arrow_params[j as int]));
            let checked = {
                let inner = locals.push(new_locals.as_slice());
                assert(views(inner@) =~= ctx + ps.take(j as int));
                type_check_expr(globals, &inner, &expr.arrow_params[j], Expr::universe(), fuel)
            };
            match checked {
                Ok(()) => {},
                Err(e) => {
                    proof {
                        lemma_params_fail(g, ctx, ps, j as nat + 1, ps.len(), fuel as nat);
                    }
                    return Err(e);
                },
            }
            new_locals.push(expr.arrow_params[j].duplicate());
            assert(views(new_locals@) =~= ps.take(j as int + 1));
            j += 1;
        }
        if !expected.is_universe() {
            return Err(CheckError::ArrowNotType(expected));
        }
    }
    match expr.head {
        Ident::Type => {
            if expr.tail.len() > 0 {
                Err(CheckError::UniverseApplied)
            } else {
                Ok(())
            }
        },
        Ident::Local(i) => {
            if i >= locals.size() {
                return Err(CheckError::UnboundLocal(i));
            }
            let base = locals.value_from_index(i).duplicate();
            assert(decreases_to!(expr => expr.tail));
            check_spine_exec(globals, locals, &expr.tail, base, i, expected, fuel)
        },
        Ident::Global(i) => {
            if i >= globals.len() {
                return Err(CheckError::UnknownGlobal(i));
            }
            let base = globals[i].ty.duplicate();
            assert(decreases_to!(expr => expr.tail));
            check_spine_exec(globals, locals, &expr.tail, base, 0, expected, fuel)
        },
    }
}

/// Checks a head of type `base` (under `a` locals) applied to `args`
/// against `expected`.
fn check_spine_exec(
    globals: &Vec<Item>,
    locals: &Context<Expr>,
    args: &Vec<Expr>,
    base: Expr,
    a: usize,
    expected: Expr,
    fuel: usize,
) -> (r: Result<(), CheckError>)
    requires
        locals.wf(),
    ensures
        r is Ok <==> check_spine(decls(globals@), views(locals@), views(args@), base@, a as nat, expected@, fuel as nat),
    decreases args, 0nat,
{
    let ghost g = decls(globals@);
    let ghost ctx = views(locals@);
    let ghost all = views(args@);
    let ghost base0 = base@;
    let n = locals.size();
    let mut cur = base;
    let mut k: usize = 0;
    while k < args.len()
        invariant
            k <= args.len(),
            locals.wf(),
            n == ctx.len(),
            g == decls(globals@),
            ctx == views(locals@),
            all == views(args@),
            base0 == base@,
            spine_base(g, ctx, all, k as nat, cur@, a as nat, fuel as nat) == spine_base(g, ctx, all, 0, base0, a as nat, fuel as nat),
        decreases args.len() - k,
    {
        let ghost before = cur@;
        if cur.arrow_params.len() == 0 {
            proof {
                lemma_view_parts(cur);
            }
            assert(before.params.len() == 0);
            match eval(globals, &mut cur, fuel) {
                Ok(()) => {},
                Err(e) => {
                    assert(eval_term(g, before, fuel as nat) is None);
                    assert(spine_base(g, ctx, all, k as nat, before, a as nat, fuel as nat) is None);
                    return Err(e);
                },
            }
            proof {
                lemma_view_parts(cur);
            }
            if cur.arrow_params.len() == 0 {
                assert(eval_term(g, before, fuel as nat) == Some(cur@));
                assert(spine_base(g, ctx, all, k as nat, before, a as nat, fuel as nat) is None);
                return Err(CheckError::NotAFunction(cur));
            }
        }
        proof {
            lemma_view_parts(cur);
        }
        let ghost b = cur@;
        let first = cur.arrow_params.remove(0);
        proof {
            lemma_view_parts(cur);
            assert(views(cur.arrow_params@) =~= b.params.drop_first());
        }
        if !fits_in(&first, a, k, n) {
            return Err(CheckError::IndexOverflow);
        }
        let earlier = &args.as_slice()[0..k];
        assert(views(earlier@) =~= all.take(k as int));
        let arg_expected = subst(&first, a, earlier, n);
        assert(decreases_to!(args => args[k as int]));
        match type_check_expr(globals, locals, &args[k], arg_expected, fuel) {
            Ok(()) => {},
            Err(e) => {
                return Err(e);
            },
        }
        k += 1;
    }
    if !fits_in(&cur, a, args.len(), n) {
        return Err(CheckError::IndexOverflow);
    }
    let mut actual = subst(&cur, a, args.as_slice(), n);
    match eval(globals, &mut actual, fuel) {
        Ok(()) => {},
        Err(e) => {
            return Err(e);
        },
    }
    if !actual.same(&expected) {
        return Err(CheckError::Mismatch { expected, actual });
    }
    Ok(())
}

/// Names of the declarations, in order.
pub open spec fn fnames(ps: Seq<ast::Item>) -> Seq<Seq<char>> {
    ps.map_values(|i: ast::Item| i.definition.fname@)
}

/// The type of a declaration's body: its type without the parameters that
/// the definition binds.
pub open spec fn result_type(ty: Term, p: nat) -> Term {
    Term { params: ty.params.skip(p as int), head: ty.head, args: ty.args }
}

/// No associated declarations, and an annotation of the defined name.
pub open spec fn named_alike(fun: ast::Item) -> bool {
    &&& fun.associated.len() == 0
    &&& fun.annotation is Some
    &&& fun.annotation->0.name@ == fun.definition.fname@
}

/// A declaration elaborated after the declarations named `gn`, whose models
/// are `g`: the annotation is resolved with no locals and evaluated; the
/// definition's body is resolved under its parameter names and checked,
/// under the annotation's first parameter types, against the rest of it.
/// `None` when any step fails or the declaration is outside the calculus.
pub open spec fn declare(gn: Seq<Seq<char>>, g: Seq<Decl>, fun: ast::Item, fuel: nat) -> Option<Decl> {
    if fun.associated.len() > 0 || fun.annotation is None {
        None
    } else {
        let ann = fun.annotation->0;
        let p = fun.definition.vars.len() as nat;
        if ann.name@ != fun.definition.fname@ {
            None
        } else {
            match resolve_term(gn, Seq::empty(), ann.typ) {
                Err(_) => None,
                Ok(t0) => match eval_term(g, t0, fuel) {
                    None => None,
                    Some(ty) => if ty.params.len() < p {
                        None
                    } else {
                        match resolve_term(gn, names(fun.definition.vars@), fun.definition.body) {
                            Err(_) => None,
                            Ok(def) => if check_term(g, ty.params.take(p as int), def, result_type(ty, p), fuel) {
                                Some(Decl { ty, param_num: p, def })
                            } else {
                                None
                            },
                        }
                    },
                },
            }
        }
    }
}

/// The environment built from a program, each declaration elaborated after
/// the ones before it; `None` at the first one that fails.
pub open spec fn elaborate(ps: Seq<ast::Item>, fuel: nat) -> Option<Seq<Decl>>
    decreases ps.len(),
{
    if ps.len() == 0 {
        Some(Seq::empty())
    } else {
        let init = ps.drop_last();
        match elaborate(init, fuel) {
            Some(g) => match declare(fnames(init), g, ps.last(), fuel) {
                Some(d) => Some(g.push(d)),
                None => None,
            },
            None => None,
        }
    }
}

proof fn lemma_elaborate_prefix(ps: Seq<ast::Item>, k: int, fuel: nat)
    requires
        0 <= k <= ps.len(),
        elaborate(ps.take(k), fuel) is None,
    ensures
        elaborate(ps, fuel) is None,
    decreases ps.len(),
{
    if k == ps.len() {
        assert(ps.take(k) =~= ps);
    } else {
        let init = ps.drop_last();
        assert(init.take(k) =~= ps.take(k));
        lemma_elaborate_prefix(init, k, fuel);
    }
}

/// Elaborates one declaration after the ones named `global_names` with
/// models `globals`; on success returns its name and its model.
pub fn type_check_function(
    global_names: &Vec<String>,
    globals: &Vec<Item>,
    fun: &ast::Item,
    fuel: usize,
) -> (r: Result<(String, Item), CheckError>)
    ensures
        match declare(names(global_names@), decls(globals@), *fun, fuel as nat) {
            Some(d) => r is Ok && r->Ok_0.0@ == fun.definition.fname@ && r->Ok_0.1@ == d,
            None => r is Err,
        },
        fun.associated.len() > 0 ==> r is Err && r->Err_0 is Unsupported,
        fun.associated.len() == 0 && fun.annotation is None ==> r is Err && if fun.definition.vars.len() > 0 {
            r->Err_0 is MissingAnnotation
        } else {
            r->Err_0 is Unsupported
        },
        fun.associated.len() == 0 && fun.annotation is Some && fun.annotation->0.name@ != fun.definition.fname@
            ==> r is Err && r->Err_0 is NameMismatch,
        named_alike(*fun) ==> match resolve_term(names(global_names@), Seq::empty(), fun.annotation->0.typ) {
            Err(n) => r is Err && resolve_error(n, r->Err_0),
            Ok(t0) => match eval_term(decls(globals@), t0, fuel as nat) {
                None => r == Err::<(String, Item), CheckError>(CheckError::OutOfFuel),
                Some(ty) => ty.params.len() < fun.definition.vars.len() ==> r is Err && r->Err_0 is TooManyParameters,
            },
        },
{
    let ghost gn = names(global_names@);
    let ghost g = decls(globals@);
    let fname = &fun.definition.fname;
    if fun.associated.len() > 0 {
        return Err(CheckError::Unsupported(fname.clone()));
    }
    let annotation = match &fun.annotation {
        Some(a) => a,
        None => {
            if fun.definition.vars.len() > 0 {
                return Err(CheckError::MissingAnnotation(fname.clone()));
            } else {
                return Err(CheckError::Unsupported(fname.clone()));
            }
        },
    };
    if annotation.name != *fname {
        return Err(CheckError::NameMismatch { annotation: annotation.name.clone(), definition: fname.clone() });
    }
    let var_names = &fun.definition.vars;
    let param_num = var_names.len();
    let no_names: Vec<String> = Vec::new();
    let top = Context::new(no_names.as_slice());
    assert(names(top@) =~= Seq::<Seq<char>>::empty());
    let mut ty = match convert_expr(global_names, &top, &annotation.typ) {
        Ok(t) => t,
        Err(e) => {
            return Err(e);
        },
    };
    match eval(globals, &mut ty, fuel) {
        Ok(()) => {},
        Err(e) => {
            return Err(e);
        },
    }
    if ty.arrow_params.len() < param_num {
        return Err(CheckError::TooManyParameters(fname.clone()));
    }
    let mut result = ty.duplicate();
    proof {
        lemma_view_parts(result);
    }
    let ghost all = result@.params;
    let mut rest = result.arrow_params.split_off(param_num);
    std::mem::swap(&mut result.arrow_params, &mut rest);
    let bindings = rest;
    proof {
        lemma_view_parts(result);
        assert(views(result.arrow_params@) =~= all.skip(param_num as int));
        assert(views(bindings@) =~= all.take(param_num as int));
    }
    let params = Context::new(var_names.as_slice());
    let def = match convert_expr(global_names, &params, &fun.definition.body) {
        Ok(d) => d,
        Err(e) => {
            return Err(e);
        },
    };
    let binders = Context::new(bindings.as_slice());
    match type_check_expr(globals, &binders, &def, result, fuel) {
        Ok(()) => {},
        Err(e) => {
            return Err(e);
        },
    }
    Ok((fname.clone(), Item { ty, param_num, def }))
}

/// Elaborates a program in order, each declaration seeing the ones before
/// it; returns the names of the declarations, or the first failure.
pub fn type_check_program(programs: &Vec<ast::Item>, fuel: usize) -> (r: Result<Vec<String>, CheckError>)
    ensures
        r is Ok <==> elaborate(programs@, fuel as nat) is Some,
        r is Ok ==> names(r->Ok_0@) == fnames(programs@),
{
    let ghost ps = programs@;
    let mut global_names: Vec<String> = Vec::new();
    let mut globals: Vec<Item> = Vec::new();
    let mut k: usize = 0;
    assert(ps.take(0) =~= Seq::<ast::Item>::empty());
    assert(decls(globals@) =~= Seq::<Decl>::empty());
    assert(names(global_names@) =~= fnames(ps.take(0)));
    while k < programs.len()
        invariant
            k <= programs.len(),
            ps == programs@,
            elaborate(ps.take(k as int), fuel as nat) == Some(decls(globals@)),
            names(global_names@) == fnames(ps.take(k as int)),
        decreases programs.len() - k,
    {
        let ghost pre = ps.take(k as int + 1);
        assert(pre.drop_last() =~= ps.take(k as int));
        assert(pre.last() == ps[k as int]);
        match type_check_function(&global_names, &globals, &programs[k], fuel) {
            Ok((name, item)) => {
                assert(pre[k as int] == ps[k as int]);
                assert(name@ == fnames(pre)[k as int]);
                let ghost before = global_names@;
                global_names.push(name);
                assert forall|j: int| 0 <= j < k implies #[trigger] names(global_names@)[j] == fnames(pre)[j] by {
                    assert(global_names@[j] == before[j]);
                    assert(names(before)[j] == fnames(ps.take(k as int))[j]);
                    assert(ps.take(k as int)[j] == pre[j]);
                }
                globals.push(item);
                assert(decls(globals@) =~= elaborate(pre, fuel as nat)->0);
                assert(names(global_names@) =~= fnames(pre));
            },
            Err(e) => {
                proof {
                    lemma_elaborate_prefix(ps, k as int + 1, fuel as nat);
                }
                return Err(e);
            },
        }
        k += 1;
    }
    assert(ps.take(k as int) =~= ps);
    Ok(global_names)
}

/// Evaluation budget of `type_check_all`.
pub const EVAL_FUEL: usize = 10000;

/// `type_check_program` with the default evaluation budget.
pub fn type_check_all(programs: Vec<ast::Item>) -> (r: Result<Vec<String>, CheckError>)
    ensures
        r is Ok <==> elaborate(programs@, EVAL_FUEL as nat) is Some,
        r is Ok ==> names(r->Ok_0@) == fnames(programs@),
{
    type_check_program(&programs, EVAL_FUEL)
}

} // verus!
