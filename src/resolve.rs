use vstd::prelude::*;
use crate::ast;
use crate::scope::{Context, get_index_names, last_index, names, lemma_lookup_flat};
use crate::term::{CheckError, Expr, Ident, Term, views, lemma_view_parts};

verus! {

pub open spec fn universe_name() -> Seq<char> {
    seq!['T', 'y', 'p', 'e']
}

pub open spec fn placeholder_name() -> Seq<char> {
    seq!['_']
}

/// The name a parameter binds.
pub open spec fn binder_name(p: (Option<String>, ast::Expr)) -> Seq<char> {
    match p.0 {
        Some(s) => s@,
        None => placeholder_name(),
    }
}

pub open spec fn binder_names(ps: Seq<(Option<String>, ast::Expr)>) -> Seq<Seq<char>> {
    ps.map_values(|p: (Option<String>, ast::Expr)| binder_name(p))
}

/// What a name stands for: the last local of that name, else the last
/// global of that name, else the universe; `None` if none of them.
pub open spec fn resolve_name(globals: Seq<Seq<char>>, locals: Seq<Seq<char>>, name: Seq<char>) -> Option<Ident> {
    match last_index(locals, name) {
        Some(i) => Some(Ident::Local(i as usize)),
        None => match last_index(globals, name) {
            Some(i) => Some(Ident::Global(i as usize)),
            None => if name == universe_name() {
                Some(Ident::Type)
            } else {
                None
            },
        },
    }
}

/// Resolution of a surface expression under global names and local names
/// (outermost first). Arrow parameters are resolved in order, each under the
/// names bound before it; the head and arguments under all of them. An error
/// carries the first name, left to right, that does not resolve, or `None`
/// where the names in scope would outnumber `usize`.
pub open spec fn resolve_term(globals: Seq<Seq<char>>, locals: Seq<Seq<char>>, e: ast::Expr) -> Result<Term, Option<Seq<char>>>
    decreases e, 2nat, 0nat,
{
    match e {
        ast::Expr::Arrow(a) => if locals.len() + a.params.len() > usize::MAX {
            Err(None)
        } else {
            match resolve_params(globals, locals, a.params@) {
                Err(n) => Err(n),
                Ok(ps) => match resolve_term(globals, locals + binder_names(a.params@), *a.output) {
                    Err(n) => Err(n),
                    Ok(t) => Ok(Term { params: ps + t.params, head: t.head, args: t.args }),
                },
            }
        },
        ast::Expr::Alg(alg) => match resolve_name(globals, locals, alg.head@) {
            None => Err(Some(alg.head@)),
            Some(h) => match resolve_all(globals, locals, alg.tail@) {
                Err(n) => Err(n),
                Ok(ts) => Ok(Term { params: Seq::empty(), head: h, args: ts }),
            },
        },
    }
}

/// Parameter types, each under the names of the parameters before it.
pub open spec fn resolve_params(
    globals: Seq<Seq<char>>,
    locals: Seq<Seq<char>>,
    ps: Seq<(Option<String>, ast::Expr)>,
) -> Result<Seq<Term>, Option<Seq<char>>>
    decreases ps, 1nat, ps.len(),
{
    if ps.len() == 0 {
        Ok(Seq::empty())
    } else {
        let init = ps.drop_last();
        match resolve_params(globals, locals, init) {
            Err(n) => Err(n),
            Ok(ts) => match resolve_term(globals, locals + binder_names(init), ps.last().1) {
                Err(n) => Err(n),
                Ok(t) => Ok(ts.push(t)),
            },
        }
    }
}

/// Every expression under the same names.
pub open spec fn resolve_all(globals: Seq<Seq<char>>, locals: Seq<Seq<char>>, s: Seq<ast::Expr>) -> Result<Seq<Term>, Option<Seq<char>>>
    decreases s, 1nat, s.len(),
{
    if s.len() == 0 {
        Ok(Seq::empty())
    } else {
        match resolve_all(globals, locals, s.drop_last()) {
            Err(n) => Err(n),
            Ok(ts) => match resolve_term(globals, locals, s.last()) {
                Err(n) => Err(n),
                Ok(t) => Ok(ts.push(t)),
            },
        }
    }
}

pub proof fn lemma_params_prefix(
    globals: Seq<Seq<char>>,
    locals: Seq<Seq<char>>,
    ps: Seq<(Option<String>, ast::Expr)>,
    k: int,
)
    requires
        0 <= k <= ps.len(),
        resolve_params(globals, locals, ps.take(k)) is Err,
    ensures
        resolve_params(globals, locals, ps) == resolve_params(globals, locals, ps.take(k)),
    decreases ps.len(),
{
    if k == ps.len() {
        assert(ps.take(k) =~= ps);
    } else {
        let init = ps.drop_last();
        assert(init.take(k) =~= ps.take(k));
        lemma_params_prefix(globals, locals, init, k);
    }
}

pub proof fn lemma_all_prefix(globals: Seq<Seq<char>>, locals: Seq<Seq<char>>, s: Seq<ast::Expr>, k: int)
    requires
        0 <= k <= s.len(),
        resolve_all(globals, locals, s.take(k)) is Err,
    ensures
        resolve_all(globals, locals, s) == resolve_all(globals, locals, s.take(k)),
    decreases s.len(),
{
    if k == s.len() {
        assert(s.take(k) =~= s);
    } else {
        let init = s.drop_last();
        assert(init.take(k) =~= s.take(k));
        lemma_all_prefix(globals, locals, init, k);
    }
}

/// The error of the library for a failed resolution.
pub open spec fn resolve_error(n: Option<Seq<char>>, e: CheckError) -> bool {
    match n {
        Some(name) => e is Unresolved && e->Unresolved_0@ == name,
        None => e is IndexOverflow,
    }
}

/// Resolves a surface expression: global names by position in `globals`,
/// local names by position in `locals`.
pub fn convert_expr(globals: &Vec<String>, locals: &Context<String>, expr: &ast::Expr) -> (r: Result<Expr, CheckError>)
    requires
        locals.wf(),
        locals.unshadowed(),
    ensures
        match resolve_term(names(globals@), names(locals@), *expr) {
            Ok(t) => r is Ok && r->Ok_0@ == t,
            Err(n) => r is Err && resolve_error(n, r->Err_0),
        },
    decreases expr,
{
    let ghost g = names(globals@);
    let ghost l = names(locals@);
    match expr {
        ast::Expr::Arrow(a) => {
            let size = locals.size();
            if size > usize::MAX - a.params.len() {
                return Err(CheckError::IndexOverflow);
            }
            let ghost ps = a.params@;
            let mut arrow_params: Vec<Expr> = Vec::new();
            let mut new_locals: Vec<String> = Vec::new();
            let mut j: usize = 0;
            assert(ps.take(0) =~= Seq::<(Option<String>, ast::Expr)>::empty());
            assert(views(arrow_params@) =~= Seq::<Term>::empty());
            assert(names(new_locals@) =~= Seq::<Seq<char>>::empty());
            assert(binder_names(ps.take(0)) =~= Seq::<Seq<char>>::empty());
            while j < a.params.len()
                invariant
                    j <= a.params.len(),
                    ps == a.params@,
                    *expr == ast::Expr::Arrow(*a),
                    locals.wf(),
                    locals.unshadowed(),
                    size == locals@.len(),
                    size + a.params.len() <= usize::MAX,
                    l == names(locals@),
                    g == names(globals@),
                    names(new_locals@) == binder_names(ps.take(j as int)),
                    new_locals@.len() == j,
                    resolve_params(g, l, ps.take(j as int)) == Ok::<Seq<Term>, Option<Seq<char>>>(views(arrow_params@)),
                decreases a.params.len() - j,
            {
                let ghost pre = ps.take(j as int + 1);
                assert(pre.drop_last() =~= ps.take(j as int));
                assert(pre.last() == ps[j as int]);
                let ty = &a.params[j].1;
                assert(decreases_to!(*expr => a.params[j as int].1)) by {
                    assert(*expr == ast::Expr::Arrow(*a));
                    assert(decreases_to!(ast::Expr::Arrow(*a) => *a));
                    assert(decreases_to!(*a => a.params));
                    assert(decreases_to!(a.params => a.params@));
                    assert(decreases_to!(a.params@ => a.params@[j as int]));
                    assert(decreases_to!(a.params@[j as int] => a.params@[j as int].1));
                };
                let converted = {
                    let ctx = locals.push(new_locals.as_slice());
                    proof {
                        assert(names(ctx@) =~= l + binder_names(ps.take(j as int)));
                    }
                    convert_expr(globals, &ctx, ty)
                };
                match converted {
                    Ok(t) => {
                        arrow_params.push(t);
                        assert(views(arrow_params@) =~= resolve_params(g, l, pre)->Ok_0);
                    },
                    Err(e) => {
                        proof {
                            lemma_params_prefix(g, l, ps, j as int + 1);
                        }
                        return Err(e);
                    },
                }
                proof {
                    reveal_strlit("_");
                }
                let name = match &a.params[j].0 {
                    Some(n) => n.clone(),
                    None => {
                        let placeholder = "_".to_owned();
                        assert(placeholder@ =~= placeholder_name());
                        placeholder
                    },
                };
                assert(name@ == binder_name(ps[j as int]));
                let ghost before = new_locals@;
                new_locals.push(name);
                assert forall|k: int| 0 <= k <= j implies #[trigger] names(new_locals@)[k] == binder_names(pre)[k] by {
                    if k < j {
                        assert(new_locals@[k] == before[k]);
                        assert(names(before)[k] == binder_names(ps.take(j as int))[k]);
                        assert(ps.take(j as int)[k] == pre[k]);
                    }
                }
                assert(names(new_locals@) =~= binder_names(pre));
                j += 1;
            }
            assert(ps.take(j as int) =~= ps);
            assert(decreases_to!(*expr => *a.output)) by {
                assert(*expr == ast::Expr::Arrow(*a));
                assert(decreases_to!(ast::Expr::Arrow(*a) => *a));
                assert(decreases_to!(*a => a.output));
            };
            let inner = {
                let ctx = locals.push(new_locals.as_slice());
                proof {
                    assert(names(ctx@) =~= l + binder_names(ps));
                }
                convert_expr(globals, &ctx, &a.output)
            };
            match inner {
                Ok(mut t) => {
                    proof {
                        lemma_view_parts(t);
                    }
                    let ghost tp = views(t.arrow_params@);
                    let ghost pv = views(arrow_params@);
                    arrow_params.append(&mut t.arrow_params);
                    t.arrow_params = arrow_params;
                    proof {
                        lemma_view_parts(t);
                        assert(views(t.arrow_params@) =~= pv + tp);
                    }
                    Ok(t)
                },
                Err(e) => Err(e),
            }
        },
        ast::Expr::Alg(alg) => {
            proof {
                lemma_lookup_flat(locals, alg.head@);
                reveal_strlit("Type");
            }
            let head = match locals.index_from_value(&alg.head) {
                Some(id) => Ident::Local(id),
                None => match get_index_names(globals, &alg.head) {
                    Some(id) => Ident::Global(id),
                    None => {
                        let universe: String = "Type".to_owned();
                        assert(universe@ =~= universe_name());
                        if alg.head == universe {
                            Ident::Type
                        } else {
                            return Err(CheckError::Unresolved(alg.head.clone()));
                        }
                    },
                },
            };
            assert(resolve_name(g, l, alg.head@) == Some(head));
            let ghost ts = alg.tail@;
            let mut tail: Vec<Expr> = Vec::new();
            let mut j: usize = 0;
            assert(ts.take(0) =~= Seq::<ast::Expr>::empty());
            assert(views(tail@) =~= Seq::<Term>::empty());
            while j < alg.tail.len()
                invariant
                    j <= alg.tail.len(),
                    ts == alg.tail@,
                    *expr == ast::Expr::Alg(*alg),
                    resolve_name(g, l, alg.head@) == Some(head),
                    locals.wf(),
                    locals.unshadowed(),
                    l == names(locals@),
                    g == names(globals@),
                    resolve_all(g, l, ts.take(j as int)) == Ok::<Seq<Term>, Option<Seq<char>>>(views(tail@)),
                decreases alg.tail.len() - j,
            {
                let ghost pre = ts.take(j as int + 1);
                assert(pre.drop_last() =~= ts.take(j as int));
                assert(pre.last() == ts[j as int]);
                assert(decreases_to!(*expr => alg.tail[j as int])) by {
                    assert(*expr == ast::Expr::Alg(*alg));
                    assert(decreases_to!(ast::Expr::Alg(*alg) => *alg));
                    assert(decreases_to!(*alg => alg.tail));
                    assert(decreases_to!(alg.tail => alg.tail@));
                    assert(decreases_to!(alg.tail@ => alg.tail@[j as int]));
                };
                match convert_expr(globals, locals, &alg.tail[j]) {
                    Ok(t) => {
                        tail.push(t);
                        assert(views(tail@) =~= resolve_all(g, l, pre)->Ok_0);
                    },
                    Err(e) => {
                        proof {
                            lemma_all_prefix(g, l, ts, j as int + 1);
                        }
                        return Err(e);
                    },
                }
                j += 1;
            }
            assert(ts.take(j as int) =~= ts);
            let r = Expr { arrow_params: Vec::new(), head, tail };
            proof {
                lemma_view_parts(r);
                assert(r@.params =~= Seq::<Term>::empty());
            }
            Ok(r)
        },
    }
}

} // verus!
