use vstd::prelude::*;
use crate::subst::{subst, subst_term, lemma_fits_shrinking};
use crate::term::{CheckError, Decl, Expr, Ident, Item, decls, Term, views, lemma_view_parts};

verus! {

/// Weak-head evaluation with a budget: parameter types and arguments first,
/// then unfolding. Each level of nesting and each unfolding at a level takes
/// one unit of `fuel`; `None` when it runs out.
pub open spec fn eval_term(g: Seq<Decl>, t: Term, fuel: nat) -> Option<Term>
    decreases fuel, 0nat,
{
    if fuel == 0 {
        None
    } else {
        match (eval_all(g, t.params, (fuel - 1) as nat), eval_all(g, t.args, (fuel - 1) as nat)) {
            (Some(ps), Some(ts)) => unfold(g, Term { params: ps, head: t.head, args: ts }, (fuel - 1) as nat),
            _ => None,
        }
    }
}

/// `eval_term` on every element; `None` if any of them fails.
pub open spec fn eval_all(g: Seq<Decl>, s: Seq<Term>, fuel: nat) -> Option<Seq<Term>>
    decreases fuel, 1nat, s.len(),
{
    if s.len() == 0 {
        Some(Seq::empty())
    } else {
        match (eval_all(g, s.drop_last(), fuel), eval_term(g, s.last(), fuel)) {
            (Some(init), Some(last)) => Some(init.push(last)),
            _ => None,
        }
    }
}

/// `eval_all` succeeds exactly when every element evaluates, and then holds
/// the element results in order.
pub proof fn lemma_eval_all(g: Seq<Decl>, s: Seq<Term>, fuel: nat)
    ensures
        (eval_all(g, s, fuel) is Some) == (forall|j: int| 0 <= j < s.len() ==> (#[trigger] eval_term(g, s[j], fuel)) is Some),
        eval_all(g, s, fuel) is Some ==> {
            &&& eval_all(g, s, fuel)->0.len() == s.len()
            &&& forall|j: int| 0 <= j < s.len() ==> eval_all(g, s, fuel)->0[j] == (#[trigger] eval_term(g, s[j], fuel))->0
        },
    decreases s.len(),
{
    if s.len() > 0 {
        let t = s.drop_last();
        lemma_eval_all(g, t, fuel);
        assert(forall|j: int| 0 <= j < t.len() ==> #[trigger] t[j] == s[j]);
        assert(s.last() == s[s.len() - 1]);
        if forall|j: int| 0 <= j < s.len() ==> (#[trigger] eval_term(g, s[j], fuel)) is Some {
            assert forall|j: int| 0 <= j < t.len() implies (#[trigger] eval_term(g, t[j], fuel)) is Some by {
                assert(t[j] == s[j]);
                assert(eval_term(g, s[j], fuel) is Some);
            }
            assert(eval_term(g, s[s.len() - 1], fuel) is Some);
        }
        if eval_all(g, s, fuel) is Some {
            let v = eval_all(g, s, fuel)->0;
            assert forall|j: int| 0 <= j < s.len() implies v[j] == (#[trigger] eval_term(g, s[j], fuel))->0
                && eval_term(g, s[j], fuel) is Some by {
                if j < s.len() - 1 {
                    assert(t[j] == s[j]);
                    assert(eval_term(g, t[j], fuel) is Some);
                }
            }
        } else {
            if eval_all(g, t, fuel) is None {
                let j = choose|j: int| 0 <= j < t.len() && !(eval_term(g, t[j], fuel) is Some);
                assert(t[j] == s[j]);
            }
        }
    }
}

/// Whether the head is a declaration applied to at least as many arguments
/// as its definition has parameters.
pub open spec fn unfoldable(g: Seq<Decl>, t: Term) -> bool {
    match t.head {
        Ident::Global(i) => i < g.len() && t.args.len() >= g[i as int].param_num,
        _ => false,
    }
}

/// One unfolding step on a term whose parts are already evaluated.
pub open spec fn unfold_once(g: Seq<Decl>, t: Term, rp: Seq<Term>, ra: Seq<Term>) -> Term
    recommends
        unfoldable(g, t),
{
    let p = g[t.head->Global_0 as int].param_num as int;
    Term {
        params: rp + t.params,
        head: unfolded(g, t).head,
        args: ra + t.args.subrange(p, t.args.len() as int),
    }
}

/// The definition of the head with the first arguments put in.
pub open spec fn unfolded(g: Seq<Decl>, t: Term) -> Term
    recommends
        unfoldable(g, t),
{
    let item = g[t.head->Global_0 as int];
    subst_term(item.def, 0, t.args.take(item.param_num as int), 0)
}

/// Unfold the head while it is a fully applied declaration; the parameter
/// types and arguments of each unfolded definition are evaluated first.
pub open spec fn unfold(g: Seq<Decl>, t: Term, fuel: nat) -> Option<Term>
    decreases fuel, 0nat,
{
    if !unfoldable(g, t) {
        Some(t)
    } else if fuel == 0 {
        None
    } else {
        let r = unfolded(g, t);
        match (eval_all(g, r.params, (fuel - 1) as nat), eval_all(g, r.args, (fuel - 1) as nat)) {
            (Some(rp), Some(ra)) => unfold(g, unfold_once(g, t, rp, ra), (fuel - 1) as nat),
            _ => None,
        }
    }
}

/// Evaluates every expression of `xs` in place.
pub fn eval_on(globals: &Vec<Item>, xs: &mut Vec<Expr>, fuel: usize) -> (r: Result<(), CheckError>)
    ensures
        match eval_all(decls(globals@), views(old(xs)@), fuel as nat) {
            Some(v) => r is Ok && views(final(xs)@) == v,
            None => r == Err::<(), CheckError>(CheckError::OutOfFuel),
        },
    decreases fuel, 1nat,
{
    let ghost g = decls(globals@);
    let ghost orig = views(old(xs)@);
    let mut rest: Vec<Expr> = Vec::new();
    std::mem::swap(&mut rest, xs);
    let mut done: Vec<Expr> = Vec::new();
    while rest.len() > 0
        invariant
            done@.len() + rest@.len() == orig.len(),
            forall|j: int| 0 <= j < rest@.len() ==> #[trigger] rest@[j]@ == orig[j + done@.len()],
            forall|j: int| 0 <= j < done@.len() ==> eval_term(g, orig[j], fuel as nat) == Some(#[trigger] done@[j]@),
            g == decls(globals@),
            orig == views(old(xs)@),
        decreases rest@.len(),
    {
        let ghost k = done@.len() as int;
        let mut e = rest.remove(0);
        assert(e@ == orig[k]);
        match eval(globals, &mut e, fuel) {
            Ok(()) => {},
            Err(err) => {
                proof {
                    lemma_eval_all(g, orig, fuel as nat);
                }
                return Err(err);
            },
        }
        done.push(e);
        assert forall|j: int| 0 <= j < rest@.len() implies #[trigger] rest@[j]@ == orig[j + done@.len()] by {}
    }
    *xs = done;
    proof {
        lemma_eval_all(g, orig, fuel as nat);
    }
    assert forall|j: int| 0 <= j < orig.len() implies (#[trigger] eval_term(g, orig[j], fuel as nat)) is Some by {
        assert(eval_term(g, orig[j], fuel as nat) == Some(done@[j]@));
    }
    assert(views(xs@) =~= eval_all(g, orig, fuel as nat)->0);
    Ok(())
}

/// Evaluates `expr` in place to weak-head form within the budget `fuel`
/// (see `eval_term`).
pub fn eval(globals: &Vec<Item>, expr: &mut Expr, fuel: usize) -> (r: Result<(), CheckError>)
    ensures
        match eval_term(decls(globals@), old(expr)@, fuel as nat) {
            Some(v) => r is Ok && final(expr)@ == v,
            None => r == Err::<(), CheckError>(CheckError::OutOfFuel),
        },
    decreases fuel, 0nat,
{
    let ghost g = decls(globals@);
    proof {
        lemma_view_parts(*expr);
    }
    if fuel == 0 {
        return Err(CheckError::OutOfFuel);
    }
    match eval_on(globals, &mut expr.arrow_params, fuel - 1) {
        Ok(()) => {},
        Err(e) => {
            return Err(e);
        },
    }
    match eval_on(globals, &mut expr.tail, fuel - 1) {
        Ok(()) => {},
        Err(e) => {
            return Err(e);
        },
    }
    let mut budget: usize = fuel - 1;
    proof {
        lemma_view_parts(*expr);
    }
    loop
        invariant
            g == decls(globals@),
            budget < fuel,
            unfold(g, expr@, budget as nat) == eval_term(g, old(expr)@, fuel as nat),
        decreases budget,
    {
        proof {
            lemma_view_parts(*expr);
        }
        let ghost t0 = expr@;
        let i = match expr.head {
            Ident::Global(i) => i,
            _ => {
                return Ok(());
            },
        };
        if i >= globals.len() || expr.tail.len() < globals[i].param_num {
            return Ok(());
        }
        if budget == 0 {
            return Err(CheckError::OutOfFuel);
        }
        let p = globals[i].param_num;
        let mut first: Vec<Expr> = Vec::new();
        std::mem::swap(&mut first, &mut expr.tail);
        let mut rest = first.split_off(p);
        proof {
            lemma_fits_shrinking(globals[i as int].def@, 0, p as nat, 0);
            assert(views(first@) =~= t0.args.take(p as int));
            assert(views(rest@) =~= t0.args.subrange(p as int, t0.args.len() as int));
        }
        let mut result = subst(&globals[i].def, 0, first.as_slice(), 0);
        let ghost r0 = result@;
        assert(r0 == unfolded(g, t0));
        proof {
            lemma_view_parts(result);
        }
        match eval_on(globals, &mut result.arrow_params, budget - 1) {
            Ok(()) => {},
            Err(e) => {
                return Err(e);
            },
        }
        match eval_on(globals, &mut result.tail, budget - 1) {
            Ok(()) => {},
            Err(e) => {
                return Err(e);
            },
        }
        let ghost rp = views(result.arrow_params@);
        let ghost ra = views(result.tail@);
        result.arrow_params.append(&mut expr.arrow_params);
        std::mem::swap(&mut expr.arrow_params, &mut result.arrow_params);
        expr.head = result.head;
        result.tail.append(&mut rest);
        std::mem::swap(&mut expr.tail, &mut result.tail);
        proof {
            lemma_view_parts(*expr);
            assert(expr@.params =~= rp + t0.params);
            assert(expr@.args =~= ra + t0.args.subrange(p as int, t0.args.len() as int));
            assert(expr@ == unfold_once(g, t0, rp, ra));
        }
        budget = budget - 1;
    }
}

/// `t` is in weak-head normal form, its parts are too, and `fuel` exceeds
/// its height.
pub open spec fn normal_at(g: Seq<Decl>, t: Term, fuel: nat) -> bool
    decreases t,
{
    &&& fuel > 0
    &&& forall|j: int| 0 <= j < t.params.len() ==> normal_at(g, #[trigger] t.params[j], (fuel - 1) as nat)
    &&& forall|j: int| 0 <= j < t.args.len() ==> normal_at(g, #[trigger] t.args[j], (fuel - 1) as nat)
    &&& !unfoldable(g, t)
}

proof fn lemma_normal_mono(g: Seq<Decl>, t: Term, f: nat, h: nat)
    requires
        normal_at(g, t, f),
        f <= h,
    ensures
        normal_at(g, t, h),
    decreases t,
{
    assert forall|j: int| 0 <= j < t.params.len() implies normal_at(g, #[trigger] t.params[j], (h - 1) as nat) by {
        lemma_normal_mono(g, t.params[j], (f - 1) as nat, (h - 1) as nat);
    }
    assert forall|j: int| 0 <= j < t.args.len() implies normal_at(g, #[trigger] t.args[j], (h - 1) as nat) by {
        lemma_normal_mono(g, t.args[j], (f - 1) as nat, (h - 1) as nat);
    }
}

/// A normal term evaluates to itself.
proof fn lemma_normal_fixed(g: Seq<Decl>, t: Term, f: nat)
    requires
        normal_at(g, t, f),
    ensures
        eval_term(g, t, f) == Some(t),
    decreases t,
{
    let f1 = (f - 1) as nat;
    assert forall|j: int| 0 <= j < t.params.len() implies (#[trigger] eval_term(g, t.params[j], f1)) == Some(t.params[j]) by {
        lemma_normal_fixed(g, t.params[j], f1);
    }
    assert forall|j: int| 0 <= j < t.args.len() implies (#[trigger] eval_term(g, t.args[j], f1)) == Some(t.args[j]) by {
        lemma_normal_fixed(g, t.args[j], f1);
    }
    lemma_eval_all(g, t.params, f1);
    lemma_eval_all(g, t.args, f1);
    assert forall|j: int| 0 <= j < t.params.len() implies (#[trigger] eval_term(g, t.params[j], f1)) is Some by {}
    assert forall|j: int| 0 <= j < t.args.len() implies (#[trigger] eval_term(g, t.args[j], f1)) is Some by {}
    let ps = eval_all(g, t.params, f1)->0;
    let ts = eval_all(g, t.args, f1)->0;
    assert forall|j: int| 0 <= j < t.params.len() implies ps[j] == t.params[j] by {
        assert(eval_term(g, t.params[j], f1) == Some(t.params[j]));
    }
    assert forall|j: int| 0 <= j < t.args.len() implies ts[j] == t.args[j] by {
        assert(eval_term(g, t.args[j], f1) == Some(t.args[j]));
    }
    assert(ps =~= t.params);
    assert(ts =~= t.args);
}

/// Whatever evaluation returns is normal at the budget it was given.
proof fn lemma_eval_normal(g: Seq<Decl>, t: Term, f: nat)
    requires
        eval_term(g, t, f) is Some,
    ensures
        normal_at(g, eval_term(g, t, f)->0, f),
    decreases f, 1nat, 0nat,
{
    let f1 = (f - 1) as nat;
    lemma_eval_all(g, t.params, f1);
    lemma_eval_all(g, t.args, f1);
    let ps = eval_all(g, t.params, f1)->0;
    let ts = eval_all(g, t.args, f1)->0;
    assert forall|j: int| 0 <= j < ps.len() implies normal_at(g, #[trigger] ps[j], f1) by {
        lemma_eval_normal(g, t.params[j], f1);
    }
    assert forall|j: int| 0 <= j < ts.len() implies normal_at(g, #[trigger] ts[j], f1) by {
        lemma_eval_normal(g, t.args[j], f1);
    }
    lemma_unfold_normal(g, Term { params: ps, head: t.head, args: ts }, f1, f);
}

proof fn lemma_unfold_normal(g: Seq<Decl>, t: Term, k: nat, f: nat)
    requires
        k < f,
        unfold(g, t, k) is Some,
        forall|j: int| 0 <= j < t.params.len() ==> normal_at(g, #[trigger] t.params[j], (f - 1) as nat),
        forall|j: int| 0 <= j < t.args.len() ==> normal_at(g, #[trigger] t.args[j], (f - 1) as nat),
    ensures
        normal_at(g, unfold(g, t, k)->0, f),
    decreases f, 0nat, k,
{
    if unfoldable(g, t) {
        let k1 = (k - 1) as nat;
        let r = unfolded(g, t);
        lemma_eval_all(g, r.params, k1);
        lemma_eval_all(g, r.args, k1);
        let rp = eval_all(g, r.params, k1)->0;
        let ra = eval_all(g, r.args, k1)->0;
        assert forall|j: int| 0 <= j < rp.len() implies normal_at(g, #[trigger] rp[j], (f - 1) as nat) by {
            lemma_eval_normal(g, r.params[j], k1);
            lemma_normal_mono(g, rp[j], k1, (f - 1) as nat);
        }
        assert forall|j: int| 0 <= j < ra.len() implies normal_at(g, #[trigger] ra[j], (f - 1) as nat) by {
            lemma_eval_normal(g, r.args[j], k1);
            lemma_normal_mono(g, ra[j], k1, (f - 1) as nat);
        }
        let n = unfold_once(g, t, rp, ra);
        let p = g[t.head->Global_0 as int].param_num as int;
        assert forall|j: int| 0 <= j < n.params.len() implies normal_at(g, #[trigger] n.params[j], (f - 1) as nat) by {
            if j >= rp.len() {
                assert(n.params[j] == t.params[j - rp.len()]);
            }
        }
        assert forall|j: int| 0 <= j < n.args.len() implies normal_at(g, #[trigger] n.args[j], (f - 1) as nat) by {
            if j >= ra.len() {
                assert(n.args[j] == t.args[j - ra.len() + p]);
            }
        }
        lemma_unfold_normal(g, n, k1, f);
    }
}

/// Evaluating an evaluated expression again, with the same budget, changes
/// nothing.
pub proof fn lemma_eval_idempotent(g: Seq<Decl>, e: Term, fuel: nat)
    requires
        eval_term(g, e, fuel) is Some,
    ensures
        eval_term(g, eval_term(g, e, fuel)->0, fuel) == eval_term(g, e, fuel),
{
    lemma_eval_normal(g, e, fuel);
    lemma_normal_fixed(g, eval_term(g, e, fuel)->0, fuel);
}

} // verus!
