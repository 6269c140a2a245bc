use vstd::prelude::*;
use crate::term::{Expr, Ident, Term, views, lemma_view_parts};

verus! {

/// Substitution on models. `t` lives under `a` base locals, `args.len()`
/// substituted locals and any number of deeper ones; `args` live under `n`
/// locals. Base locals stay, substituted ones are replaced (the replacement's
/// parameters and arguments go in front of the occurrence's own), deeper ones
/// are renumbered to start at `n`.
pub open spec fn subst_term(t: Term, a: nat, args: Seq<Term>, n: nat) -> Term
    decreases t, 1nat,
{
    let ps = subst_all(t.params, a, args, n);
    let ts = subst_all(t.args, a, args, n);
    match t.head {
        Ident::Local(i) => {
            if i < a {
                Term { params: ps, head: t.head, args: ts }
            } else if i - a < args.len() {
                let r = args[i - a];
                Term { params: r.params + ps, head: r.head, args: r.args + ts }
            } else {
                Term {
                    params: ps,
                    head: Ident::Local((n + (i - a - args.len())) as usize),
                    args: ts,
                }
            }
        },
        _ => Term { params: ps, head: t.head, args: ts },
    }
}

/// `subst_term` on each element.
pub open spec fn subst_all(s: Seq<Term>, a: nat, args: Seq<Term>, n: nat) -> Seq<Term>
    decreases s, 0nat,
{
    Seq::new(
        s.len(),
        |j: int|
            if 0 <= j < s.len() {
                subst_term(s[j], a, args, n)
            } else {
                arbitrary()
            },
    )
}

/// Every renumbered local of `t` still fits in a `usize`.
pub open spec fn fits(t: Term, a: nat, m: nat, n: nat) -> bool
    decreases t,
{
    &&& forall|j: int| 0 <= j < t.params.len() ==> fits(#[trigger] t.params[j], a, m, n)
    &&& forall|j: int| 0 <= j < t.args.len() ==> fits(#[trigger] t.args[j], a, m, n)
    &&& match t.head {
        Ident::Local(i) => i >= a + m ==> n + (i - a - m) <= usize::MAX,
        _ => true,
    }
}

/// Renumbering never overflows when the new context is no larger than the
/// base and substituted locals together.
pub proof fn lemma_fits_shrinking(t: Term, a: nat, m: nat, n: nat)
    requires
        n <= a + m,
    ensures
        fits(t, a, m, n),
    decreases t,
{
    assert forall|j: int| 0 <= j < t.params.len() implies fits(#[trigger] t.params[j], a, m, n) by {
        lemma_fits_shrinking(t.params[j], a, m, n);
    }
    assert forall|j: int| 0 <= j < t.args.len() implies fits(#[trigger] t.args[j], a, m, n) by {
        lemma_fits_shrinking(t.args[j], a, m, n);
    }
}

/// Substituting no replacements with equal base and argument context sizes
/// leaves any expression unchanged.
pub proof fn lemma_subst_identity(t: Term, c: nat)
    ensures
        subst_term(t, c, Seq::empty(), c) == t,
    decreases t,
{
    let r = subst_term(t, c, Seq::empty(), c);
    assert(r.params == subst_all(t.params, c, Seq::empty(), c));
    assert forall|j: int| 0 <= j < t.params.len() implies subst_term(t.params[j], c, Seq::empty(), c)
        == t.params[j] by {
        lemma_subst_identity(t.params[j], c);
    }
    assert forall|j: int| 0 <= j < t.args.len() implies subst_term(t.args[j], c, Seq::empty(), c)
        == t.args[j] by {
        lemma_subst_identity(t.args[j], c);
    }
    assert(r.params =~= t.params);
    assert(r.args =~= t.args);
}

/// Checks `fits` on an expression.
pub fn fits_in(base: &Expr, a: usize, m: usize, n: usize) -> (r: bool)
    ensures
        r == fits(base@, a as nat, m as nat, n as nat),
    decreases base,
{
    proof {
        lemma_view_parts(*base);
    }
    let mut i: usize = 0;
    while i < base.arrow_params.len()
        invariant
            i <= base.arrow_params.len(),
            base@.params == views(base.arrow_params@),
            forall|j: int| 0 <= j < i ==> fits(#[trigger] base@.params[j], a as nat, m as nat, n as nat),
        decreases base.arrow_params.len() - i,
    {
        assert(decreases_to!(base => base.arrow_params[i as int]));
        if !fits_in(&base.arrow_params[i], a, m, n) {
            assert(base@.params[i as int] == base.arrow_params@[i as int]@);
            return false;
        }
        i += 1;
    }
    let mut i: usize = 0;
    while i < base.tail.len()
        invariant
            i <= base.tail.len(),
            base@.args == views(base.tail@),
            forall|j: int| 0 <= j < i ==> fits(#[trigger] base@.args[j], a as nat, m as nat, n as nat),
        decreases base.tail.len() - i,
    {
        assert(decreases_to!(base => base.tail[i as int]));
        if !fits_in(&base.tail[i], a, m, n) {
            assert(base@.args[i as int] == base.tail@[i as int]@);
            return false;
        }
        i += 1;
    }
    match base.head {
        Ident::Local(i) => {
            if i as u128 >= a as u128 + m as u128 {
                n as u128 + (i as u128 - a as u128 - m as u128) <= usize::MAX as u128
            } else {
                true
            }
        },
        _ => true,
    }
}

fn subst_on(xs: &Vec<Expr>, a: usize, args: &[Expr], n: usize) -> (r: Vec<Expr>)
    requires
        forall|j: int| 0 <= j < xs.len() ==> fits(#[trigger] xs@[j]@, a as nat, args@.len(), n as nat),
    ensures
        r@.len() == xs@.len(),
        forall|j: int| 0 <= j < xs.len() ==> #[trigger] r@[j]@ == subst_term(xs@[j]@, a as nat, views(args@), n as nat),
    decreases xs,
{
    let mut r: Vec<Expr> = Vec::new();
    let mut i: usize = 0;
    while i < xs.len()
        invariant
            i <= xs.len(),
            r@.len() == i,
            forall|j: int| 0 <= j < xs.len() ==> fits(#[trigger] xs@[j]@, a as nat, args@.len(), n as nat),
            forall|j: int| 0 <= j < i ==> #[trigger] r@[j]@ == subst_term(xs@[j]@, a as nat, views(args@), n as nat),
        decreases xs.len() - i,
    {
        assert(decreases_to!(xs => xs[i as int]));
        r.push(subst(&xs[i], a, args, n));
        i += 1;
    }
    r
}

/// Executable substitution: its model is `subst_term` on the models.
pub fn subst(base: &Expr, base_ctx_size: usize, args: &[Expr], arg_ctx_size: usize) -> (r: Expr)
    requires
        fits(base@, base_ctx_size as nat, args@.len(), arg_ctx_size as nat),
    ensures
        r@ == subst_term(base@, base_ctx_size as nat, views(args@), arg_ctx_size as nat),
    decreases base,
{
    proof {
        lemma_view_parts(*base);
    }
    let ghost a = base_ctx_size as nat;
    let ghost n = arg_ctx_size as nat;
    let ghost vargs = views(args@);
    assert forall|j: int| 0 <= j < base.arrow_params.len() implies fits(
        #[trigger] base.arrow_params@[j]@, a, args@.len(), n) by {
        assert(base@.params[j] == base.arrow_params@[j]@);
    }
    assert forall|j: int| 0 <= j < base.tail.len() implies fits(
        #[trigger] base.tail@[j]@, a, args@.len(), n) by {
        assert(base@.args[j] == base.tail@[j]@);
    }
    let mut arrow_params = subst_on(&base.arrow_params, base_ctx_size, args, arg_ctx_size);
    let mut tail = subst_on(&base.tail, base_ctx_size, args, arg_ctx_size);
    let ghost ps = views(arrow_params@);
    let ghost ts = views(tail@);
    assert(ps =~= subst_all(base@.params, a, vargs, n));
    assert(ts =~= subst_all(base@.args, a, vargs, n));
    let head;
    match base.head {
        Ident::Local(i) => {
            if i < base_ctx_size {
                head = Ident::Local(i);
            } else if i - base_ctx_size < args.len() {
                let mut result = args[i - base_ctx_size].duplicate();
                proof {
                    lemma_view_parts(result);
                    assert(vargs[i - a] == args@[i - a]@);
                }
                result.arrow_params.append(&mut arrow_params);
                arrow_params = result.arrow_params;
                head = result.head;
                result.tail.append(&mut tail);
                tail = result.tail;
                proof {
                    assert(views(arrow_params@) =~= vargs[i - a].params + ps);
                    assert(views(tail@) =~= vargs[i - a].args + ts);
                }
            } else {
                let e = i - (base_ctx_size + args.len());
                head = Ident::Local(arg_ctx_size + e);
            }
        },
        _ => head = base.head,
    }
    let r = Expr { arrow_params, head, tail };
    proof {
        lemma_view_parts(r);
    }
    r
}

} // verus!
