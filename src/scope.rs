use vstd::prelude::*;

verus! {

/// A chain of frames. Each frame sees the first `prev_size` entries of its
/// parent, then its own entries. A frame pushed with `prev_size` equal to the
/// parent's size hides nothing; a smaller one (a shadow frame) reuses the
/// positions above it.
pub struct Context<'a, T> {
    pub prev_size: usize,
    pub prev: Option<&'a Context<'a, T>>,
    pub this: &'a [T],
}

/// Position of the last element equal to `x`.
pub open spec fn last_index<A>(s: Seq<A>, x: A) -> Option<int>
    decreases s.len(),
{
    if s.len() == 0 {
        None
    } else if s.last() == x {
        Some(s.len() - 1)
    } else {
        last_index(s.drop_last(), x)
    }
}

pub open spec fn names(s: Seq<String>) -> Seq<Seq<char>> {
    s.map_values(|x: String| x@)
}

pub proof fn lemma_last_index<A>(s: Seq<A>, x: A)
    ensures
        match last_index(s, x) {
            Some(i) => 0 <= i < s.len() && s[i] == x && forall|k: int| i < k < s.len() ==> s[k] != x,
            None => forall|k: int| 0 <= k < s.len() ==> s[k] != x,
        },
    decreases s.len(),
{
    if s.len() > 0 && s.last() != x {
        let t = s.drop_last();
        lemma_last_index(t, x);
        assert(forall|k: int| 0 <= k < s.len() - 1 ==> #[trigger] t[k] == s[k]);
        assert(s[s.len() - 1] != x);
        match last_index(t, x) {
            Some(i) => {
                assert forall|k: int| i < k < s.len() implies s[k] != x by {
                    if k < s.len() - 1 {
                        assert(t[k] == s[k]);
                    }
                }
            },
            None => {
                assert forall|k: int| 0 <= k < s.len() implies s[k] != x by {
                    if k < s.len() - 1 {
                        assert(t[k] == s[k]);
                    }
                }
            },
        }
    }
}

impl<'a, T> Context<'a, T> {
    /// Entries seen from this frame, outermost first.
    pub open spec fn view(&self) -> Seq<T>
        decreases self,
    {
        match self.prev {
            Some(p) => p.view().take(self.prev_size as int) + self.this@,
            None => self.this@,
        }
    }

    /// Every frame claims no more of its parent than the parent holds.
    pub open spec fn wf(&self) -> bool
        decreases self,
    {
        &&& self.prev_size + self.this@.len() <= usize::MAX
        &&& match self.prev {
            Some(p) => p.wf() && self.prev_size <= p.view().len(),
            None => self.prev_size == 0,
        }
    }

    /// No frame shadows: each one sees the whole of its parent.
    pub open spec fn unshadowed(&self) -> bool
        decreases self,
    {
        match self.prev {
            Some(p) => p.unshadowed() && self.prev_size == p.view().len(),
            None => true,
        }
    }

    pub open spec fn depth(&self) -> nat
        decreases self,
    {
        match self.prev {
            Some(p) => p.depth() + 1,
            None => 0,
        }
    }

    pub proof fn lemma_len(&self)
        requires
            self.wf(),
        ensures
            self@.len() == self.prev_size + self.this@.len(),
        decreases self,
    {
    }

    pub fn new(this: &'a [T]) -> (r: Self)
        ensures
            r.wf(),
            r.unshadowed(),
            r@ == this@,
    {
        let len = this.len();
        assert(len == this@.len());
        Context { this, prev_size: 0, prev: None }
    }

    pub fn push(&'a self, next: &'a [T]) -> (r: Self)
        requires
            self.wf(),
            self@.len() + next@.len() <= usize::MAX,
        ensures
            r.wf(),
            self.unshadowed() ==> r.unshadowed(),
            r@ == self@ + next@,
    {
        let s = self.size();
        assert(self@.take(s as int) =~= self@);
        self.push_shadowed(next, s)
    }

    /// A frame that sees only the first `unshadowed` entries of `self`.
    pub fn push_shadowed(&'a self, next: &'a [T], unshadowed: usize) -> (r: Self)
        requires
            self.wf(),
            unshadowed <= self@.len(),
            unshadowed + next@.len() <= usize::MAX,
        ensures
            r.wf(),
            r@ == self@.take(unshadowed as int) + next@,
            r.prev == Some(self),
            r.this == next,
            r.prev_size == unshadowed,
            self.unshadowed() && unshadowed == self@.len() ==> r.unshadowed(),
    {
        Context { prev_size: unshadowed, prev: Some(self), this: next }
    }

    pub fn size(&self) -> (r: usize)
        requires
            self.wf(),
        ensures
            r == self@.len(),
    {
        proof {
            self.lemma_len();
        }
        self.prev_size + self.this.len()
    }

    pub fn value_from_index(&'a self, index: usize) -> (r: &'a T)
        requires
            self.wf(),
            index < self@.len(),
        ensures
            *r == self@[index as int],
    {
        let mut curr = self;
        loop
            invariant
                curr.wf(),
                index < curr@.len(),
                curr@[index as int] == self@[index as int],
            decreases curr.depth(),
        {
            proof {
                curr.lemma_len();
            }
            if index < curr.prev_size {
                match curr.prev {
                    Some(p) => {
                        curr = p;
                    },
                    None => {
                        return &curr.this[index];
                    },
                }
            } else {
                return &curr.this[index - curr.prev_size];
            }
        }
    }
}

/// Index lookups in a frame pushed over a parent: below the frame's
/// previous size they land in the parent, from there on in the frame's own
/// entries, whatever previous size (up to the parent's size) was chosen.
pub proof fn lemma_shadow_lookup<'a, T>(ctx: &Context<'a, T>, i: int)
    requires
        ctx.wf(),
        ctx.prev is Some,
        0 <= i < ctx@.len(),
    ensures
        i < ctx.prev_size ==> ctx@[i] == ctx.prev->0@[i],
        i >= ctx.prev_size ==> ctx@[i] == ctx.this@[i - ctx.prev_size],
{
}

impl<'a> Context<'a, String> {
    /// Position of the innermost entry equal to `name`, counted as the frame
    /// that holds it counts; within a frame the last entry wins.
    pub open spec fn lookup(&self, name: Seq<char>) -> Option<int>
        decreases self,
    {
        match last_index(names(self.this@), name) {
            Some(j) => Some(j + self.prev_size),
            None => match self.prev {
                Some(p) => p.lookup(name),
                None => None,
            },
        }
    }

    pub fn index_from_value(&self, name: &String) -> (r: Option<usize>)
        requires
            self.wf(),
        ensures
            match r {
                Some(i) => self.lookup(name@) == Some(i as int),
                None => self.lookup(name@) is None,
            },
    {
        let mut curr = self;
        loop
            invariant
                curr.wf(),
                self.lookup(name@) == curr.lookup(name@),
            decreases curr.depth(),
        {
            match get_index(curr.this, name) {
                Some(j) => {
                    proof {
                        lemma_last_index(names(curr.this@), name@);
                    }
                    return Some(j + curr.prev_size);
                },
                None => {},
            }
            match curr.prev {
                Some(p) => {
                    curr = p;
                },
                None => {
                    return None;
                },
            }
        }
    }
}

/// Position of the last name equal to `name`.
pub fn get_index(names_in: &[String], name: &String) -> (r: Option<usize>)
    ensures
        match r {
            Some(i) => last_index(names(names_in@), name@) == Some(i as int),
            None => last_index(names(names_in@), name@) is None,
        },
{
    let ghost all = names(names_in@);
    let mut result: usize = names_in.len();
    assert(all.take(result as int) =~= all);
    while result > 0
        invariant
            result <= names_in@.len(),
            all == names(names_in@),
            last_index(all, name@) == last_index(all.take(result as int), name@),
        decreases result,
    {
        let ghost before = all.take(result as int);
        result -= 1;
        assert(before.drop_last() =~= all.take(result as int));
        if names_in[result] == *name {
            return Some(result);
        }
    }
    assert(all.take(0) =~= Seq::<Seq<char>>::empty());
    None
}

/// `get_index` on the names of an environment.
pub fn get_index_names(names_in: &Vec<String>, name: &String) -> (r: Option<usize>)
    ensures
        match r {
            Some(i) => last_index(names(names_in@), name@) == Some(i as int),
            None => last_index(names(names_in@), name@) is None,
        },
{
    get_index(names_in.as_slice(), name)
}

/// Looking a name up and then reading the entry at the position found gives
/// back the entry that was pushed, the innermost and last one, in a chain
/// without shadow frames; a name not found is in no frame.
pub proof fn lemma_scope_round_trip<'a>(ctx: &Context<'a, String>, name: Seq<char>)
    requires
        ctx.wf(),
        ctx.unshadowed(),
    ensures
        match ctx.lookup(name) {
            Some(i) => {
                &&& 0 <= i < ctx@.len()
                &&& ctx@[i]@ == name
                &&& forall|k: int| i < k < ctx@.len() ==> ctx@[k]@ != name
            },
            None => forall|k: int| 0 <= k < ctx@.len() ==> ctx@[k]@ != name,
        },
    decreases ctx,
{
    let own = names(ctx.this@);
    lemma_last_index(own, name);
    ctx.lemma_len();
    match ctx.prev {
        Some(p) => {
            lemma_scope_round_trip(p, name);
            assert(p@.take(ctx.prev_size as int) =~= p@);
            assert(ctx@ =~= p@ + ctx.this@);
            assert forall|k: int| 0 <= k < ctx@.len() implies (#[trigger] ctx@[k])@ == if k < ctx.prev_size {
                p@[k]@
            } else {
                own[k - ctx.prev_size]
            } by {
                if k >= ctx.prev_size {
                    assert(own[k - ctx.prev_size] == ctx.this@[k - ctx.prev_size]@);
                }
            }
        },
        None => {
            assert forall|k: int| 0 <= k < ctx@.len() implies (#[trigger] ctx@[k])@ == own[k] by {
                assert(own[k] == ctx.this@[k]@);
            }
        },
    }
}

} // verus!

verus! {

/// In a chain without shadow frames, a name lookup finds the last entry of
/// that name in the whole chain.
pub proof fn lemma_lookup_flat<'a>(ctx: &Context<'a, String>, name: Seq<char>)
    requires
        ctx.wf(),
        ctx.unshadowed(),
    ensures
        ctx.lookup(name) == last_index(names(ctx@), name),
{
    let all = names(ctx@);
    lemma_scope_round_trip(ctx, name);
    lemma_last_index(all, name);
    assert(forall|k: int| 0 <= k < ctx@.len() ==> #[trigger] all[k] == ctx@[k]@);
    match (ctx.lookup(name), last_index(all, name)) {
        (Some(i), Some(j)) => {
            if i < j {
                assert(all[j] == name);
            } else if j < i {
                assert(all[i] == name);
            }
        },
        (Some(i), None) => {
            assert(all[i] == name);
        },
        (None, Some(j)) => {
            assert(ctx@[j]@ == name);
        },
        (None, None) => {},
    }
}

} // verus!
