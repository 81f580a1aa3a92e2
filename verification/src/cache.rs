//! A memoizing wrapper around a pure single-argument function.
//!
//! [`FnCacher`] owns a function and a cache of previously computed
//! results, keyed by the argument values already seen. Arguments are
//! compared by their mathematical value (their [`View`]), so the cache
//! holds at most one entry per distinct argument value, and a repeated
//! query returns the stored result without running the function again.

use vstd::prelude::*;
use core::hash::Hash;

verus! {

/// `FnCacher` caches the results of a high-cost function using the
/// design patterns of memoization and lazy evaluation.
///
/// The wrapped function is assumed pure: whether a particular cacher
/// deserves its name is expressed through [`deterministic`], which says
/// that every result the function can return for an argument agrees
/// with a single mathematical model of the function.
///
/// Keys are borrowed from the caller for the lifetime `'a`, as the
/// results map only stores references to the queried arguments.
#[verifier::reject_recursive_types(R)]
pub struct FnCacher<'a, F, T, R> where F: Fn(&T) -> R, T: Eq + Hash {
    function: F,
    keys: Vec<&'a T>,
    results: Vec<R>,
}

/// `f` behaves as the mathematical function `m` on argument values:
/// any result it can return for an argument `x` equals `m(x@)`.
///
/// This is what it means for `f` to be pure and deterministic up to
/// the value (the view) of its argument.
pub open spec fn deterministic<T: View, R, F: Fn(&T) -> R>(f: F, m: spec_fn(T::V) -> R) -> bool {
    forall|x: &T, y: R| #[trigger] call_ensures(f, (x,), y) ==> y == m(x@)
}

/// `r` is a result that `f` can return for some argument whose value
/// (view) is `v`.
pub open spec fn output_for<T: View, R, F: Fn(&T) -> R>(f: F, v: T::V, r: R) -> bool {
    exists|x: &T| x@ == v && #[trigger] call_ensures(f, (x,), r)
}

/// Law: a deterministic function admits only the model's value as a
/// result for a given argument value. Every result a cacher over `f`
/// can hand out for a key of value `v` — on the first call or on any
/// repetition — therefore equals `m(v)`.
pub proof fn lemma_deterministic_result<T: View, R, F: Fn(&T) -> R>(
    f: F,
    m: spec_fn(T::V) -> R,
    v: T::V,
    r: R,
)
    requires
        deterministic(f, m),
        output_for(f, v, r),
    ensures
        r == m(v),
{
    let x = choose|x: &T| x@ == v && #[trigger] call_ensures(f, (x,), r);
    assert(r == m(x@));
}

impl<'a, F, T, R> FnCacher<'a, F, T, R> where F: Fn(&T) -> R, T: Eq + Hash + View {
    /// The wrapped function.
    pub closed spec fn func(self) -> F {
        self.function
    }

    /// How many entries the cache currently holds.
    pub closed spec fn num_cached(self) -> nat {
        self.keys@.len()
    }

    /// Whether some already-queried key has value `v`.
    pub closed spec fn contains_key(self, v: T::V) -> bool {
        exists|i: int| 0 <= i < self.keys@.len() && self.keys@[i]@ == v
    }

    /// The index of the cache entry whose key has value `v`.
    pub closed spec fn key_index(self, v: T::V) -> int {
        choose|i: int| 0 <= i < self.keys@.len() && self.keys@[i]@ == v
    }

    /// The cache as a map from argument values to stored results.
    pub closed spec fn cached(self) -> Map<T::V, R> {
        Map::new(|v: T::V| self.contains_key(v), |v: T::V| self.results@[self.key_index(v)])
    }

    /// Internal well-formedness: keys and results line up, each
    /// distinct key value occupies at most one entry, and every stored
    /// result is one the wrapped function can return for its key.
    pub closed spec fn wf(self) -> bool {
        &&& self.keys@.len() == self.results@.len()
        &&& forall|i: int, j: int|
            0 <= i < j < self.keys@.len() ==> self.keys@[i]@ != self.keys@[j]@
        &&& forall|i: int|
            0 <= i < self.keys@.len() ==> #[trigger] call_ensures(
                self.function,
                (self.keys@[i],),
                self.results@[i],
            )
    }

    /// `new` constructs a `FnCacher` with `function` and an empty cache.
    pub fn new(function: F) -> (c: Self)
        ensures
            c.wf(),
            c.func() == function,
            c.num_cached() == 0,
            forall|v: T::V| !c.contains_key(v),
            c.cached() == Map::<T::V, R>::empty(),
    {
        let c = FnCacher { function, keys: Vec::new(), results: Vec::new() };
        proof {
            assert(c.cached() =~= Map::<T::V, R>::empty());
        }
        c
    }

    /// Any entry index whose key has value `v` is `key_index(v)`: the
    /// keys are distinct, so the index is unique.
    proof fn lemma_key_index_unique(self, v: T::V, i: int)
        requires
            self.wf(),
            0 <= i < self.keys@.len(),
            self.keys@[i]@ == v,
        ensures
            self.key_index(v) == i,
    {
        let j = self.key_index(v);
        if i < j {
            assert(self.keys@[i]@ != self.keys@[j]@);
        } else if j < i {
            assert(self.keys@[j]@ != self.keys@[i]@);
        }
    }

    /// Scans the stored keys for one equal to `arg`.
    fn lookup_index(&self, arg: &T) -> (idx: Option<usize>)
        requires
            vstd::laws_eq::obeys_view_eq::<T>(),
        ensures
            match idx {
                Some(i) => 0 <= i < self.keys@.len() && self.keys@[i as int]@ == arg@,
                None => !self.contains_key(arg@),
            },
    {
        proof {
            reveal(vstd::laws_eq::obeys_view_eq);
        }
        let n = self.keys.len();
        let mut i: usize = 0;
        while i < n
            invariant
                vstd::laws_eq::obeys_view_eq::<T>(),
                n == self.keys@.len(),
                0 <= i <= n,
                forall|j: int| 0 <= j < i ==> self.keys@[j]@ != arg@,
            decreases n - i,
        {
            proof {
                reveal(vstd::laws_eq::obeys_view_eq);
            }
            let k: &T = self.keys[i];
            if *k == *arg {
                return Some(i);
            }
            i = i + 1;
        }
        None
    }

    /// `call` returns the cached result if one exists for a key equal
    /// to `arg`. Otherwise, it invokes the wrapped function once with
    /// `arg`, stores the result, and returns it.
    pub fn call(&mut self, arg: &'a T) -> (r: &R)
        requires
            old(self).wf(),
            vstd::laws_eq::obeys_view_eq::<T>(),
            !old(self).contains_key(arg@) ==> call_requires(old(self).func(), (arg,)),
        ensures
            final(self).wf(),
            final(self).func() == old(self).func(),
            final(self).contains_key(arg@),
            output_for(final(self).func(), arg@, *r),
            final(self).cached() == old(self).cached().insert(arg@, *r),
            old(self).contains_key(arg@) ==> *final(self) == *old(self) && *r == old(
                self,
            ).cached()[arg@],
            !old(self).contains_key(arg@) ==> call_ensures(final(self).func(), (arg,), *r)
                && final(self).num_cached() == old(self).num_cached() + 1,
    {
        let idx: usize;
        match self.lookup_index(arg) {
            Some(i) => {
                idx = i;
                proof {
                    self.lemma_key_index_unique(arg@, i as int);
                    assert(self.cached()[arg@] == self.results@[i as int]);
                    let ghost stored = self.results@[i as int];
                    assert(self.cached() =~= old(self).cached().insert(arg@, stored));
                    assert(call_ensures(self.function, (self.keys@[i as int],), stored));
                    assert(output_for(self.func(), arg@, stored));
                }
            },
            None => {
                let result = (self.function)(arg);
                self.keys.push(arg);
                self.results.push(result);
                idx = self.keys.len() - 1;
                proof {
                    let ghost n = old(self).keys@.len() as int;
                    assert(self.keys@ == old(self).keys@.push(arg));
                    assert forall|v: T::V| self.contains_key(v) implies (old(
                        self,
                    ).contains_key(v) || v == arg@) by {
                        let i = choose|i: int|
                            0 <= i < self.keys@.len() && self.keys@[i]@ == v;
                        if i < n {
                            assert(old(self).keys@[i]@ == v);
                        }
                    }
                    assert forall|v: T::V| old(self).contains_key(v) implies self.contains_key(
                        v,
                    ) by {
                        let i = choose|i: int|
                            0 <= i < old(self).keys@.len() && old(self).keys@[i]@ == v;
                        assert(self.keys@[i]@ == v);
                    }
                    assert(self.keys@[n]@ == arg@);
                    self.lemma_key_index_unique(arg@, n);
                    assert forall|v: T::V| old(self).contains_key(v) implies self.cached()[v]
                        == old(self).cached()[v] by {
                        let i = old(self).key_index(v);
                        assert(old(self).keys@[i]@ == v);
                        assert(self.keys@[i]@ == v);
                        self.lemma_key_index_unique(v, i);
                    }
                    assert(self.cached() =~= old(self).cached().insert(arg@, self.results@[n]));
                    assert(call_ensures(self.function, (self.keys@[n],), self.results@[n]));
                    assert(output_for(self.func(), arg@, self.results@[n]));
                }
            },
        }
        &self.results[idx]
    }

    /// Law: caching a result for one key value leaves every other key
    /// value's entry untouched: whether `b` is cached, and what is
    /// stored for it, are the same before and after.
    pub proof fn lemma_per_key_isolation(pre: Self, post: Self, a: T::V, r: R, b: T::V)
        requires
            post.cached() == pre.cached().insert(a, r),
            b != a,
        ensures
            post.cached().contains_key(b) == pre.cached().contains_key(b),
            pre.cached().contains_key(b) ==> post.cached()[b] == pre.cached()[b],
    {
    }

    /// Law: under a deterministic function, no cached entry is ever
    /// stale — each one holds exactly the model's value for its key.
    pub proof fn lemma_cache_never_stale(self, m: spec_fn(T::V) -> R, v: T::V)
        requires
            self.wf(),
            deterministic(self.func(), m),
            self.cached().contains_key(v),
        ensures
            self.cached()[v] == m(v),
    {
        assert(self.contains_key(v));
        let i = self.key_index(v);
        assert(0 <= i < self.keys@.len() && self.keys@[i]@ == v);
        assert(call_ensures(self.function, (self.keys@[i],), self.results@[i]));
        assert(self.results@[i] == m(v));
    }

    /// The key values of the first `n` entries, as a set.
    spec fn key_views_upto(self, n: int) -> Set<T::V> {
        Set::new(|v: T::V| exists|i: int| 0 <= i < n && self.keys@[i]@ == v)
    }

    proof fn lemma_key_views_upto_card(self, n: int)
        requires
            self.wf(),
            0 <= n <= self.keys@.len(),
        ensures
            self.key_views_upto(n).finite(),
            self.key_views_upto(n).len() == n,
        decreases n,
    {
        if n == 0 {
            assert(self.key_views_upto(0) =~= Set::empty());
        } else {
            self.lemma_key_views_upto_card(n - 1);
            let last = self.keys@[n - 1]@;
            assert(!self.key_views_upto(n - 1).contains(last));
            assert(self.key_views_upto(n) =~= self.key_views_upto(n - 1).insert(last));
        }
    }

    /// Law: the cache holds exactly one entry per distinct key value
    /// queried so far — after `k` distinct key values the map has
    /// exactly `k` entries, however many calls were made in total.
    pub proof fn lemma_one_entry_per_key(self)
        requires
            self.wf(),
        ensures
            self.cached().dom().finite(),
            self.cached().dom().len() == self.num_cached(),
    {
        let n = self.keys@.len() as int;
        self.lemma_key_views_upto_card(n);
        assert(self.cached().dom() =~= self.key_views_upto(n));
    }
}

} // verus!
