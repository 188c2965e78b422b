use vstd::prelude::*;

use crate::combo::{
    binom, bump, first_tuple, lemma_count, increasing, lemma_done_iff_first_full, lemma_stream_is_walk,
    lemma_succ_step, open_at, stream, succ, walk, within,
};
use crate::lazy_buffer::{filled, LazyBuffer};
use vstd::std_specs::iter::IteratorSpec;

verus! {

/// `v` holds, in order, clones of the pool items at `positions`.
pub open spec fn picks<T: Clone>(v: Seq<T>, items: Seq<T>, positions: Seq<int>) -> bool {
    &&& v.len() == positions.len()
    &&& forall|t: int| 0 <= t < v.len() ==> cloned(items[positions[t]], #[trigger] v[t])
}

/// Draws, one call at a time, every `k`-length combination of the items of a
/// producer, in lexicographic order of their positions. The producer is read
/// only as far as the combinations need.
pub struct Arrrangement<I: Iterator> {
    indices: Vec<usize>,
    pool: LazyBuffer<I>,
    first: bool,
    n: usize,
    k: usize,
    i: usize,
    j: usize,
}

/// Starts drawing the `k`-length combinations of the items of `iter`.
pub fn arrangement<I: Iterator>(iter: I, k: usize) -> (r: Arrrangement<I>)
    ensures
        r.wf(),
        r.combo_len() == k,
        !r.primed(),
        r.positions() == first_tuple(k as nat),
        r.positions().len() == k,
        r.items() == Seq::<I::Item>::empty(),
        !r.exhausted(),
        r.producer() == iter,
        r.lawful() == iter.obeys_prophetic_iter_laws(),
{
    let mut indices: Vec<usize> = Vec::new();
    let mut t: usize = 0;
    while t < k
        invariant
            t <= k,
            indices@.len() == t,
            forall|s: int| 0 <= s < t ==> indices@[s] == s,
        decreases k - t,
    {
        indices.push(t);
        t += 1;
    }
    let r = Arrrangement {
        n: k,
        pool: LazyBuffer::new(iter),
        k,
        i: if k > 0 { k - 1 } else { 0 },
        j: k,
        first: true,
        indices,
    };
    proof {
        assert(r.positions() =~= first_tuple(k as nat));
    }
    r
}

impl<I: Iterator> Arrrangement<I> {
    /// The positions of the current combination.
    pub closed spec fn positions(&self) -> Seq<int> {
        self.indices@.map_values(|x: usize| x as int)
    }

    /// The configured combination length.
    pub closed spec fn combo_len(&self) -> nat {
        self.k as nat
    }

    /// The items pulled from the producer so far.
    pub closed spec fn items(&self) -> Seq<I::Item> {
        self.pool@
    }

    /// Whether the producer has reported that it holds no more items.
    pub closed spec fn exhausted(&self) -> bool {
        self.pool.exhausted()
    }

    /// The producer, in the state it has been read up to.
    pub closed spec fn producer(&self) -> I {
        self.pool.producer()
    }

    /// The producer hands out its items in the order its specification
    /// announces.
    pub closed spec fn lawful(&self) -> bool {
        self.pool.lawful()
    }

    /// Whether the first combination since construction or the last reset
    /// has been asked for.
    pub closed spec fn primed(&self) -> bool {
        !self.first
    }

    proof fn lemma_positions(&self)
        ensures
            self.positions().len() == self.indices@.len(),
            forall|t: int|
                0 <= t < self.indices@.len() ==> #[trigger] self.positions()[t]
                    == self.indices@[t] as int,
    {
    }

    /// The positions form a combination of the pool once it is primed, and
    /// the first one before that.
    pub closed spec fn wf(&self) -> bool {
        &&& self.indices@.len() == self.k
        &&& increasing(self.positions())
        &&& self.k > 0 ==> self.i == self.k - 1
        &&& self.first ==> self.positions() == first_tuple(self.k as nat)
        &&& !self.first ==> self.n == self.pool@.len()
        &&& !self.first && self.k > 0 ==> within(self.positions(), self.n as int) || (
        self.pool.exhausted() && self.n < self.k)
    }

    /// Returns the length of a combination produced by this generator.
    pub fn k(&self) -> (r: usize)
        ensures
            r == self.combo_len(),
    {
        self.k
    }

    /// Returns the current length of the pool from which combination
    /// elements are selected; it can grow between calls of `next`.
    pub fn n(&self) -> (r: usize)
        ensures
            r == self.items().len(),
    {
        self.pool.len()
    }

    /// Returns the pool of items pulled so far.
    pub fn src(&self) -> (r: &LazyBuffer<I>)
        ensures
            r@ == self.items(),
            r.exhausted() == self.exhausted(),
    {
        &self.pool
    }

    /// Starts over with combinations of length `k` on the same pool, without
    /// rewinding the producer. A longer length first asks the pool to hold at
    /// least `k` items.
    pub fn reset(&mut self, k: usize)
        requires
            old(self).wf(),
        ensures
            final(self).wf(),
            final(self).combo_len() == k,
            !final(self).primed(),
            final(self).positions() == first_tuple(k as nat),
            final(self).positions().len() == k,
            final(self).lawful() == old(self).lawful(),
            final(self).items().len() >= old(self).items().len(),
            final(self).items().subrange(0, old(self).items().len() as int) == old(self).items(),
            k < old(self).combo_len() || old(self).exhausted() ==> final(self).items() == old(self).items() && final(self).producer() == old(self).producer()
                && final(self).exhausted() == old(self).exhausted(),
            k >= old(self).combo_len() ==> final(self).items().len() >= k || final(self).exhausted(),
            k >= old(self).combo_len() && !old(self).exhausted() && old(self).lawful() ==> filled(
                old(self).items(),
                IteratorSpec::remaining(&old(self).producer()),
                k as int,
                final(self).items(),
                IteratorSpec::remaining(&final(self).producer()),
                final(self).exhausted(),
            ),
    {
        self.first = true;
        let len = self.indices.len();
        let ghost pool = self.pool;
        if k < len {
            self.indices.truncate(k);
            let mut t: usize = 0;
            while t < k
                invariant
                    t <= k,
                    self.indices@.len() == k,
                    forall|s: int| 0 <= s < t ==> self.indices@[s] == s,
                    self.first,
                    self.pool == pool,
                    pool == old(self).pool,
                decreases k - t,
            {
                self.indices.set(t, t);
                t += 1;
            }
        } else {
            let mut t: usize = 0;
            while t < len
                invariant
                    t <= len,
                    len == self.indices@.len(),
                    forall|s: int| 0 <= s < t ==> self.indices@[s] == s,
                    self.first,
                    self.pool == pool,
                    pool == old(self).pool,
                decreases len - t,
            {
                self.indices.set(t, t);
                t += 1;
            }
            while t < k
                invariant
                    len <= t <= k,
                    self.indices@.len() == t,
                    forall|s: int| 0 <= s < t ==> self.indices@[s] == s,
                    self.first,
                    self.pool == pool,
                    pool == old(self).pool,
                decreases k - t,
            {
                self.indices.push(t);
                t += 1;
            }
            self.pool.prefill(k);
        }
        self.k = k;
        self.i = if k > 0 { k - 1 } else { 0 };
        proof {
            assert(self.positions() =~= first_tuple(k as nat));
        }
    }
}

impl<I: Iterator> Arrrangement<I> where I::Item: Clone {
    fn combination(&self) -> (r: Vec<I::Item>)
        requires
            within(self.positions(), self.pool@.len() as int),
        ensures
            picks(r@, self.items(), self.positions()),
    {
        proof {
            self.lemma_positions();
            assert forall|t: int| 0 <= t < self.indices@.len() implies #[trigger] self.indices@[t]
                < self.pool@.len() by {
                assert(self.positions()[t] == self.indices@[t] as int);
            }
        }
        let mut v: Vec<I::Item> = Vec::new();
        let mut t: usize = 0;
        while t < self.indices.len()
            invariant
                t <= self.indices@.len(),
                v@.len() == t,
                forall|t: int| 0 <= t < self.indices@.len() ==> self.indices@[t] < self.pool@.len(),
                forall|s: int|
                    0 <= s < t ==> cloned(self.pool@[self.indices@[s] as int], #[trigger] v@[s]),
            decreases self.indices@.len() - t,
        {
            v.push(self.pool.get(self.indices[t]));
            t += 1;
        }
        proof {
            assert forall|s: int| 0 <= s < v@.len() implies cloned(
                self.items()[self.positions()[s]],
                #[trigger] v@[s],
            ) by {
                assert(self.positions()[s] == self.indices@[s] as int);
            }
        }
        v
    }

    /// Produces the next combination, or `None` when there is none for the
    /// items known so far.
    ///
    /// The first call after construction or a reset asks the pool for `k`
    /// items and gives the combination of the first `k`; it gives `None` when
    /// `k` is zero or the producer runs out first. Every later call first
    /// pulls one more item, if the producer has one, and then steps to the
    /// lexicographic successor of the current positions in the grown pool.
    pub fn next(&mut self) -> (r: Option<Vec<I::Item>>)
        requires
            old(self).wf(),
        ensures
            final(self).wf(),
            final(self).primed(),
            final(self).combo_len() == old(self).combo_len(),
            final(self).positions().len() == final(self).combo_len(),
            final(self).lawful() == old(self).lawful(),
            final(self).items().len() >= old(self).items().len(),
            final(self).items().subrange(0, old(self).items().len() as int) == old(self).items(),
            old(self).exhausted() ==> final(self).exhausted() && final(self).items() == old(self).items() && final(self).producer() == old(self).producer(),
            !old(self).exhausted() && old(self).lawful() ==> filled(
                old(self).items(),
                IteratorSpec::remaining(&old(self).producer()),
                if old(self).primed() {
                    old(self).items().len() + 1 as int
                } else {
                    old(self).combo_len() as int
                },
                final(self).items(),
                IteratorSpec::remaining(&final(self).producer()),
                final(self).exhausted(),
            ),
            !old(self).primed() ==> {
                let k = old(self).combo_len();
                &&& final(self).positions() == first_tuple(k)
                &&& final(self).items().len() >= k || final(self).exhausted()
                &&& old(self).items().len() >= k ==> final(self).items() == old(self).items()
                &&& old(self).items().len() < k ==> final(self).items().len() <= k
                &&& r is Some <==> (k > 0 && final(self).items().len() >= k)
            },
            old(self).primed() ==> {
                let n = final(self).items().len() as int;
                &&& (n == old(self).items().len() + 1 && !old(self).exhausted()) || (
                final(self).items() == old(self).items() && final(self).exhausted())
                &&& r is Some <==> succ(old(self).positions(), n) is Some
                &&& r is Some ==> final(self).positions() == succ(old(self).positions(), n)->0
                &&& r is None ==> final(self).positions() == old(self).positions()
            },
            old(self).primed() && r is Some ==> advanced(*old(self), *final(self)),
            r is Some ==> within(final(self).positions(), final(self).items().len() as int)
                && picks(r->0@, final(self).items(), final(self).positions()),
    {
        let ghost c = self.positions();
        proof {
            self.lemma_positions();
            assert forall|t: int| 0 <= t < c.len() implies #[trigger] c[t] >= 0 by {}
        }
        if self.first {
            self.first = false;
            self.pool.prefill(self.k);
            self.n = self.pool.len();
            if self.k > self.n || self.k == 0 {
                return None;
            }
            proof {
                assert forall|t: int| 0 <= t < c.len() implies 0 <= #[trigger] c[t] < self.n by {}
            }
            return Some(self.combination());
        }
        if self.pool.get_next() {
            self.n = self.pool.len();
        }
        let n = self.n;
        let k = self.k;
        if k == 0 || n < k || self.indices[0] >= n - k {
            proof {
                if k > 0 {
                    lemma_done_iff_first_full(c, n as int);
                }
            }
            return None;
        }
        proof {
            lemma_done_iff_first_full(c, n as int);
            assert(within(c, n as int));
        }
        if self.indices[self.i] < n - 1 {
            proof {
                assert(open_at(c, n as int, k - 1));
            }
            self.indices.set(self.i, self.indices[self.i] + 1);
            proof {
                assert(self.positions() =~= bump(c, k - 1));
                lemma_succ_step(c, n as int);
            }
            return Some(self.combination());
        }
        let mut i = self.i;
        while i > 0 && self.indices[i] == self.indices[i - 1] + 1
            invariant
                0 <= i <= k - 1,
                self.i == k - 1,
                self.indices@.len() == k,
                self.positions() == c,
                within(c, n as int),
                forall|s: int| 0 <= s < k ==> #[trigger] self.indices@[s] as int == c[s],
                forall|s: int| i <= s < k ==> c[s] == n - k + s,
            decreases i,
        {
            i -= 1;
        }
        proof {
            assert(i > 0);
            assert(c[i as int] == self.indices@[i as int] as int);
            assert(c[i - 1] == self.indices@[i - 1] as int);
            assert(open_at(c, n as int, i - 1));
            crate::combo::lemma_last_open_is(c, n as int, i - 1, k - 1);
        }
        let ghost b = bump(c, i - 1);
        let ghost pool = self.pool;
        self.j = i - 1;
        self.indices.set(self.j, self.indices[self.j] + 1);
        let mut p = self.indices[self.j];
        let mut t = i;
        while t < k
            invariant
                0 < i <= t <= k,
                self.j == i - 1,
                n == self.n,
                k == self.k,
                c.len() == k,
                !self.first,
                self.pool@.len() == n,
                self.pool == pool,
                within(c, n as int),
                b == bump(c, i - 1),
                self.indices@.len() == k,
                p == c[i - 1] + (t - (i - 1)),
                c[i - 1] < n - k + (i - 1),
                forall|s: int| 0 <= s < t ==> #[trigger] self.indices@[s] as int == b[s],
            decreases k - t,
        {
            p += 1;
            self.indices.set(t, p);
            t += 1;
        }
        self.i = k - 1;
        proof {
            assert(self.positions() =~= bump(c, i - 1));
            lemma_succ_step(c, n as int);
        }
        Some(self.combination())
    }
}

/// `b` is what a call of `next` that returned a combination leaves behind,
/// started from the primed generator `a`.
pub open spec fn advanced<I: Iterator>(a: Arrrangement<I>, b: Arrrangement<I>) -> bool {
    &&& b.combo_len() == a.combo_len()
    &&& b.items().len() == a.items().len() + 1 || (b.items() == a.items() && b.exhausted())
    &&& a.exhausted() ==> b.exhausted() && b.items() == a.items()
    &&& succ(a.positions(), b.items().len() as int) == Some(b.positions())
}

proof fn lemma_pool_settles<I: Iterator>(gs: Seq<Arrrangement<I>>, s: int, t: int)
    requires
        0 <= s <= t < gs.len(),
        forall|u: int| 0 < u < gs.len() ==> advanced(gs[u - 1], #[trigger] gs[u]),
    ensures
        gs[s].items().len() <= gs[t].items().len(),
        gs[s].exhausted() ==> gs[t].exhausted() && gs[t].items() == gs[s].items(),
    decreases t - s,
{
    if s < t {
        lemma_pool_settles(gs, s, t - 1);
        assert(advanced(gs[t - 1], gs[t]));
    }
}

/// Calls of `next` that each return a combination, after a first call that
/// returned the first one, visit the combinations of the final pool one
/// after another in lexicographic order, however the pool grew meanwhile: the
/// `m`-th of them is `walk(first_tuple(k), n, m)` for the final pool length
/// `n`. So no combination of the final pool is skipped or repeated, and at
/// most `binom(n, k)` of them come out.
pub proof fn lemma_next_walks<I: Iterator>(gs: Seq<Arrrangement<I>>)
    requires
        gs.len() > 0,
        gs[0].combo_len() > 0,
        gs[0].combo_len() <= gs[0].items().len(),
        gs[0].positions() == first_tuple(gs[0].combo_len()),
        forall|u: int| 0 < u < gs.len() ==> advanced(gs[u - 1], #[trigger] gs[u]),
    ensures
        forall|m: int|
            0 <= m < gs.len() ==> walk(
                first_tuple(gs[0].combo_len()),
                gs.last().items().len() as int,
                m as nat,
            ) == Some(#[trigger] gs[m].positions()),
        gs.len() <= binom(gs.last().items().len() as int, gs[0].combo_len() as int),
        succ(gs.last().positions(), gs.last().items().len() as int) is None ==> gs.len() == binom(
            gs.last().items().len() as int,
            gs[0].combo_len() as int,
        ),
{
    let k = gs[0].combo_len();
    let c = first_tuple(k);
    let big = gs.last().items().len() as int;
    let ns = gs.map_values(|g: Arrrangement<I>| g.items().len() as int);
    assert forall|s: int| 0 <= s < ns.len() implies #[trigger] ns[s] <= big by {
        lemma_pool_settles(gs, s, gs.len() - 1);
    }
    assert forall|s: int| 0 < s < ns.len() implies #[trigger] ns[s] == ns[s - 1] + 1 || ns[s]
        == big by {
        assert(advanced(gs[s - 1], gs[s]));
        if ns[s] != ns[s - 1] + 1 {
            lemma_pool_settles(gs, s, gs.len() - 1);
        }
    }
    assert forall|m: int| 0 <= m < gs.len() implies walk(c, big, m as nat) == Some(
        #[trigger] gs[m].positions(),
    ) by {
        lemma_stream_is_walk(c, ns, big, m as nat);
        lemma_stream_follows(gs, ns, m as nat);
    }
    lemma_count(big, k as int);
    crate::combo::lemma_binom_bounds(big, k as int);
    let total = binom(big, k as int);
    if gs.len() > total {
        assert(walk(c, big, total as nat) == Some(gs[total].positions()));
    }
    if succ(gs.last().positions(), big) is None && gs.len() < total {
        let last = (gs.len() - 1) as nat;
        assert(walk(c, big, last) == Some(gs[last as int].positions()));
        assert(walk(c, big, (last + 1) as nat) is Some);
    }
}

proof fn lemma_stream_follows<I: Iterator>(
    gs: Seq<Arrrangement<I>>,
    ns: Seq<int>,
    m: nat,
)
    requires
        m < gs.len(),
        ns == gs.map_values(|g: Arrrangement<I>| g.items().len() as int),
        forall|u: int| 0 < u < gs.len() ==> advanced(gs[u - 1], #[trigger] gs[u]),
    ensures
        stream(gs[0].positions(), ns, m) == Some(gs[m as int].positions()),
    decreases m,
{
    if m > 0 {
        lemma_stream_follows(gs, ns, (m - 1) as nat);
        assert(advanced(gs[m - 1], gs[m as int]));
    }
}

} // verus!
