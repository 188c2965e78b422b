//! Combinations as strictly increasing position tuples, their lexicographic
//! successor, and the counting facts about walking from one to the next.
use vstd::prelude::*;

verus! {

/// Binomial coefficient: the number of `b`-element subsets of an `a`-element set.
pub open spec fn binom(a: int, b: int) -> int
    decreases a,
{
    if b < 0 {
        0
    } else if b == 0 {
        1
    } else if a <= 0 {
        0
    } else {
        binom(a - 1, b - 1) + binom(a - 1, b)
    }
}

/// Positions strictly increase from left to right.
pub open spec fn increasing(c: Seq<int>) -> bool {
    forall|s: int, t: int| 0 <= s < t < c.len() ==> c[s] < c[t]
}

/// `c` is a combination of positions of a pool of `n` items.
pub open spec fn within(c: Seq<int>, n: int) -> bool {
    &&& increasing(c)
    &&& forall|t: int| 0 <= t < c.len() ==> 0 <= #[trigger] c[t] < n
}

/// The first combination of length `k`: positions `0..k`.
pub open spec fn first_tuple(k: nat) -> Seq<int> {
    Seq::new(k, |t: int| t)
}

/// `a` comes before `b` in lexicographic order and first differs from it at `p`.
pub open spec fn lex_lt_at(a: Seq<int>, b: Seq<int>, p: int) -> bool {
    &&& a.len() == b.len()
    &&& 0 <= p < a.len()
    &&& forall|t: int| 0 <= t < p ==> a[t] == b[t]
    &&& a[p] < b[p]
}

/// `a` comes strictly before `b` in lexicographic order (same length).
pub open spec fn lex_lt(a: Seq<int>, b: Seq<int>) -> bool {
    exists|p: int| lex_lt_at(a, b, p)
}

/// Position `t` of `c` can still grow in a pool of `n` items: every later
/// position keeps room for a larger value.
pub open spec fn open_at(c: Seq<int>, n: int, t: int) -> bool {
    c[t] < n - c.len() + t
}

/// The rightmost position at or before `t` that can still grow; -1 when none.
pub open spec fn last_open(c: Seq<int>, n: int, t: int) -> int
    decreases t + 1,
{
    if t < 0 {
        -1
    } else if open_at(c, n, t) {
        t
    } else {
        last_open(c, n, t - 1)
    }
}

/// `c` with position `p` raised by one and every later position renumbered
/// consecutively after it.
pub open spec fn bump(c: Seq<int>, p: int) -> Seq<int> {
    Seq::new(c.len(), |t: int| if t < p { c[t] } else { c[p] + 1 + (t - p) })
}

/// The combination that follows `c` in lexicographic order among the
/// combinations of `c.len()` positions of a pool of `n` items; `None` when `c`
/// is the last one.
pub open spec fn succ(c: Seq<int>, n: int) -> Option<Seq<int>> {
    let p = last_open(c, n, c.len() - 1);
    if p < 0 {
        None
    } else {
        Some(bump(c, p))
    }
}

/// Where `m` successor steps from `c` lead in a pool of `n` items.
pub open spec fn walk(c: Seq<int>, n: int, m: nat) -> Option<Seq<int>>
    decreases m,
{
    if m == 0 {
        Some(c)
    } else {
        match walk(c, n, (m - 1) as nat) {
            Some(d) => succ(d, n),
            None => None,
        }
    }
}

/// Sum over positions `t >= from` of `binom(n - 1 - c[t], c.len() - t)`.
pub open spec fn rank_from(c: Seq<int>, n: int, from: int) -> int
    decreases c.len() - from,
{
    if from < 0 || from >= c.len() {
        0
    } else {
        binom(n - 1 - c[from], c.len() - from) + rank_from(c, n, from + 1)
    }
}

/// The number of combinations of the same length that come after `c` in
/// lexicographic order.
pub open spec fn rank(c: Seq<int>, n: int) -> int {
    rank_from(c, n, 0)
}

proof fn lemma_binom_zero(a: int, b: int)
    requires
        0 <= a < b,
    ensures
        binom(a, b) == 0,
    decreases a,
{
    if a > 0 {
        lemma_binom_zero(a - 1, b - 1);
        lemma_binom_zero(a - 1, b);
    }
}

pub(crate) proof fn lemma_binom_bounds(a: int, b: int)
    requires
        0 <= a,
    ensures
        binom(a, b) >= 0,
        0 <= b <= a ==> binom(a, b) >= 1,
    decreases a,
{
    if a > 0 && b > 0 {
        lemma_binom_bounds(a - 1, b - 1);
        lemma_binom_bounds(a - 1, b);
    }
}

proof fn lemma_last_open_props(c: Seq<int>, n: int, t: int)
    requires
        -1 <= t < c.len(),
    ensures
        -1 <= last_open(c, n, t) <= t,
        last_open(c, n, t) >= 0 ==> open_at(c, n, last_open(c, n, t)),
        forall|s: int| last_open(c, n, t) < s <= t ==> !open_at(c, n, s),
    decreases t + 1,
{
    if t >= 0 && !open_at(c, n, t) {
        lemma_last_open_props(c, n, t - 1);
    }
}

pub(crate) proof fn lemma_last_open_is(c: Seq<int>, n: int, q: int, t: int)
    requires
        0 <= q <= t < c.len(),
        open_at(c, n, q),
        forall|s: int| q < s <= t ==> !open_at(c, n, s),
    ensures
        last_open(c, n, t) == q,
    decreases t - q,
{
    if t > q {
        lemma_last_open_is(c, n, q, t - 1);
    }
}

/// For a combination, the cheap test on its first position tells whether any
/// position can still grow.
pub proof fn lemma_done_iff_first_full(c: Seq<int>, n: int)
    requires
        increasing(c),
        c.len() > 0,
        forall|t: int| 0 <= t < c.len() ==> 0 <= c[t],
    ensures
        (c[0] >= n - c.len()) == (last_open(c, n, c.len() - 1) < 0),
{
    let k = c.len() as int;
    lemma_last_open_props(c, n, k - 1);
    if c[0] >= n - k {
        assert forall|t: int| 0 <= t < k implies !open_at(c, n, t) by {
            if t > 0 {
                lemma_increasing_gap(c, 0, t);
            }
        }
    } else {
        assert(open_at(c, n, 0));
    }
}

proof fn lemma_increasing_gap(c: Seq<int>, s: int, t: int)
    requires
        increasing(c),
        0 <= s <= t < c.len(),
    ensures
        c[t] >= c[s] + (t - s),
    decreases t - s,
{
    if s < t {
        lemma_increasing_gap(c, s, t - 1);
    }
}

proof fn lemma_rank_prefix(c: Seq<int>, d: Seq<int>, n: int, t: int, p: int)
    requires
        c.len() == d.len(),
        0 <= t <= p <= c.len(),
        forall|s: int| t <= s < p ==> c[s] == d[s],
    ensures
        rank_from(c, n, t) - rank_from(c, n, p) == rank_from(d, n, t) - rank_from(d, n, p),
    decreases p - t,
{
    if t < p {
        lemma_rank_prefix(c, d, n, t + 1, p);
    }
}

proof fn lemma_rank_top(c: Seq<int>, n: int, t: int)
    requires
        within(c, n),
        0 <= t <= c.len(),
        forall|s: int| t <= s < c.len() ==> !open_at(c, n, s),
    ensures
        rank_from(c, n, t) == 0,
    decreases c.len() - t,
{
    if t < c.len() {
        assert(0 <= c[t] < n);
        assert(!open_at(c, n, t));
        lemma_binom_zero(n - 1 - c[t], c.len() - t);
        lemma_rank_top(c, n, t + 1);
    }
}

proof fn lemma_rank_run(d: Seq<int>, n: int, p: int, v: int)
    requires
        0 <= p <= d.len(),
        forall|s: int| p <= s < d.len() ==> d[s] == v + (s - p),
        n - v >= d.len() - p,
    ensures
        rank_from(d, n, p) == binom(n - v, d.len() - p) - 1,
    decreases d.len() - p,
{
    if p < d.len() {
        lemma_rank_run(d, n, p + 1, v + 1);
    }
}

proof fn lemma_rank_positive(c: Seq<int>, n: int, t: int)
    requires
        within(c, n),
        0 <= t <= c.len(),
    ensures
        rank_from(c, n, t) >= 0,
        (exists|s: int| t <= s < c.len() && open_at(c, n, s)) ==> rank_from(c, n, t) >= 1,
    decreases c.len() - t,
{
    if t < c.len() {
        lemma_binom_bounds(n - 1 - c[t], c.len() - t);
        lemma_rank_positive(c, n, t + 1);
        if exists|s: int| t <= s < c.len() && open_at(c, n, s) {
            let s = choose|s: int| t <= s < c.len() && open_at(c, n, s);
            if s > t {
                assert(exists|s: int| t + 1 <= s < c.len() && open_at(c, n, s));
            }
        }
    }
}

/// One successor step keeps a combination, moves strictly forward in
/// lexicographic order, and leaves exactly one fewer combination after it.
pub proof fn lemma_succ_step(c: Seq<int>, n: int)
    requires
        within(c, n),
        succ(c, n) is Some,
    ensures
        within(succ(c, n)->0, n),
        succ(c, n)->0.len() == c.len(),
        lex_lt(c, succ(c, n)->0),
        rank(succ(c, n)->0, n) + 1 == rank(c, n),
{
    let k = c.len() as int;
    let p = last_open(c, n, k - 1);
    lemma_last_open_props(c, n, k - 1);
    let d = bump(c, p);
    assert forall|s: int, t: int| 0 <= s < t < k implies d[s] < d[t] by {
        if t < p {
        } else if s < p {
            assert(c[s] < c[p]);
        }
    }
    assert(lex_lt_at(c, d, p));
    lemma_rank_prefix(c, d, n, 0, p);
    lemma_rank_top(c, n, p + 1);
    lemma_rank_run(d, n, p, c[p] + 1);
}

/// The successor depends on the pool length only through the last position:
/// while that position still has room to grow, a longer pool gives the same
/// successor. This is why items that arrive between steps are taken up in
/// the same order as if they had been there from the start.
pub proof fn lemma_succ_growth(c: Seq<int>, n: int, m: int)
    requires
        within(c, n),
        c.len() > 0,
        c[c.len() - 1] < n - 1,
        n <= m,
    ensures
        succ(c, n) == succ(c, m),
        succ(c, n) is Some,
{
    let k = c.len() as int;
    assert(last_open(c, n, k - 1) == k - 1);
    assert(last_open(c, m, k - 1) == k - 1);
}

/// Where `m` successor steps from `c` lead when the pool has `ns[s]` items
/// at step `s`.
pub open spec fn stream(c: Seq<int>, ns: Seq<int>, m: nat) -> Option<Seq<int>>
    decreases m,
{
    if m == 0 {
        Some(c)
    } else {
        match stream(c, ns, (m - 1) as nat) {
            Some(d) => succ(d, ns[m as int]),
            None => None,
        }
    }
}

/// A pool that grows by one item at each step until it reaches its final
/// length `big` gives the same combinations, in the same order, as a pool
/// that held all `big` items from the start.
pub proof fn lemma_stream_is_walk(c: Seq<int>, ns: Seq<int>, big: int, m: nat)
    requires
        c.len() > 0,
        m < ns.len(),
        within(c, ns[0]),
        ns[0] <= big,
        forall|s: int| 0 < s < ns.len() ==> #[trigger] ns[s] == ns[s - 1] + 1 || ns[s] == big,
        forall|s: int| 0 <= s < ns.len() ==> #[trigger] ns[s] <= big,
    ensures
        stream(c, ns, m) == walk(c, big, m),
        stream(c, ns, m) is Some ==> within(stream(c, ns, m)->0, ns[m as int]),
    decreases m,
{
    if m > 0 {
        let prev = (m - 1) as nat;
        lemma_stream_is_walk(c, ns, big, prev);
        if stream(c, ns, prev) is Some {
            let d = stream(c, ns, prev)->0;
            lemma_stream_len(c, ns, prev);
            let n0 = ns[prev as int];
            let n1 = ns[m as int];
            if n1 == n0 + 1 {
                assert(d[d.len() - 1] < n0);
                lemma_succ_growth(d, n1, big);
                assert(within(d, n1));
            }
            if succ(d, n1) is Some {
                lemma_succ_step(d, n1);
            }
        }
    }
}

proof fn lemma_stream_len(c: Seq<int>, ns: Seq<int>, m: nat)
    requires
        stream(c, ns, m) is Some,
        m < ns.len(),
        within(c, ns[0]),
    ensures
        stream(c, ns, m)->0.len() == c.len(),
    decreases m,
{
    if m > 0 {
        let prev = (m - 1) as nat;
        lemma_stream_len(c, ns, prev);
    }
}

proof fn lemma_walk_rank(n: int, k: int, m: nat)
    requires
        0 < k <= n,
        m < binom(n, k),
    ensures
        walk(first_tuple(k as nat), n, m) is Some,
        within(walk(first_tuple(k as nat), n, m)->0, n),
        walk(first_tuple(k as nat), n, m)->0.len() == k,
        rank(walk(first_tuple(k as nat), n, m)->0, n) == binom(n, k) - 1 - m,
    decreases m,
{
    let f = first_tuple(k as nat);
    if m == 0 {
        lemma_rank_run(f, n, 0, 0);
    } else {
        lemma_walk_rank(n, k, (m - 1) as nat);
        let d = walk(f, n, (m - 1) as nat)->0;
        lemma_rank_positive(d, n, 0);
        lemma_last_open_props(d, n, k - 1);
        if last_open(d, n, k - 1) < 0 {
            lemma_rank_top(d, n, 0);
        }
        lemma_succ_step(d, n);
    }
}

/// From the first combination, a pool of `n` items and length `k` give exactly
/// `binom(n, k)` combinations: that many steps succeed and the next one ends
/// the walk.
pub proof fn lemma_count(n: int, k: int)
    requires
        0 < k <= n,
    ensures
        forall|m: nat| m < binom(n, k) ==> #[trigger] walk(first_tuple(k as nat), n, m) is Some,
        walk(first_tuple(k as nat), n, binom(n, k) as nat) is None,
{
    let f = first_tuple(k as nat);
    lemma_binom_bounds(n, k);
    assert forall|m: nat| m < binom(n, k) implies walk(f, n, m) is Some by {
        lemma_walk_rank(n, k, m);
    }
    let last = (binom(n, k) - 1) as nat;
    lemma_walk_rank(n, k, last);
    let d = walk(f, n, last)->0;
    lemma_rank_positive(d, n, 0);
    lemma_last_open_props(d, n, k - 1);
    if last_open(d, n, k - 1) >= 0 {
        assert(open_at(d, n, last_open(d, n, k - 1)));
    }
    assert(walk(f, n, (last + 1) as nat) == succ(d, n));
}

proof fn lemma_lex_trans(a: Seq<int>, b: Seq<int>, c: Seq<int>)
    requires
        lex_lt(a, b),
        lex_lt(b, c),
    ensures
        lex_lt(a, c),
{
    let p = choose|p: int| lex_lt_at(a, b, p);
    let q = choose|q: int| lex_lt_at(b, c, q);
    if p <= q {
        assert(lex_lt_at(a, c, p));
    } else {
        assert(lex_lt_at(a, c, q));
    }
}

proof fn lemma_walk_within(c: Seq<int>, n: int, m: nat)
    requires
        within(c, n),
        walk(c, n, m) is Some,
    ensures
        within(walk(c, n, m)->0, n),
        walk(c, n, m)->0.len() == c.len(),
    decreases m,
{
    if m > 0 {
        lemma_walk_within(c, n, (m - 1) as nat);
        lemma_succ_step(walk(c, n, (m - 1) as nat)->0, n);
    }
}

/// Successive steps from a combination come in strictly increasing
/// lexicographic order, so no combination is reached twice.
pub proof fn lemma_walk_ordered(c: Seq<int>, n: int, a: nat, b: nat)
    requires
        within(c, n),
        a < b,
        walk(c, n, b) is Some,
    ensures
        walk(c, n, a) is Some,
        lex_lt(walk(c, n, a)->0, walk(c, n, b)->0),
        walk(c, n, a)->0 != walk(c, n, b)->0,
    decreases b,
{
    let prev = (b - 1) as nat;
    assert(walk(c, n, prev) is Some);
    lemma_walk_within(c, n, prev);
    lemma_succ_step(walk(c, n, prev)->0, n);
    if a < prev {
        lemma_walk_ordered(c, n, a, prev);
        lemma_lex_trans(walk(c, n, a)->0, walk(c, n, prev)->0, walk(c, n, b)->0);
    }
    let x = walk(c, n, a)->0;
    let y = walk(c, n, b)->0;
    let p = choose|p: int| lex_lt_at(x, y, p);
    assert(x[p] != y[p]);
}

} // verus!
