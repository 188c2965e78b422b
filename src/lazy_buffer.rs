use vstd::prelude::*;
use vstd::std_specs::iter::IteratorSpec;

verus! {

/// Filling a cache that holds `before` up to `len` items from a producer
/// that still holds `rest` leaves the cache holding `after` and the producer
/// holding `left`; `ended` says whether the producer was found empty on the
/// way. Nothing is drawn when the cache already holds `len` items.
pub open spec fn filled<T>(
    before: Seq<T>,
    rest: Seq<T>,
    len: int,
    after: Seq<T>,
    left: Seq<T>,
    ended: bool,
) -> bool {
    let want = len - before.len();
    let take = if want <= 0 {
        0
    } else if rest.len() < want {
        rest.len() as int
    } else {
        want
    };
    &&& after == before + rest.take(take)
    &&& left == rest.skip(take)
    &&& ended == (want > 0 && rest.len() < want)
}

/// An append-only cache over a one-shot producer of items.
///
/// Items are pulled from the producer one at a time and kept in order; a
/// cached item never moves and is never dropped. Once the producer has
/// reported that it has nothing more, it is not asked again.
pub struct LazyBuffer<I: Iterator> {
    it: I,
    buffer: Vec<I::Item>,
    done: bool,
}

impl<I: Iterator> View for LazyBuffer<I> {
    type V = Seq<I::Item>;

    closed spec fn view(&self) -> Seq<I::Item> {
        self.buffer@
    }
}

impl<I: Iterator> LazyBuffer<I> {
    /// Whether the producer has reported that it holds no more items.
    pub closed spec fn exhausted(&self) -> bool {
        self.done
    }

    /// The producer, in the state it has been read up to.
    pub closed spec fn producer(&self) -> I {
        self.it
    }

    /// The producer hands out its items in the order its specification
    /// announces (as the iterators of std's collections do).
    pub closed spec fn lawful(&self) -> bool {
        self.it.obeys_prophetic_iter_laws()
    }

    /// Wraps a producer in an empty cache; the producer is not read.
    pub fn new(it: I) -> (r: Self)
        ensures
            r@ == Seq::<I::Item>::empty(),
            !r.exhausted(),
            r.producer() == it,
            r.lawful() == it.obeys_prophetic_iter_laws(),
    {
        LazyBuffer { it, buffer: Vec::new(), done: false }
    }

    /// Number of items cached so far; the producer is not touched.
    pub fn len(&self) -> (r: usize)
        ensures
            r == self@.len(),
    {
        self.buffer.len()
    }

    /// Draws one more item from the producer and appends it to the cache.
    /// Returns whether an item was appended. After a `false` every later call
    /// returns `false` too, without asking the producer again.
    pub fn get_next(&mut self) -> (r: bool)
        ensures
            final(self).lawful() == old(self).lawful(),
            final(self)@.len() >= old(self)@.len(),
            r ==> final(self)@.len() == old(self)@.len() + 1
                && final(self)@.subrange(0, old(self)@.len() as int) == old(self)@
                && !final(self).exhausted(),
            !r ==> final(self)@ == old(self)@ && final(self).exhausted(),
            old(self).exhausted() ==> !r && *final(self) == *old(self),
            !old(self).exhausted() && old(self).lawful() ==> filled(
                old(self)@,
                IteratorSpec::remaining(&old(self).producer()),
                old(self)@.len() + 1 as int,
                final(self)@,
                IteratorSpec::remaining(&final(self).producer()),
                final(self).exhausted(),
            ),
    {
        if self.done {
            return false;
        }
        match self.it.next() {
            Some(x) => {
                self.buffer.push(x);
                proof {
                    assert(self.buffer@.subrange(0, old(self)@.len() as int) =~= old(self)@);
                    if old(self).lawful() {
                        let rest = IteratorSpec::remaining(&old(self).producer());
                        assert(self@ =~= old(self)@ + rest.take(1));
                        assert(rest.skip(1) =~= rest.drop_first());
                    }
                }
                true
            },
            None => {
                self.done = true;
                proof {
                    if old(self).lawful() {
                        let rest = IteratorSpec::remaining(&old(self).producer());
                        assert(self@ =~= old(self)@ + rest.take(0));
                        assert(rest.skip(0) =~= rest);
                    }
                }
                false
            },
        }
    }

    /// Pulls items until the cache holds at least `len` of them or the
    /// producer is exhausted. Does nothing when the cache is already long
    /// enough.
    pub fn prefill(&mut self, len: usize)
        ensures
            final(self).lawful() == old(self).lawful(),
            final(self)@.len() >= old(self)@.len(),
            final(self)@.len() >= len || final(self).exhausted(),
            old(self)@.len() >= len ==> *final(self) == *old(self),
            old(self)@.len() < len ==> final(self)@.len() <= len,
            final(self)@.subrange(0, old(self)@.len() as int) == old(self)@,
            old(self).exhausted() ==> *final(self) == *old(self),
            !old(self).exhausted() && old(self).lawful() ==> filled(
                old(self)@,
                IteratorSpec::remaining(&old(self).producer()),
                len as int,
                final(self)@,
                IteratorSpec::remaining(&final(self).producer()),
                final(self).exhausted(),
            ),
    {
        if self.done {
            return;
        }
        let ghost start = self@;
        let ghost rest = IteratorSpec::remaining(&self.producer());
        while self.buffer.len() < len
            invariant
                self@.len() <= len || self@ == start,
                self@.len() >= start.len(),
                self@.subrange(0, start.len() as int) == start,
                !old(self).exhausted(),
                !self.exhausted(),
                start == old(self)@,
                start.len() >= len ==> *self == *old(self),
                self.lawful() == old(self).lawful(),
                rest == IteratorSpec::remaining(&old(self).producer()),
                self.lawful() ==> self@ == start + rest.take(self@.len() - start.len())
                    && IteratorSpec::remaining(&self.producer()) == rest.skip(
                    self@.len() - start.len(),
                ) && self@.len() - start.len() <= rest.len(),
            decreases len - self@.len(),
        {
            let ghost before = *self;
            if !self.get_next() {
                proof {
                    if self.lawful() {
                        let d = before@.len() - start.len();
                        let left = IteratorSpec::remaining(&before.producer());
                        assert(left == rest.skip(d));
                        assert(left.len() == 0);
                        assert(left.skip(0) =~= left);
                        assert(d == rest.len());
                        assert(self@ == before@);
                        assert(IteratorSpec::remaining(&self.producer()) == left);
                        assert(rest.take(rest.len() as int) =~= rest.take(d));
                        assert(rest.skip(rest.len() as int) =~= rest.skip(d));
                    }
                }
                return;
            }
            proof {
                assert(self@.subrange(0, start.len() as int) =~= start);
                if self.lawful() {
                    let d = before@.len() - start.len();
                    let left = IteratorSpec::remaining(&before.producer());
                    assert(left.take(1) =~= seq![rest[d]]);
                    assert(self@ =~= start + rest.take(d + 1));
                    assert(rest.skip(d).skip(1) =~= rest.skip(d + 1));
                }
            }
        }
        proof {
            if self.lawful() && start.len() < len {
                assert(self@.len() == len);
            }
            if self.lawful() && start.len() >= len {
                assert(rest.take(0) =~= Seq::<I::Item>::empty());
                assert(self@ =~= start + rest.take(0));
                assert(rest.skip(0) =~= rest);
            }
        }
    }
}

impl<I: Iterator> LazyBuffer<I> where I::Item: Clone {
    /// Returns a clone of the cached item at `index`; the cache and the
    /// producer are left as they are.
    pub fn get(&self, index: usize) -> (r: I::Item)
        requires
            index < self@.len(),
        ensures
            cloned(self@[index as int], r),
    {
        self.buffer[index].clone()
    }
}

} // verus!
