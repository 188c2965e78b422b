use arrangement::{arrangement, Arrrangement, LazyBuffer};

fn drain<I: Iterator>(g: &mut Arrrangement<I>) -> Vec<Vec<I::Item>>
where
    I::Item: Clone,
{
    let mut out = Vec::new();
    while let Some(v) = g.next() {
        out.push(v);
    }
    out
}

fn binomial(n: u64, k: u64) -> u64 {
    let mut r: u64 = 1;
    for t in 0..k {
        r = r * (n - t) / (t + 1);
    }
    r
}

/// A producer that counts how often it is asked for an item.
struct Counting {
    items: Vec<u32>,
    at: usize,
    asked: std::rc::Rc<std::cell::Cell<usize>>,
}

impl Iterator for Counting {
    type Item = u32;
    fn next(&mut self) -> Option<u32> {
        self.asked.set(self.asked.get() + 1);
        let r = self.items.get(self.at).copied();
        self.at += 1;
        r
    }
}

#[test]
fn three_items_pairs() {
    let mut g = arrangement(vec![1, 2, 3].into_iter(), 2);
    assert_eq!(g.next(), Some(vec![1, 2]));
    assert_eq!(g.next(), Some(vec![1, 3]));
    assert_eq!(g.next(), Some(vec![2, 3]));
    assert_eq!(g.next(), None);
    assert_eq!(g.next(), None);
}

#[test]
fn empty_producer_gives_nothing() {
    let mut g = arrangement(Vec::<i32>::new().into_iter(), 2);
    assert_eq!(g.next(), None);
    assert_eq!(g.n(), 0);
    assert_eq!(g.next(), None);
}

#[test]
fn zero_length_gives_nothing() {
    let mut g = arrangement(vec![1, 2, 3, 4].into_iter(), 0);
    assert_eq!(g.k(), 0);
    assert_eq!(g.next(), None);
    assert_eq!(g.next(), None);
}

#[test]
fn too_few_items_gives_nothing() {
    let mut g = arrangement(vec![1, 2].into_iter(), 3);
    assert_eq!(g.next(), None);
    assert_eq!(g.n(), 2);
    assert_eq!(g.next(), None);
    assert_eq!(g.n(), 2);
}

#[test]
fn lazy_producer_is_read_one_item_per_call() {
    let mut g = arrangement(vec![1, 2, 3, 4].into_iter(), 2);
    assert_eq!(g.next(), Some(vec![1, 2]));
    assert_eq!(g.n(), 2);
    assert_eq!(g.next(), Some(vec![1, 3]));
    assert_eq!(g.n(), 3);
    assert_eq!(g.next(), Some(vec![1, 4]));
    assert_eq!(g.n(), 4);
    assert_eq!(g.next(), Some(vec![2, 3]));
    assert_eq!(g.next(), Some(vec![2, 4]));
    assert_eq!(g.next(), Some(vec![3, 4]));
    assert_eq!(g.next(), None);
}

#[test]
fn count_is_binomial() {
    for n in 1..8u64 {
        for k in 1..=n {
            let mut g = arrangement((0..n).collect::<Vec<u64>>().into_iter(), k as usize);
            let all = drain(&mut g);
            assert_eq!(all.len() as u64, binomial(n, k), "n = {}, k = {}", n, k);
        }
    }
    let mut g = arrangement(vec![10, 20, 30, 40, 50].into_iter(), 3);
    assert_eq!(drain(&mut g).len(), 10);
}

#[test]
fn combinations_increase_and_are_ordered() {
    let n: u64 = 7;
    let mut g = arrangement((0..n).collect::<Vec<u64>>().into_iter(), 3);
    let all = drain(&mut g);
    for c in &all {
        assert!(c.windows(2).all(|w| w[0] < w[1]));
        assert!(c.iter().all(|&x| x < n));
    }
    for w in all.windows(2) {
        assert!(w[0] < w[1]);
    }
}

#[test]
fn streaming_matches_full_pool() {
    let items: Vec<u32> = (1..=6).collect();
    let mut expected = Vec::new();
    for a in 0..6 {
        for b in a + 1..6 {
            for c in b + 1..6 {
                expected.push(vec![items[a], items[b], items[c]]);
            }
        }
    }
    let asked = std::rc::Rc::new(std::cell::Cell::new(0));
    let producer = Counting { items: items.clone(), at: 0, asked: asked.clone() };
    let mut g = arrangement(producer, 3);
    assert_eq!(g.next(), Some(vec![1, 2, 3]));
    assert_eq!(asked.get(), 3);
    let mut all = vec![vec![1, 2, 3]];
    all.extend(drain(&mut g));
    assert_eq!(all, expected);
    assert_eq!(asked.get(), 7);
}

#[test]
fn pool_read_is_stable() {
    let asked = std::rc::Rc::new(std::cell::Cell::new(0));
    let producer = Counting { items: vec![5, 6, 7], at: 0, asked: asked.clone() };
    let mut pool = LazyBuffer::new(producer);
    pool.prefill(2);
    assert_eq!(pool.len(), 2);
    assert_eq!(asked.get(), 2);
    assert_eq!(pool.get(1), 6);
    assert_eq!(pool.get(1), 6);
    assert_eq!(pool.get(0), 5);
    assert_eq!(asked.get(), 2);
    pool.prefill(1);
    assert_eq!(asked.get(), 2);
}

#[test]
fn pool_exhaustion_is_permanent() {
    let asked = std::rc::Rc::new(std::cell::Cell::new(0));
    let producer = Counting { items: vec![9], at: 0, asked: asked.clone() };
    let mut pool = LazyBuffer::new(producer);
    assert!(pool.get_next());
    assert!(!pool.get_next());
    assert!(!pool.get_next());
    assert_eq!(asked.get(), 2);
    assert_eq!(pool.len(), 1);
    pool.prefill(4);
    assert_eq!(pool.len(), 1);
    assert_eq!(asked.get(), 2);
}

#[test]
fn generator_pool_is_readable() {
    let mut g = arrangement(vec!['a', 'b', 'c'].into_iter(), 2);
    assert_eq!(g.src().len(), 0);
    g.next();
    assert_eq!(g.src().len(), 2);
    assert_eq!(g.src().get(1), 'b');
    assert_eq!(g.src().get(1), 'b');
}

#[test]
fn reset_to_longer_length() {
    let mut g = arrangement(vec![1, 2, 3, 4].into_iter(), 2);
    assert_eq!(g.next(), Some(vec![1, 2]));
    assert_eq!(g.next(), Some(vec![1, 3]));
    g.reset(3);
    assert_eq!(g.k(), 3);
    assert_eq!(g.n(), 3);
    assert_eq!(g.next(), Some(vec![1, 2, 3]));
    assert_eq!(g.next(), Some(vec![1, 2, 4]));
    assert_eq!(g.next(), Some(vec![1, 3, 4]));
    assert_eq!(g.next(), Some(vec![2, 3, 4]));
    assert_eq!(g.next(), None);
}

#[test]
fn reset_to_shorter_length() {
    let mut g = arrangement(vec![1, 2, 3].into_iter(), 3);
    assert_eq!(g.next(), Some(vec![1, 2, 3]));
    g.reset(1);
    assert_eq!(g.k(), 1);
    assert_eq!(g.n(), 3);
    assert_eq!(g.next(), Some(vec![1]));
    assert_eq!(g.next(), Some(vec![2]));
    assert_eq!(g.next(), Some(vec![3]));
    assert_eq!(g.next(), None);
}

#[test]
fn reset_beyond_what_the_producer_has() {
    let mut g = arrangement(vec![1, 2].into_iter(), 1);
    assert_eq!(g.next(), Some(vec![1]));
    g.reset(3);
    assert_eq!(g.n(), 2);
    assert_eq!(g.next(), None);
}

#[test]
fn construction_does_not_read_the_producer() {
    let asked = std::rc::Rc::new(std::cell::Cell::new(0));
    let producer = Counting { items: vec![1, 2, 3], at: 0, asked: asked.clone() };
    let g = arrangement(producer, 2);
    assert_eq!(asked.get(), 0);
    assert_eq!(g.n(), 0);
    assert_eq!(g.k(), 2);
}

#[test]
fn shorter_reset_does_not_read_the_producer() {
    let asked = std::rc::Rc::new(std::cell::Cell::new(0));
    let producer = Counting { items: vec![1, 2, 3, 4], at: 0, asked: asked.clone() };
    let mut g = arrangement(producer, 3);
    assert_eq!(g.next(), Some(vec![1, 2, 3]));
    assert_eq!(asked.get(), 3);
    g.reset(1);
    assert_eq!(asked.get(), 3);
    assert_eq!(g.n(), 3);
    assert_eq!(g.next(), Some(vec![1]));
}
