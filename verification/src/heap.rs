//! A binary heap whose contents are a multiset and whose top is its greatest
//! item.

use vstd::prelude::*;
use vstd::multiset::Multiset;

verus! {

/// An item with a place in a total order. No two items share a place.
pub trait Ranked: Copy {
    /// The place of the item.
    spec fn rank(self) -> int;

    /// Items of equal rank are the same item.
    proof fn rank_is_injective(a: Self, b: Self)
        requires
            a.rank() == b.rank(),
        ensures
            a == b,
    ;

    /// Whether this item has the higher rank.
    fn outranks(self, other: Self) -> (r: bool)
        ensures
            r == (self.rank() > other.rank()),
    ;
}

/// Whether `x` is in `m` and nothing in `m` outranks it.
pub open spec fn is_greatest<T: Ranked>(m: Multiset<T>, x: T) -> bool {
    m.count(x) > 0 && forall|y: T| #[trigger] m.count(y) > 0 ==> y.rank() <= x.rank()
}

/// The greatest item of `m`.
pub open spec fn greatest<T: Ranked>(m: Multiset<T>) -> T {
    choose|x: T| is_greatest(m, x)
}

/// A multiset has at most one greatest item.
pub proof fn lemma_greatest_is_unique<T: Ranked>(m: Multiset<T>, x: T)
    requires
        is_greatest(m, x),
    ensures
        greatest(m) == x,
{
    let y = greatest(m);
    assert(is_greatest(m, y));
    assert(m.count(x) > 0 && m.count(y) > 0);
    T::rank_is_injective(x, y);
}

/// A multiset that is not empty has a greatest item.
pub proof fn lemma_greatest_exists<T: Ranked>(m: Multiset<T>)
    requires
        m.len() > 0,
    ensures
        is_greatest(m, greatest(m)),
    decreases m.len(),
{
    broadcast use vstd::multiset::group_multiset_axioms;

    let a = m.choose();
    assert(m.count(a) > 0);
    let rest = m.remove(a);
    if rest.len() == 0 {
        assert forall|y: T| #[trigger] m.count(y) > 0 implies y.rank() <= a.rank() by {
            if y != a {
                assert(rest.count(y) > 0);
            }
        }
        assert(is_greatest(m, a));
    } else {
        lemma_greatest_exists(rest);
        let b = greatest(rest);
        assert(rest.count(b) > 0);
        let top = if a.rank() > b.rank() { a } else { b };
        assert forall|y: T| #[trigger] m.count(y) > 0 implies y.rank() <= top.rank() by {
            if y != a {
                assert(rest.count(y) > 0);
            }
        }
        assert(is_greatest(m, top));
    }
}

/// The parent of position `i`.
spec fn parent(i: int) -> int {
    (i - 1) / 2
}

/// Whether the item at `j` does not outrank the one above it.
spec fn in_order<T: Ranked>(s: Seq<T>, j: int) -> bool {
    s[parent(j)].rank() >= s[j].rank()
}

/// Exchanging two items leaves the multiset as it is.
proof fn lemma_swap_keeps_items<T>(s: Seq<T>, i: int, j: int)
    requires
        0 <= i < s.len(),
        0 <= j < s.len(),
    ensures
        s.update(i, s[j]).update(j, s[i]).to_multiset() == s.to_multiset(),
{
    broadcast use vstd::seq_lib::group_to_multiset_ensures;
    broadcast use vstd::multiset::group_multiset_axioms;

    if i == j {
        assert(s.update(i, s[j]).update(j, s[i]) =~= s);
    } else {
        lemma_update_multiset(s, i, s[j]);
        lemma_update_multiset(s.update(i, s[j]), j, s[i]);
        assert(s.contains(s[i]));
        assert(s.to_multiset().count(s[i]) > 0);
        assert(s.update(i, s[j]).update(j, s[i]).to_multiset() =~= s.to_multiset());
    }
}

/// Replacing an item exchanges it for the new one in the multiset.
proof fn lemma_update_multiset<T>(s: Seq<T>, i: int, x: T)
    requires
        0 <= i < s.len(),
    ensures
        s.update(i, x).to_multiset() == s.to_multiset().remove(s[i]).insert(x),
{
    broadcast use vstd::seq_lib::group_to_multiset_ensures;
    broadcast use vstd::multiset::group_multiset_axioms;

    let t = s.update(i, x);
    assert(t.remove(i) =~= s.remove(i));
    assert(t.contains(t[i]));
    assert(t.to_multiset().count(x) > 0);
    assert(t.to_multiset() =~= t.remove(i).to_multiset().insert(x));
}

/// In an ordered heap nothing outranks the first item.
proof fn lemma_first_is_greatest<T: Ranked>(s: Seq<T>, i: int)
    requires
        0 <= i < s.len(),
        forall|j: int| 0 < j < s.len() ==> #[trigger] in_order(s, j),
    ensures
        s[i].rank() <= s[0].rank(),
    decreases i,
{
    if i > 0 {
        assert(in_order(s, i));
        lemma_first_is_greatest(s, parent(i));
    }
}

/// A heap with its greatest item on top.
pub struct RankHeap<T: Ranked> {
    items: Vec<T>,
}

impl<T: Ranked> View for RankHeap<T> {
    type V = Multiset<T>;

    closed spec fn view(&self) -> Multiset<T> {
        self.items@.to_multiset()
    }
}

impl<T: Ranked> RankHeap<T> {
    /// Whether every item but the first is outranked by none of those below it.
    pub closed spec fn wf(&self) -> bool {
        forall|j: int| 0 < j < self.items@.len() ==> #[trigger] in_order(self.items@, j)
    }

    /// An empty heap.
    pub fn new() -> (r: Self)
        ensures
            r.wf(),
            r@ == Multiset::<T>::empty(),
    {
        broadcast use vstd::seq_lib::group_to_multiset_ensures;
        broadcast use vstd::multiset::group_multiset_axioms;

        let r = RankHeap { items: Vec::new() };
        assert(r.items@.to_multiset() =~= Multiset::<T>::empty()) by {
            assert forall|v: T| r.items@.to_multiset().count(v) == 0 by {
                assert(!r.items@.contains(v));
            }
        }
        r
    }

    /// The number of items.
    pub fn len(&self) -> (n: usize)
        ensures
            n == self@.len(),
    {
        broadcast use vstd::seq_lib::group_to_multiset_ensures;

        self.items.len()
    }

    /// The greatest item, if there is any.
    pub fn peek(&self) -> (r: Option<T>)
        requires
            self.wf(),
        ensures
            r is None <==> self@.len() == 0,
            r matches Some(x) ==> is_greatest(self@, x) && x == greatest(self@),
    {
        broadcast use vstd::seq_lib::group_to_multiset_ensures;

        if self.items.len() == 0 {
            None
        } else {
            let x = self.items[0];
            proof {
                self.lemma_top_is_greatest();
                lemma_greatest_is_unique(self@, x);
            }
            Some(x)
        }
    }

    proof fn lemma_top_is_greatest(&self)
        requires
            self.wf(),
            self.items@.len() > 0,
        ensures
            is_greatest(self@, self.items@[0]),
    {
        broadcast use vstd::seq_lib::group_to_multiset_ensures;

        let s = self.items@;
        assert(s.contains(s[0]));
        assert forall|y: T| #[trigger] self@.count(y) > 0 implies y.rank() <= s[0].rank() by {
            assert(s.contains(y));
            let i = choose|i: int| 0 <= i < s.len() && s[i] == y;
            lemma_first_is_greatest(s, i);
        }
    }

    /// Adds an item.
    pub fn push(&mut self, x: T)
        requires
            old(self).wf(),
        ensures
            final(self).wf(),
            final(self)@ == old(self)@.insert(x),
    {
        broadcast use vstd::seq_lib::group_to_multiset_ensures;

        self.items.push(x);
        let mut i: usize = self.items.len() - 1;
        assert forall|j: int| 0 < j < self.items@.len() && j != i implies #[trigger] in_order(
            self.items@,
            j,
        ) by {
            assert(in_order(old(self).items@, j));
        }
        while i > 0 && self.items[i].outranks(self.items[(i - 1) / 2])
            invariant
                i < self.items@.len(),
                self.items@.to_multiset() == old(self).items@.to_multiset().insert(x),
                forall|j: int|
                    0 < j < self.items@.len() && j != i ==> #[trigger] in_order(self.items@, j),
                i > 0 ==> forall|j: int|
                    0 < j < self.items@.len() && #[trigger] parent(j) == i
                        ==> self.items@[parent(i as int)].rank() >= self.items@[j].rank(),
            decreases i,
        {
            let p: usize = (i - 1) / 2;
            let ghost before = self.items@;
            let a = self.items[i];
            let b = self.items[p];
            self.items.set(i, b);
            self.items.set(p, a);
            proof {
                lemma_swap_keeps_items(before, i as int, p as int);
                let after = self.items@;
                assert(p == parent(i as int));
                assert forall|j: int| 0 < j < after.len() && j != p implies #[trigger] in_order(
                    after,
                    j,
                ) by {
                    if j != i {
                        assert(in_order(before, j));
                        if parent(j) == p {
                            assert(in_order(before, j));
                        }
                    }
                }
                if p > 0 {
                    assert(in_order(before, p as int));
                    assert forall|j: int|
                        0 < j < after.len() && #[trigger] parent(j) == p implies after[parent(
                        p as int,
                    )].rank() >= after[j].rank() by {
                        if j != i {
                            assert(in_order(before, j));
                        }
                    }
                }
            }
            i = p;
        }
    }

    /// Removes the greatest item, if there is any, and returns it.
    pub fn pop(&mut self) -> (r: Option<T>)
        requires
            old(self).wf(),
        ensures
            final(self).wf(),
            r is None <==> old(self)@.len() == 0,
            r is None ==> final(self)@ == old(self)@,
            r matches Some(x) ==> {
                &&& is_greatest(old(self)@, x)
                &&& x == greatest(old(self)@)
                &&& final(self)@ == old(self)@.remove(x)
            },
    {
        broadcast use vstd::seq_lib::group_to_multiset_ensures;
        broadcast use vstd::multiset::group_multiset_axioms;

        if self.items.len() == 0 {
            return None;
        }
        let top = self.items[0];
        proof {
            self.lemma_top_is_greatest();
            lemma_greatest_is_unique(self@, top);
        }
        let ghost before = self.items@;
        let last = self.items.pop().unwrap();
        assert(self.items@ =~= before.remove(before.len() - 1));
        if self.items.len() > 0 {
            let ghost shorter = self.items@;
            self.items.set(0, last);
            proof {
                lemma_update_multiset(shorter, 0, last);
                assert(before.contains(last) && before.contains(top));
                assert(self.items@.to_multiset() =~= before.to_multiset().remove(top)) by {
                    assert(shorter.contains(shorter[0]));
                    assert(shorter.to_multiset().count(top) > 0);
                }
                assert forall|j: int|
                    0 < j < self.items@.len() && parent(j) != 0 implies #[trigger] in_order(
                    self.items@,
                    j,
                ) by {
                    assert(in_order(before, j));
                }
            }
            self.settle();
        } else {
            assert(before[0] == last);
            assert(self.items@.to_multiset() =~= before.to_multiset().remove(top));
        }
        Some(top)
    }

    /// The higher-ranked child of position `i`.
    fn higher_child(&self, i: usize) -> (c: usize)
        requires
            i < self.items@.len() / 2,
        ensures
            c < self.items@.len(),
            c == 2 * i + 1 || c == 2 * i + 2,
            forall|j: int|
                0 < j < self.items@.len() && #[trigger] parent(j) == i ==> self.items@[j].rank()
                    <= self.items@[c as int].rank(),
    {
        let n = self.items.len();
        let l: usize = 2 * i + 1;
        let c = if l + 1 < n && self.items[l + 1].outranks(self.items[l]) {
            l + 1
        } else {
            l
        };
        assert forall|j: int| 0 < j < self.items@.len() && #[trigger] parent(j) == i implies j == l
            || j == l + 1 by {}
        c
    }

    /// Moves the first item down to its place.
    fn settle(&mut self)
        requires
            old(self).items@.len() > 0,
            forall|j: int|
                0 < j < old(self).items@.len() && parent(j) != 0 ==> #[trigger] in_order(
                    old(self).items@,
                    j,
                ),
        ensures
            final(self).wf(),
            final(self)@ == old(self)@,
    {
        let mut i: usize = 0;
        let mut placed = false;
        let n = self.items.len();
        while !placed && i < n / 2
            invariant
                n == self.items@.len(),
                i < n,
                self.items@.to_multiset() == old(self).items@.to_multiset(),
                forall|j: int|
                    0 < j < n && parent(j) != i ==> #[trigger] in_order(self.items@, j),
                placed ==> forall|j: int| 0 < j < n ==> #[trigger] in_order(self.items@, j),
                i > 0 ==> forall|j: int|
                    0 < j < n && #[trigger] parent(j) == i
                        ==> self.items@[parent(i as int)].rank() >= self.items@[j].rank(),
            decreases
                n - i,
                if placed {
                    0int
                } else {
                    1int
                },
        {
            let c = self.higher_child(i);
            if self.items[c].outranks(self.items[i]) {
                let ghost before = self.items@;
                let a = self.items[i];
                let b = self.items[c];
                self.items.set(i, b);
                self.items.set(c, a);
                proof {
                    lemma_swap_keeps_items(before, i as int, c as int);
                    let after = self.items@;
                    assert(parent(c as int) == i);
                    assert forall|j: int| 0 < j < n && parent(j) != c implies #[trigger] in_order(
                        after,
                        j,
                    ) by {
                        if j == i {
                            assert(parent(c as int) == i);
                        } else if parent(j) != i {
                            assert(in_order(before, j));
                        }
                    }
                    assert forall|j: int| 0 < j < n && #[trigger] parent(j) == c implies after[i as int].rank()
                        >= after[j].rank() by {
                        assert(in_order(before, j));
                    }
                }
                i = c;
            } else {
                proof {
                    assert forall|j: int| 0 < j < n implies #[trigger] in_order(self.items@, j) by {
                        if parent(j) == i {
                        }
                    }
                }
                placed = true;
            }
        }
        assert forall|j: int| 0 < j < n implies #[trigger] in_order(self.items@, j) by {
            if !placed {
                assert(parent(j) < n / 2);
            }
        }
    }

    /// The items in ascending order.
    pub fn into_sorted(self) -> (r: Vec<T>)
        requires
            self.wf(),
        ensures
            r@.to_multiset() == self@,
            forall|i: int, j: int| 0 <= i < j < r@.len() ==> r@[i].rank() <= r@[j].rank(),
    {
        broadcast use vstd::seq_lib::group_to_multiset_ensures;
        broadcast use vstd::multiset::group_multiset_axioms;

        let mut heap = self;
        let mut out: Vec<T> = Vec::new();
        let ghost all = heap@;
        assert(out@.to_multiset() =~= Multiset::<T>::empty()) by {
            assert forall|v: T| out@.to_multiset().count(v) == 0 by {
                assert(!out@.contains(v));
            }
        }
        assert(out@.to_multiset().add(heap@) =~= all);
        while heap.items.len() > 0
            invariant
                heap.wf(),
                out@.to_multiset().add(heap@) == all,
                forall|i: int, j: int| 0 <= i < j < out@.len() ==> out@[i].rank() >= out@[j].rank(),
                forall|i: int, y: T|
                    0 <= i < out@.len() && #[trigger] heap@.count(y) > 0 ==> #[trigger] out@[i].rank()
                        >= y.rank(),
            decreases heap.items@.len(),
        {
            broadcast use vstd::seq_lib::group_to_multiset_ensures;
            broadcast use vstd::multiset::group_multiset_axioms;

            let ghost before = heap@;
            let ghost done = out@;
            assert(before.len() > 0);
            let top = heap.pop().unwrap();
            assert(before.count(top) > 0);
            out.push(top);
            proof {
                assert(out@.to_multiset() =~= done.to_multiset().insert(top));
                assert(out@.to_multiset().add(heap@) =~= all);
                assert(heap@.len() == before.len() - 1);
                assert forall|i: int, y: T|
                    0 <= i < out@.len() && #[trigger] heap@.count(y) > 0 implies #[trigger] out@[i].rank()
                    >= y.rank() by {
                    assert(before.count(y) > 0);
                    if i < done.len() {
                        assert(done[i].rank() >= y.rank());
                    }
                }
                assert forall|i: int, j: int| 0 <= i < j < out@.len() implies out@[i].rank()
                    >= out@[j].rank() by {
                    if j == done.len() {
                        assert(done[i].rank() >= top.rank());
                    }
                }
            }
        }
        assert(heap@.len() == 0);
        assert(out@.to_multiset() =~= all);
        let mut r: Vec<T> = Vec::new();
        let mut n = out.len();
        assert(out@.subrange(n as int, out@.len() as int).reverse() =~= r@);
        while n > 0
            invariant
                n <= out@.len(),
                r@ == out@.subrange(n as int, out@.len() as int).reverse(),
            decreases n,
        {
            n = n - 1;
            r.push(out[n]);
            assert(r@ =~= out@.subrange(n as int, out@.len() as int).reverse());
        }
        proof {
            assert(out@.subrange(0, out@.len() as int) =~= out@);
            out@.lemma_reverse_to_multiset();
        }
        r
    }
}

} // verus!
