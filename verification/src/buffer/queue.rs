use vstd::multiset::Multiset;
use vstd::prelude::*;

use crate::buffer::ExternalBuffer;
use crate::error::Error;

verus! {

broadcast use vstd::seq_lib::group_to_multiset_ensures, vstd::multiset::group_multiset_axioms;

/// A total preorder that ranks the items of the in-memory buffer;
/// `shift` hands the highest-ranking item out first. Ties may resolve
/// in any order.
pub trait PriorityOrder: Sized {
    /// `self` ranks at or below `other`.
    spec fn le_spec(&self, other: &Self) -> bool;

    /// Any two items compare.
    proof fn lemma_total(a: &Self, b: &Self)
        ensures
            a.le_spec(b) || b.le_spec(a),
    ;

    /// The ranking carries over a middle item.
    proof fn lemma_transitive(a: &Self, b: &Self, c: &Self)
        requires
            a.le_spec(b),
            b.le_spec(c),
        ensures
            a.le_spec(c),
    ;

    /// Decide the ranking.
    fn le(&self, other: &Self) -> (r: bool)
        ensures
            r == self.le_spec(other),
    ;
}

impl PriorityOrder for i32 {
    open spec fn le_spec(&self, other: &Self) -> bool {
        *self <= *other
    }

    proof fn lemma_total(a: &Self, b: &Self) {
    }

    proof fn lemma_transitive(a: &Self, b: &Self, c: &Self) {
    }

    fn le(&self, other: &Self) -> (r: bool) {
        *self <= *other
    }
}

impl PriorityOrder for u32 {
    open spec fn le_spec(&self, other: &Self) -> bool {
        *self <= *other
    }

    proof fn lemma_total(a: &Self, b: &Self) {
    }

    proof fn lemma_transitive(a: &Self, b: &Self, c: &Self) {
    }

    fn le(&self, other: &Self) -> (r: bool) {
        *self <= *other
    }
}

impl PriorityOrder for i64 {
    open spec fn le_spec(&self, other: &Self) -> bool {
        *self <= *other
    }

    proof fn lemma_total(a: &Self, b: &Self) {
    }

    proof fn lemma_transitive(a: &Self, b: &Self, c: &Self) {
    }

    fn le(&self, other: &Self) -> (r: bool) {
        *self <= *other
    }
}

impl PriorityOrder for u64 {
    open spec fn le_spec(&self, other: &Self) -> bool {
        *self <= *other
    }

    proof fn lemma_total(a: &Self, b: &Self) {
    }

    proof fn lemma_transitive(a: &Self, b: &Self, c: &Self) {
    }

    fn le(&self, other: &Self) -> (r: bool) {
        *self <= *other
    }
}

/// Pairs rank lexicographically: by the first component, then — among
/// firsts that rank equal — by the second.
impl<A: PriorityOrder, B: PriorityOrder> PriorityOrder for (A, B) {
    open spec fn le_spec(&self, other: &Self) -> bool {
        ||| (self.0.le_spec(&other.0) && !other.0.le_spec(&self.0))
        ||| (self.0.le_spec(&other.0) && other.0.le_spec(&self.0) && self.1.le_spec(&other.1))
    }

    proof fn lemma_total(a: &Self, b: &Self) {
        A::lemma_total(&a.0, &b.0);
        B::lemma_total(&a.1, &b.1);
    }

    proof fn lemma_transitive(a: &Self, b: &Self, c: &Self) {
        if a.0.le_spec(&b.0) && b.0.le_spec(&c.0) {
            A::lemma_transitive(&a.0, &b.0, &c.0);
        }
        if c.0.le_spec(&a.0) && a.0.le_spec(&b.0) {
            A::lemma_transitive(&c.0, &a.0, &b.0);
        }
        if b.0.le_spec(&c.0) && c.0.le_spec(&a.0) {
            A::lemma_transitive(&b.0, &c.0, &a.0);
        }
        if a.1.le_spec(&b.1) && b.1.le_spec(&c.1) {
            B::lemma_transitive(&a.1, &b.1, &c.1);
        }
    }

    fn le(&self, other: &Self) -> (r: bool) {
        let ab = self.0.le(&other.0);
        let ba = other.0.le(&self.0);
        if ab && !ba {
            true
        } else if ab && ba {
            self.1.le(&other.1)
        } else {
            false
        }
    }
}

/// A payload carried under a priority key; the key alone ranks it, so
/// payloads of equal key may come out in any order.
#[derive(Debug, Clone, PartialEq, Eq, PartialOrd, Ord)]
pub struct Prioritized<K, P> {
    pub key: K,
    pub item: P,
}

impl<K: DeepView, P: DeepView> DeepView for Prioritized<K, P> {
    type V = (<K as DeepView>::V, <P as DeepView>::V);

    open spec fn deep_view(&self) -> Self::V {
        (self.key.deep_view(), self.item.deep_view())
    }
}

impl<K: PriorityOrder, P> PriorityOrder for Prioritized<K, P> {
    open spec fn le_spec(&self, other: &Self) -> bool {
        self.key.le_spec(&other.key)
    }

    proof fn lemma_total(a: &Self, b: &Self) {
        K::lemma_total(&a.key, &b.key);
    }

    proof fn lemma_transitive(a: &Self, b: &Self, c: &Self) {
        K::lemma_transitive(&a.key, &b.key, &c.key);
    }

    fn le(&self, other: &Self) -> (r: bool) {
        self.key.le(&other.key)
    }
}

/// The meanings of a sequence of items, element by element.
pub open spec fn deep_seq<T: DeepView>(s: Seq<T>) -> Seq<<T as DeepView>::V> {
    s.map_values(|t: T| t.deep_view())
}

/// The binary max-heap layout: every entry ranks at or below its
/// parent.
pub open spec fn is_max_heap<T: PriorityOrder>(q: Seq<T>) -> bool {
    forall|i: int| 1 <= i < q.len() ==> #[trigger] q[i].le_spec(&q[(i - 1) / 2])
}

/// The heap layout, except that entry `i` may outrank its parent; the
/// children of `i` still rank at or below `i`'s parent.
spec fn heap_except_up<T: PriorityOrder>(q: Seq<T>, i: int) -> bool {
    &&& (forall|j: int|
        1 <= j < q.len() && j != i ==> #[trigger] q[j].le_spec(&q[(j - 1) / 2]))
    &&& (i > 0 ==> forall|j: int|
        1 <= j < q.len() && (j - 1) / 2 == i ==> #[trigger] q[j].le_spec(&q[(i - 1) / 2]))
}

/// The heap layout, except that the children of entry `i` may outrank
/// it; they still rank at or below `i`'s parent.
spec fn heap_except_down<T: PriorityOrder>(q: Seq<T>, i: int) -> bool {
    &&& (forall|j: int|
        1 <= j < q.len() && (j - 1) / 2 != i ==> #[trigger] q[j].le_spec(&q[(j - 1) / 2]))
    &&& (i > 0 ==> forall|j: int|
        1 <= j < q.len() && (j - 1) / 2 == i ==> #[trigger] q[j].le_spec(&q[(i - 1) / 2]))
}

/// In a max-heap every entry ranks at or below the root.
pub proof fn lemma_below_root<T: PriorityOrder>(q: Seq<T>, i: int)
    requires
        is_max_heap(q),
        0 <= i < q.len(),
    ensures
        q[i].le_spec(&q[0]),
    decreases i,
{
    if i == 0 {
        T::lemma_total(&q[0], &q[0]);
    } else {
        let p = (i - 1) / 2;
        lemma_below_root(q, p);
        T::lemma_transitive(&q[i], &q[p], &q[0]);
    }
}

/// Exchanging two entries leaves the bag of entries as it was.
proof fn lemma_swap_multiset<T>(q: Seq<T>, i: int, j: int)
    requires
        0 <= i < q.len(),
        0 <= j < q.len(),
    ensures
        q.update(i, q[j]).update(j, q[i]).to_multiset() == q.to_multiset(),
{
    broadcast use vstd::seq_lib::to_multiset_update;

    if i == j {
        assert(q.update(i, q[j]).update(j, q[i]) =~= q);
    } else {
        let q1 = q.update(i, q[j]);
        assert(q1[j] == q[j]);
        assert(q1.update(j, q[i]).to_multiset() =~= q.to_multiset());
    }
}

/// Relies on `<[T]>::swap`: it exchanges the elements at the two
/// indices in place.
#[verifier::external_body]
fn vec_swap<T>(q: &mut Vec<T>, i: usize, j: usize)
    requires
        i < old(q)@.len(),
        j < old(q)@.len(),
    ensures
        final(q)@ == old(q)@.update(i as int, old(q)@[j as int]).update(j as int, old(q)@[i as int]),
{
    q.as_mut_slice().swap(i, j);
}

/// Restore the heap layout after the entry at `start` was replaced:
/// move it down below every child that outranks it.
fn sift_down<T: PriorityOrder + DeepView>(q: &mut Vec<T>, start: usize)
    requires
        start < old(q)@.len(),
        heap_except_down(old(q)@, start as int),
    ensures
        final(q)@.len() == old(q)@.len(),
        final(q)@.to_multiset() == old(q)@.to_multiset(),
        deep_seq(final(q)@).to_multiset() == deep_seq(old(q)@).to_multiset(),
        is_max_heap(final(q)@),
{
    let ghost q0 = q@;
    let mut i: usize = start;
    loop
        invariant_except_break
            start <= i < q@.len(),
            q@.len() == q0.len(),
            q@.to_multiset() == q0.to_multiset(),
            deep_seq(q@).to_multiset() == deep_seq(q0).to_multiset(),
            heap_except_down(q@, i as int),
        ensures
            q@.len() == q0.len(),
            q@.to_multiset() == q0.to_multiset(),
            deep_seq(q@).to_multiset() == deep_seq(q0).to_multiset(),
            is_max_heap(q@),
        decreases q@.len() - i,
    {
        if i >= q.len() / 2 {
            // no children: every child-parent pair has a parent other than i
            proof {
                assert forall|j: int| 1 <= j < q@.len() implies #[trigger] q@[j].le_spec(
                    &q@[(j - 1) / 2],
                ) by {
                    assert((j - 1) / 2 != i as int);
                }
            }
            break ;
        }
        let l = 2 * i + 1;
        let r = l + 1;
        let c = if r < q.len() && q[l].le(&q[r]) {
            r
        } else {
            l
        };
        proof {
            if r < q@.len() && !q@[l as int].le_spec(&q@[r as int]) {
                T::lemma_total(&q@[l as int], &q@[r as int]);
            }
        }
        if q[c].le(&q[i]) {
            // both children rank at or below the entry: the heap is whole
            proof {
                assert forall|j: int| 1 <= j < q@.len() implies #[trigger] q@[j].le_spec(
                    &q@[(j - 1) / 2],
                ) by {
                    if (j - 1) / 2 == i as int {
                        if j != c as int {
                            T::lemma_transitive(&q@[j], &q@[c as int], &q@[i as int]);
                        }
                    }
                }
            }
            break ;
        }
        let ghost qb = q@;
        proof {
            // c is a highest-ranking child of i
            T::lemma_total(&qb[l as int], &qb[l as int]);
            if (r as int) < qb.len() {
                T::lemma_total(&qb[r as int], &qb[r as int]);
                T::lemma_total(&qb[l as int], &qb[r as int]);
            }
            assert(qb[l as int].le_spec(&qb[c as int]));
            assert((r as int) < qb.len() ==> qb[r as int].le_spec(&qb[c as int]));
            // the entry at i ranks below the promoted child
            T::lemma_total(&qb[c as int], &qb[i as int]);
            assert(qb[i as int].le_spec(&qb[c as int]));
        }
        vec_swap(q, i, c);
        proof {
            lemma_swap_multiset(qb, i as int, c as int);
            assert(deep_seq(q@) =~= deep_seq(qb).update(i as int, deep_seq(qb)[c as int]).update(
                c as int,
                deep_seq(qb)[i as int],
            ));
            lemma_swap_multiset(deep_seq(qb), i as int, c as int);
            assert forall|j: int|
                1 <= j < q@.len() && (j - 1) / 2 != c as int implies #[trigger] q@[j].le_spec(
                &q@[(j - 1) / 2],
            ) by {
                if j == c as int {
                    // the moved-down entry sits below its new parent
                    assert(q@[j] == qb[i as int]);
                    assert(q@[(j - 1) / 2] == qb[c as int]);
                } else if (j - 1) / 2 == i as int {
                    // the sibling of c also sits below the promoted child
                    assert(j == l as int || j == r as int);
                    assert(q@[j] == qb[j]);
                    assert(q@[(j - 1) / 2] == qb[c as int]);
                } else if j == i as int {
                    // the promoted child keeps i's old bound from i's parent
                    assert(i > 0);
                    assert(q@[j] == qb[c as int]);
                    assert(q@[(j - 1) / 2] == qb[(i as int - 1) / 2]);
                } else {
                    assert(q@[j] == qb[j]);
                    assert(q@[(j - 1) / 2] == qb[(j - 1) / 2]);
                }
            }
            if c as int > 0 {
                assert forall|j: int|
                    1 <= j < q@.len() && (j - 1) / 2 == c as int implies #[trigger] q@[j].le_spec(
                    &q@[(c as int - 1) / 2],
                ) by {
                    // children of c keep their old bound, now through i's slot
                    assert(q@[j] == qb[j]);
                    assert((c as int - 1) / 2 == i as int);
                    assert(q@[(c as int - 1) / 2] == qb[c as int]);
                    assert(qb[j].le_spec(&qb[c as int]));
                }
            }
            assert(heap_except_down(q@, c as int));
        }
        i = c;
    }
}

/// Restore the heap layout after an entry was appended at `start`:
/// move it up past every parent it outranks.
fn sift_up<T: PriorityOrder + DeepView>(q: &mut Vec<T>, start: usize)
    requires
        start < old(q)@.len(),
        heap_except_up(old(q)@, start as int),
    ensures
        final(q)@.len() == old(q)@.len(),
        final(q)@.to_multiset() == old(q)@.to_multiset(),
        deep_seq(final(q)@).to_multiset() == deep_seq(old(q)@).to_multiset(),
        is_max_heap(final(q)@),
{
    let ghost q0 = q@;
    let mut i: usize = start;
    loop
        invariant_except_break
            i < q@.len(),
            q@.len() == q0.len(),
            q@.to_multiset() == q0.to_multiset(),
            deep_seq(q@).to_multiset() == deep_seq(q0).to_multiset(),
            heap_except_up(q@, i as int),
        ensures
            q@.len() == q0.len(),
            q@.to_multiset() == q0.to_multiset(),
            deep_seq(q@).to_multiset() == deep_seq(q0).to_multiset(),
            is_max_heap(q@),
        decreases i,
    {
        if i == 0 {
            break ;
        }
        let p = (i - 1) / 2;
        if q[i].le(&q[p]) {
            break ;
        }
        let ghost qb = q@;
        vec_swap(q, i, p);
        proof {
            lemma_swap_multiset(qb, i as int, p as int);
            assert(deep_seq(q@) =~= deep_seq(qb).update(i as int, deep_seq(qb)[p as int]).update(
                p as int,
                deep_seq(qb)[i as int],
            ));
            lemma_swap_multiset(deep_seq(qb), i as int, p as int);
            T::lemma_total(&qb[i as int], &qb[p as int]);
            assert forall|j: int|
                1 <= j < q@.len() && j != p as int implies #[trigger] q@[j].le_spec(
                &q@[(j - 1) / 2],
            ) by {
                if j == i as int {
                    // the displaced parent sits below the promoted entry
                    assert(q@[j] == qb[p as int]);
                    assert(q@[(j - 1) / 2] == qb[i as int]);
                } else if (j - 1) / 2 == i as int {
                    // old children of i sat below i's parent, which moved to i
                    assert(q@[j] == qb[j]);
                    assert(q@[(j - 1) / 2] == qb[p as int]);
                } else if (j - 1) / 2 == p as int {
                    // the sibling of i now sits below the promoted entry
                    assert(q@[j] == qb[j]);
                    assert(q@[(j - 1) / 2] == qb[i as int]);
                    T::lemma_transitive(&qb[j], &qb[p as int], &qb[i as int]);
                } else {
                    assert(q@[j] == qb[j]);
                    assert(q@[(j - 1) / 2] == qb[(j - 1) / 2]);
                }
            }
            if p as int > 0 {
                assert forall|j: int|
                    1 <= j < q@.len() && (j - 1) / 2 == p as int implies #[trigger] q@[j].le_spec(
                    &q@[(p as int - 1) / 2],
                ) by {
                    let gp = (p as int - 1) / 2;
                    assert(qb[p as int].le_spec(&qb[gp]));
                    if j == i as int {
                        assert(q@[j] == qb[p as int]);
                    } else {
                        assert(q@[j] == qb[j]);
                        assert(qb[j].le_spec(&qb[p as int]));
                        T::lemma_transitive(&qb[j], &qb[p as int], &qb[gp]);
                    }
                }
            }
            assert(heap_except_up(q@, p as int));
        }
        i = p;
    }
}

/// The in-memory priority buffer: a binary max-heap over the items'
/// ranking. The engine shares it between its flows behind a
/// mutual-exclusion guard, whose abnormal release surfaces as
/// `Error::MutexError` on the next use.
pub struct ExternalBufferQueue<T: PriorityOrder> {
    queue: Vec<T>,
}

impl<T: PriorityOrder> ExternalBufferQueue<T> {
    /// The heap layout holds.
    pub closed spec fn wf(&self) -> bool {
        is_max_heap(self.queue@)
    }

    /// The bag of items the buffer holds.
    pub closed spec fn items(&self) -> Multiset<T> {
        self.queue@.to_multiset()
    }

    /// An empty buffer.
    pub fn new() -> (r: Self)
        ensures
            r.wf(),
            r.items() == Multiset::<T>::empty(),
            r.items().len() == 0,
    {
        let r = ExternalBufferQueue { queue: Vec::new() };
        proof {
            assert(r.queue@.to_multiset().len() == 0);
            vstd::multiset::lemma_multiset_empty_len(r.queue@.to_multiset());
        }
        r
    }
}

impl<T: PriorityOrder + DeepView> ExternalBuffer<T> for ExternalBufferQueue<T> {
    open spec fn inv(&self) -> bool {
        self.wf()
    }

    closed spec fn contents(&self) -> Multiset<<T as DeepView>::V> {
        deep_seq(self.queue@).to_multiset()
    }

    open spec fn can_push(&self) -> bool {
        true
    }

    /// Insert the item into the heap; the heap never rejects one.
    fn push(&mut self, item: T) -> (r: Result<(), Error>)
        ensures
            r is Ok,
            final(self).items() == old(self).items().insert(item),
    {
        let ghost q0 = self.queue@;
        let ghost dv = item.deep_view();
        self.queue.push(item);
        proof {
            assert(deep_seq(self.queue@) =~= deep_seq(q0).push(dv));
            let n = self.queue@.len() - 1;
            assert forall|j: int|
                1 <= j < self.queue@.len() && j != n implies #[trigger] self.queue@[j].le_spec(
                &self.queue@[(j - 1) / 2],
            ) by {
                assert(self.queue@[j] == q0[j]);
                assert(self.queue@[(j - 1) / 2] == q0[(j - 1) / 2]);
            }
            assert forall|j: int|
                1 <= j < self.queue@.len() && (j - 1) / 2 == n implies #[trigger] self.queue@[j].le_spec(
                &self.queue@[(n - 1) / 2],
            ) by {
                assert(j >= 2 * n + 1);
                assert(false);
            }
            assert(heap_except_up(self.queue@, n));
        }
        let last = self.queue.len() - 1;
        sift_up(&mut self.queue, last);
        Ok(())
    }

    /// Remove and return an item of highest rank, or `None` on an empty
    /// buffer.
    fn shift(&mut self) -> (r: Result<Option<T>, Error>)
        ensures
            r is Ok,
            r matches Ok(Some(x)) ==> old(self).items().contains(x)
                && final(self).items() == old(self).items().remove(x)
                && (forall|y: T| old(self).items().contains(y) ==> y.le_spec(&x)),
            r matches Ok(None) ==> final(self).items() == old(self).items()
                && old(self).items().len() == 0,
    {
        if self.queue.len() == 0 {
            proof {
                assert(self.queue@.to_multiset().len() == 0);
            }
            return Ok(None);
        }
        let ghost q0 = self.queue@;
        proof {
            assert(q0.to_multiset().contains(q0[0]));
            assert forall|y: T| old(self).items().contains(y) implies y.le_spec(&q0[0]) by {
                let k = choose|k: int| 0 <= k < q0.len() && q0[k] == y;
                lemma_below_root(q0, k);
            }
        }
        let top = self.queue.swap_remove(0);
        proof {
            broadcast use vstd::seq_lib::to_multiset_update;

            let qu = q0.update(0, q0.last());
            assert(self.queue@ =~= qu.drop_last());
            assert(qu.drop_last() =~= qu.remove(qu.len() - 1));
            assert(qu.remove(qu.len() - 1).to_multiset() == qu.to_multiset().remove(qu.last()));
            assert(self.queue@.to_multiset() =~= q0.to_multiset().remove(q0[0]));
            let d0 = deep_seq(q0);
            let du = d0.update(0, d0.last());
            assert(deep_seq(qu) =~= du);
            assert(deep_seq(self.queue@) =~= du.drop_last());
            assert(du.drop_last() =~= du.remove(du.len() - 1));
            assert(du.remove(du.len() - 1).to_multiset() == du.to_multiset().remove(du.last()));
            assert(deep_seq(self.queue@).to_multiset() =~= d0.to_multiset().remove(d0[0]));
            assert(d0[0] == top.deep_view());
            assert(d0.to_multiset().contains(d0[0]));
        }
        if self.queue.len() > 0 {
            proof {
                assert forall|j: int|
                    1 <= j < self.queue@.len() && (j - 1) / 2 != 0 implies #[trigger] self.queue@[j].le_spec(
                    &self.queue@[(j - 1) / 2],
                ) by {
                    assert(self.queue@[j] == q0[j]);
                    assert(self.queue@[(j - 1) / 2] == q0[(j - 1) / 2]);
                }
                assert(heap_except_down(self.queue@, 0));
            }
            sift_down(&mut self.queue, 0);
        }
        Ok(Some(top))
    }
}

} // verus!
