use vstd::multiset::Multiset;
use vstd::prelude::*;

use crate::buffer::sled::window_from;
use crate::codec::u64_be_bytes;
use crate::codec::ExternalBufferSerde;
use crate::error::Error;

verus! {

broadcast use vstd::multiset::group_multiset_axioms;

/// One operation against a buffer, at the model level.
pub enum BufferOp<A> {
    Push(A),
    Shift,
}

/// The FIFO transition that the persistent buffer's contracts promise
/// of its window: a push appends, a shift takes the front or reports
/// the queue empty.
pub open spec fn fifo_step<A>(state: Seq<A>, op: BufferOp<A>) -> (Seq<A>, Option<A>) {
    match op {
        BufferOp::Push(a) => (state.push(a), None::<A>),
        BufferOp::Shift => if state.len() == 0 {
            (state, None::<A>)
        } else {
            (state.drop_first(), Some(state[0]))
        },
    }
}

/// Run a series of operations; the result is the final state and the
/// items the shifts emitted, in order.
pub open spec fn fifo_run<A>(state: Seq<A>, ops: Seq<BufferOp<A>>) -> (Seq<A>, Seq<A>)
    decreases ops.len(),
{
    if ops.len() == 0 {
        (state, Seq::empty())
    } else {
        let step = fifo_step(state, ops[0]);
        let rest = fifo_run(step.0, ops.drop_first());
        (
            rest.0,
            match step.1 {
                Some(a) => seq![a] + rest.1,
                None => rest.1,
            },
        )
    }
}

/// The items a series of operations pushes, in order.
pub open spec fn pushed<A>(ops: Seq<BufferOp<A>>) -> Seq<A>
    decreases ops.len(),
{
    if ops.len() == 0 {
        Seq::empty()
    } else {
        match ops[0] {
            BufferOp::Push(a) => seq![a] + pushed(ops.drop_first()),
            BufferOp::Shift => pushed(ops.drop_first()),
        }
    }
}

/// FIFO order and conservation: over any interleaving of pushes and
/// shifts, the emitted items followed by what remains queued are the
/// starting queue followed by the pushed items, in order. In
/// particular, items emerge in push order and none is lost or doubled.
pub proof fn lemma_fifo_conservation<A>(state: Seq<A>, ops: Seq<BufferOp<A>>)
    ensures
        fifo_run(state, ops).1 + fifo_run(state, ops).0 == state + pushed(ops),
    decreases ops.len(),
{
    if ops.len() == 0 {
        assert(fifo_run(state, ops).1 + fifo_run(state, ops).0 =~= state + pushed(ops));
    } else {
        let step = fifo_step(state, ops[0]);
        let rest = fifo_run(step.0, ops.drop_first());
        lemma_fifo_conservation(step.0, ops.drop_first());
        assert(rest.1 + rest.0 == step.0 + pushed(ops.drop_first()));
        assert(fifo_run(state, ops).0 == rest.0);
        match ops[0] {
            BufferOp::Push(a) => {
                assert(step.0 == state.push(a));
                assert(fifo_run(state, ops).1 == rest.1);
                assert(pushed(ops) == seq![a] + pushed(ops.drop_first()));
                assert(state.push(a) + pushed(ops.drop_first()) =~= state + pushed(ops));
                assert(fifo_run(state, ops).1 + fifo_run(state, ops).0 =~= state + pushed(ops));
            },
            BufferOp::Shift => {
                assert(pushed(ops) == pushed(ops.drop_first()));
                if state.len() == 0 {
                    assert(step.0 == state);
                    assert(fifo_run(state, ops).1 == rest.1);
                    assert(fifo_run(state, ops).1 + fifo_run(state, ops).0 =~= state + pushed(
                        ops,
                    ));
                } else {
                    assert(step.0 == state.drop_first());
                    assert(fifo_run(state, ops).1 == seq![state[0]] + rest.1);
                    assert(seq![state[0]] + state.drop_first() =~= state);
                    assert(seq![state[0]] + rest.1 + rest.0 =~= seq![state[0]] + (rest.1
                        + rest.0));
                    assert(seq![state[0]] + (state.drop_first() + pushed(ops.drop_first()))
                        =~= state + pushed(ops));
                    assert(fifo_run(state, ops).1 + fifo_run(state, ops).0 =~= state + pushed(
                        ops,
                    ));
                }
            },
        }
    }
}

/// FIFO order from an empty queue: the emitted items are exactly the
/// first pushed items, in push order.
pub proof fn lemma_fifo_order<A>(ops: Seq<BufferOp<A>>)
    ensures
        fifo_run(Seq::<A>::empty(), ops).1 == pushed(ops).take(
            fifo_run(Seq::<A>::empty(), ops).1.len() as int,
        ),
{
    lemma_fifo_conservation(Seq::<A>::empty(), ops);
    let emitted = fifo_run(Seq::<A>::empty(), ops).1;
    let remaining = fifo_run(Seq::<A>::empty(), ops).0;
    assert(Seq::<A>::empty() + pushed(ops) =~= pushed(ops));
    assert(emitted =~= pushed(ops).take(emitted.len() as int));
}

/// A push keeps every pushed item accounted for: it enters the bag of
/// buffered items, and nothing else moves.
pub proof fn lemma_push_conserves<V>(
    pushed_items: Multiset<V>,
    emitted: Multiset<V>,
    remaining: Multiset<V>,
    v: V,
)
    requires
        pushed_items == emitted.add(remaining),
    ensures
        pushed_items.insert(v) == emitted.add(remaining.insert(v)),
{
    assert(pushed_items.insert(v) =~= emitted.add(remaining.insert(v)));
}

/// A successful shift keeps every pushed item accounted for: the
/// returned item moves from the buffered bag to the emitted bag.
pub proof fn lemma_shift_conserves<V>(
    pushed_items: Multiset<V>,
    emitted: Multiset<V>,
    remaining: Multiset<V>,
    v: V,
)
    requires
        pushed_items == emitted.add(remaining),
        remaining.contains(v),
    ensures
        pushed_items == emitted.insert(v).add(remaining.remove(v)),
{
    assert(pushed_items =~= emitted.insert(v).add(remaining.remove(v)));
}

/// No duplication, no loss: once the buffer is empty, the shifts have
/// emitted exactly the pushed items, each exactly once.
pub proof fn lemma_all_items_delivered<V>(
    pushed_items: Multiset<V>,
    emitted: Multiset<V>,
    remaining: Multiset<V>,
)
    requires
        pushed_items == emitted.add(remaining),
        remaining.len() == 0,
    ensures
        emitted == pushed_items,
{
    vstd::multiset::lemma_multiset_empty_len(remaining);
    assert(emitted =~= pushed_items);
}

/// Crash-recovery: a store holding a value under every counter of the
/// range recovers the whole range as its window, in counter order.
pub proof fn lemma_recovery_window(m: Map<Seq<u8>, Seq<u8>>, lo: int, hi: int)
    requires
        0 <= lo <= hi,
        hi <= u64::MAX as int + 1,
        forall|k: int| lo <= k < hi ==> m.dom().contains(#[trigger] u64_be_bytes(k as u64)),
    ensures
        window_from(m, lo, hi).len() == hi - lo,
        forall|i: int|
            0 <= i < hi - lo ==> window_from(m, lo, hi)[i] == m[u64_be_bytes((lo + i) as u64)],
    decreases hi - lo,
{
    if lo < hi {
        lemma_recovery_window(m, lo + 1, hi);
        assert(window_from(m, lo, hi) == seq![m[u64_be_bytes(lo as u64)]] + window_from(
            m,
            lo + 1,
            hi,
        ));
    }
}

/// Round-trip serialization: any decode that meets the deserializer's
/// contract, applied to the encoding of a value, returns a value of the
/// same meaning — never an error and never a different value.
pub proof fn lemma_round_trip<T: ExternalBufferSerde>(x: T, v: Seq<u8>, r: Result<T, Error>)
    requires
        x.encodable(),
        v == x.encoding(),
        r matches Ok(y) ==> v == y.encoding() && y.encodable(),
        forall|z: T| z.encodable() && v == #[trigger] z.encoding() ==> r is Ok,
    ensures
        r matches Ok(y) && y.deep_view() == x.deep_view(),
{
    assert(r is Ok);
    let y = r->Ok_0;
    T::lemma_encoding_injective(x, y);
}

} // verus!
