//! Laws about sequences of calls on a queue, stated over the contracts of
//! `Queue::push` (the contents gain the value at the back) and `Queue::pop`
//! (the contents and result given by `removed`).
use vstd::prelude::*;

use crate::queue::removed;

verus! {

/// A call on a queue: the producer inserts a value, or the consumer removes one.
pub enum Call<T> {
    Insert(T),
    Remove,
}

/// The contents after `calls` are made, in order, on a queue holding `s`, and
/// what each removal among them returned.
pub open spec fn run<T>(s: Seq<T>, calls: Seq<Call<T>>) -> (Seq<T>, Seq<Option<T>>)
    decreases calls.len(),
{
    if calls.len() == 0 {
        (s, Seq::empty())
    } else {
        let before = run(s, calls.drop_last());
        match calls.last() {
            Call::Insert(v) => (before.0.push(v), before.1),
            Call::Remove => {
                let after = removed(before.0);
                (after.0, before.1.push(after.1))
            },
        }
    }
}

/// The values that `calls` insert, in order.
pub open spec fn inserted<T>(calls: Seq<Call<T>>) -> Seq<T>
    decreases calls.len(),
{
    if calls.len() == 0 {
        Seq::empty()
    } else {
        match calls.last() {
            Call::Insert(v) => inserted(calls.drop_last()).push(v),
            Call::Remove => inserted(calls.drop_last()),
        }
    }
}

/// The values among `results`, in order, leaving out the empty ones.
pub open spec fn values_of<T>(results: Seq<Option<T>>) -> Seq<T>
    decreases results.len(),
{
    if results.len() == 0 {
        Seq::empty()
    } else {
        match results.last() {
            Some(v) => values_of(results.drop_last()).push(v),
            None => values_of(results.drop_last()),
        }
    }
}

/// One insertion of each value of `vs`, in order.
pub open spec fn inserts<T>(vs: Seq<T>) -> Seq<Call<T>> {
    vs.map_values(|v: T| Call::Insert(v))
}

/// `n` removals.
pub open spec fn removes<T>(n: nat) -> Seq<Call<T>> {
    Seq::new(n, |i: int| Call::Remove)
}

proof fn lemma_run_append<T>(s: Seq<T>, a: Seq<Call<T>>, b: Seq<Call<T>>)
    ensures
        run(s, a + b).0 == run(run(s, a).0, b).0,
        run(s, a + b).1 == run(s, a).1 + run(run(s, a).0, b).1,
    decreases b.len(),
{
    if b.len() == 0 {
        assert(a + b =~= a);
        assert(run(s, a).1 + Seq::<Option<T>>::empty() =~= run(s, a).1);
    } else {
        lemma_run_append(s, a, b.drop_last());
        assert((a + b).drop_last() =~= a + b.drop_last());
        assert((a + b).last() == b.last());
        let mid = run(s, a);
        let tail = run(mid.0, b.drop_last());
        match b.last() {
            Call::Insert(v) => {},
            Call::Remove => {
                assert(mid.1 + tail.1.push(removed(tail.0).1) =~= (mid.1 + tail.1).push(
                    removed(tail.0).1,
                ));
            },
        }
    }
}

proof fn lemma_run_inserts<T>(s: Seq<T>, vs: Seq<T>)
    ensures
        run(s, inserts(vs)).0 == s + vs,
        run(s, inserts(vs)).1 == Seq::<Option<T>>::empty(),
    decreases vs.len(),
{
    if vs.len() == 0 {
        assert(inserts(vs) =~= Seq::<Call<T>>::empty());
        assert(s + vs =~= s);
    } else {
        lemma_run_inserts(s, vs.drop_last());
        assert(inserts(vs).drop_last() =~= inserts(vs.drop_last()));
        assert(s + vs =~= (s + vs.drop_last()).push(vs.last()));
    }
}

proof fn lemma_run_removes<T>(s: Seq<T>, n: nat)
    ensures
        n <= s.len() ==> run(s, removes::<T>(n)).0 == s.subrange(n as int, s.len() as int),
        n <= s.len() ==> run(s, removes::<T>(n)).1 == s.take(n as int).map_values(
            |v: T| Some(v),
        ),
        s.len() == 0 ==> run(s, removes::<T>(n)).0 == s,
        s.len() == 0 ==> run(s, removes::<T>(n)).1 == Seq::new(n, |i: int| None::<T>),
    decreases n,
{
    if n == 0 {
        assert(removes::<T>(0) =~= Seq::<Call<T>>::empty());
        assert(s.subrange(0, s.len() as int) =~= s);
        assert(s.take(0).map_values(|v: T| Some(v)) =~= Seq::<Option<T>>::empty());
        assert(Seq::new(0, |i: int| None::<T>) =~= Seq::<Option<T>>::empty());
    } else {
        lemma_run_removes(s, (n - 1) as nat);
        assert(removes::<T>(n).drop_last() =~= removes::<T>((n - 1) as nat));
        if n <= s.len() {
            let r = s.subrange(n - 1, s.len() as int);
            assert(r.drop_first() =~= s.subrange(n as int, s.len() as int));
            assert(s.take((n - 1) as int).map_values(|v: T| Some(v)).push(Some(r[0])) =~= s.take(
                n as int,
            ).map_values(|v: T| Some(v)));
        }
        if s.len() == 0 {
            assert(Seq::new((n - 1) as nat, |i: int| None::<T>).push(None) =~= Seq::new(
                n,
                |i: int| None::<T>,
            ));
        }
    }
}

/// Fresh-queue emptiness: a removal from a new, empty queue returns nothing
/// and leaves it empty.
pub proof fn lemma_fresh_queue_empty<T>()
    ensures
        run(Seq::<T>::empty(), seq![Call::<T>::Remove]) == (
            Seq::<T>::empty(),
            seq![None::<T>],
        ),
{
    let e = Seq::<T>::empty();
    let calls = seq![Call::<T>::Remove];
    assert(calls.drop_last() =~= Seq::<Call<T>>::empty());
    assert(run(e, calls.drop_last()) == (e, Seq::<Option<T>>::empty()));
    assert(calls.last() == Call::<T>::Remove);
    assert(removed(e) == (e, None::<T>));
    assert(Seq::<Option<T>>::empty().push(None) =~= seq![None::<T>]);
}

/// FIFO: values inserted into an empty queue before any removal come out of
/// as many removals in the order in which they went in.
pub proof fn lemma_fifo<T>(vs: Seq<T>)
    ensures
        run(Seq::<T>::empty(), inserts(vs) + removes::<T>(vs.len())).1 == vs.map_values(
            |v: T| Some(v),
        ),
{
    let e = Seq::<T>::empty();
    lemma_run_append(e, inserts(vs), removes::<T>(vs.len()));
    lemma_run_inserts(e, vs);
    assert(e + vs =~= vs);
    lemma_run_removes(vs, vs.len());
    assert(vs.take(vs.len() as int) =~= vs);
    assert(Seq::<Option<T>>::empty() + vs.map_values(|v: T| Some(v)) =~= vs.map_values(
        |v: T| Some(v),
    ));
}

/// Drain to empty: after `vs` are inserted into an empty queue and as many
/// values removed, the queue is empty, and each of `k` further removals
/// returns nothing.
pub proof fn lemma_drain_to_empty<T>(vs: Seq<T>, k: nat)
    ensures
        run(Seq::<T>::empty(), inserts(vs) + removes::<T>(vs.len()) + removes::<T>(k)) == (
            Seq::<T>::empty(),
            vs.map_values(|v: T| Some(v)) + Seq::new(k, |i: int| None::<T>),
        ),
{
    let e = Seq::<T>::empty();
    let first = inserts(vs) + removes::<T>(vs.len());
    lemma_fifo(vs);
    lemma_run_append(e, first, removes::<T>(k));
    lemma_run_append(e, inserts(vs), removes::<T>(vs.len()));
    lemma_run_inserts(e, vs);
    assert(e + vs =~= vs);
    lemma_run_removes(vs, vs.len());
    assert(vs.subrange(vs.len() as int, vs.len() as int) =~= e);
    lemma_run_removes(e, k);
}

/// No loss and no duplication: whatever calls are made, the values returned
/// followed by the values still held are exactly the values held at the start
/// followed by the values inserted, in order. So every inserted value is
/// returned at most once, in insertion order, and nothing else is returned.
pub proof fn lemma_no_loss_no_duplication<T>(s: Seq<T>, calls: Seq<Call<T>>)
    ensures
        values_of(run(s, calls).1) + run(s, calls).0 == s + inserted(calls),
    decreases calls.len(),
{
    if calls.len() == 0 {
        assert(Seq::<T>::empty() + s =~= s);
        assert(s + Seq::<T>::empty() =~= s);
    } else {
        lemma_no_loss_no_duplication(s, calls.drop_last());
        let before = run(s, calls.drop_last());
        let out = values_of(before.1);
        match calls.last() {
            Call::Insert(v) => {
                assert(out + before.0.push(v) =~= (out + before.0).push(v));
                assert(s + inserted(calls.drop_last()).push(v) =~= (s + inserted(
                    calls.drop_last(),
                )).push(v));
            },
            Call::Remove => {
                if before.0.len() == 0 {
                    assert(before.1.push(None).drop_last() =~= before.1);
                } else {
                    let held = before.0;
                    assert(before.1.push(Some(held[0])).drop_last() =~= before.1);
                    assert(out.push(held[0]) + held.drop_first() =~= out + held);
                }
            },
        }
    }
}

} // verus!
