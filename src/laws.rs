//! What holds of any sequence of calls on one deque.
//!
//! A trace lists the calls in the order in which they took effect: `Push(v)`
//! stands for a `push` of `v` that succeeded, `Pop` and `Steal` for calls of
//! `pop` and `steal`. Each step below is what the contract of that call says
//! it does to the contents (`push` appends at the bottom; `pop` and `steal`
//! follow `popped` and `stolen`).
use vstd::prelude::*;
use vstd::multiset::Multiset;
use vstd::seq_lib::{lemma_multiset_commutative, to_multiset_build};

use crate::deque::{popped, stolen};

verus! {

broadcast use vstd::multiset::group_multiset_axioms;

/// One call on the deque, as recorded in a trace.
pub enum DequeOp<T> {
    Push(T),
    Pop,
    Steal,
}

/// The contents after one call, and the value the call returned.
pub open spec fn step<T>(s: Seq<T>, op: DequeOp<T>) -> (Seq<T>, Option<T>) {
    match op {
        DequeOp::Push(v) => (s.push(v), None),
        DequeOp::Pop => popped(s),
        DequeOp::Steal => stolen(s),
    }
}

/// The values that a returned option holds: none or one.
pub open spec fn returned<T>(r: Option<T>) -> Seq<T> {
    match r {
        Some(v) => seq![v],
        None => Seq::empty(),
    }
}

/// Starting from contents `s`, the contents after the trace `ops`, and the
/// values handed out by its `pop` and `steal` calls, in order.
pub open spec fn run<T>(s: Seq<T>, ops: Seq<DequeOp<T>>) -> (Seq<T>, Seq<T>)
    decreases ops.len(),
{
    if ops.len() == 0 {
        (s, Seq::empty())
    } else {
        let (c, out) = run(s, ops.drop_last());
        let (c2, r) = step(c, ops.last());
        (c2, out + returned(r))
    }
}

/// The values that the trace pushes, in order.
pub open spec fn pushed<T>(ops: Seq<DequeOp<T>>) -> Seq<T>
    decreases ops.len(),
{
    if ops.len() == 0 {
        Seq::empty()
    } else {
        match ops.last() {
            DequeOp::Push(v) => pushed(ops.drop_last()).push(v),
            _ => pushed(ops.drop_last()),
        }
    }
}

/// A trace that pushes the values of `xs` in order.
pub open spec fn push_all<T>(xs: Seq<T>) -> Seq<DequeOp<T>> {
    xs.map_values(|v: T| DequeOp::Push(v))
}

/// A trace of `n` calls of `pop`.
pub open spec fn pop_n<T>(n: nat) -> Seq<DequeOp<T>> {
    Seq::new(n, |i: int| DequeOp::Pop)
}

/// Every call of the trace removes: none of them pushes.
pub open spec fn removals_only<T>(ops: Seq<DequeOp<T>>) -> bool {
    forall|i: int| 0 <= i < ops.len() ==> !(#[trigger] ops[i] is Push)
}

/// Exactly once: every value that was in the deque or was pushed onto it is
/// either handed out by exactly one `pop` or `steal`, or is still in the
/// deque; nothing is duplicated and nothing is lost.
pub proof fn lemma_exactly_once<T>(s: Seq<T>, ops: Seq<DequeOp<T>>)
    ensures
        run(s, ops).1.to_multiset().add(run(s, ops).0.to_multiset()) == s.to_multiset().add(
            pushed(ops).to_multiset(),
        ),
    decreases ops.len(),
{
    if ops.len() > 0 {
        let rest = ops.drop_last();
        lemma_exactly_once(s, rest);
        let (c, out) = run(s, rest);
        let (c2, r) = step(c, ops.last());
        lemma_multiset_commutative(out, returned(r));
        Seq::<T>::empty().to_multiset_ensures();
        assert(Seq::<T>::empty().to_multiset() =~= Multiset::<T>::empty());
        if let Some(v) = r {
            to_multiset_build(Seq::<T>::empty(), v);
            assert(returned(r) =~= Seq::<T>::empty().push(v));
        }
        match ops.last() {
            DequeOp::Push(v) => {
                to_multiset_build(c, v);
                to_multiset_build(pushed(rest), v);
            },
            DequeOp::Pop => {
                if c.len() > 0 {
                    assert(c =~= c.drop_last() + seq![c.last()]);
                    lemma_multiset_commutative(c.drop_last(), seq![c.last()]);
                }
            },
            DequeOp::Steal => {
                if c.len() > 0 {
                    assert(c =~= seq![c[0]] + c.drop_first());
                    lemma_multiset_commutative(seq![c[0]], c.drop_first());
                }
            },
        }
        assert(run(s, ops) == (c2, out + returned(r)));
        assert((out + returned(r)).to_multiset().add(c2.to_multiset()) =~= out.to_multiset().add(
            c.to_multiset(),
        ).add(pushed(ops).to_multiset().sub(pushed(rest).to_multiset())));
        assert(pushed(ops).to_multiset() =~= pushed(rest).to_multiset().add(
            pushed(ops).to_multiset().sub(pushed(rest).to_multiset()),
        ));
    }
}

/// A `pop` right after a `push` of `v`, with no call in between, hands `v`
/// back and leaves the contents as they were before the push.
pub proof fn lemma_push_then_pop<T>(s: Seq<T>, v: T)
    ensures
        popped(s.push(v)) == (s, Some(v)),
{
    assert(s.push(v).drop_last() =~= s);
}

/// Running two traces one after the other is running their concatenation.
proof fn lemma_run_concat<T>(s: Seq<T>, a: Seq<DequeOp<T>>, b: Seq<DequeOp<T>>)
    ensures
        run(s, a + b) == (run(run(s, a).0, b).0, run(s, a).1 + run(run(s, a).0, b).1),
    decreases b.len(),
{
    if b.len() == 0 {
        assert(a + b =~= a);
        assert(run(s, a).1 + Seq::<T>::empty() =~= run(s, a).1);
    } else {
        assert((a + b).drop_last() =~= a + b.drop_last());
        lemma_run_concat(s, a, b.drop_last());
        let mid = run(s, a);
        let (c, out) = run(mid.0, b.drop_last());
        let r = step(c, b.last()).1;
        assert(mid.1 + out + returned(r) =~= mid.1 + (out + returned(r)));
    }
}

/// Pushing `xs` appends it to the contents and hands nothing out.
proof fn lemma_run_pushes<T>(s: Seq<T>, xs: Seq<T>)
    ensures
        run(s, push_all(xs)) == (s + xs, Seq::<T>::empty()),
    decreases xs.len(),
{
    if xs.len() == 0 {
        assert(push_all(xs) =~= Seq::<DequeOp<T>>::empty());
        assert(s + xs =~= s);
    } else {
        assert(push_all(xs).drop_last() =~= push_all(xs.drop_last()));
        lemma_run_pushes(s, xs.drop_last());
        assert((s + xs.drop_last()).push(xs.last()) =~= s + xs);
        assert(Seq::<T>::empty() + Seq::<T>::empty() =~= Seq::<T>::empty());
    }
}

/// `k` pops hand out the last `k` values, the last one first.
proof fn lemma_run_pops<T>(c: Seq<T>, k: nat)
    requires
        k <= c.len(),
    ensures
        run(c, pop_n(k)) == (
            c.subrange(0, c.len() - k),
            c.subrange(c.len() - k, c.len() as int).reverse(),
        ),
    decreases k,
{
    let n = c.len() as int;
    if k == 0 {
        assert(pop_n::<T>(k) =~= Seq::<DequeOp<T>>::empty());
        assert(c.subrange(0, n) =~= c);
        assert(c.subrange(n, n).reverse() =~= Seq::<T>::empty());
    } else {
        assert(pop_n::<T>(k).drop_last() =~= pop_n::<T>((k - 1) as nat));
        lemma_run_pops(c, (k - 1) as nat);
        assert(c.subrange(0, n - k + 1).drop_last() =~= c.subrange(0, n - k));
        assert(c.subrange(n - k + 1, n).reverse() + seq![c[n - k]] =~= c.subrange(
            n - k,
            n,
        ).reverse());
    }
}

/// Last in, first out: with no stealer in between, pushing `xs` and then
/// popping as many times hands the values of `xs` back in reverse order,
/// each once, and leaves the contents as they were.
pub proof fn lemma_lifo<T>(s: Seq<T>, xs: Seq<T>)
    ensures
        run(s, push_all(xs) + pop_n(xs.len())) == (s, xs.reverse()),
{
    lemma_run_concat(s, push_all(xs), pop_n(xs.len()));
    lemma_run_pushes(s, xs);
    lemma_run_pops(s + xs, xs.len());
    assert((s + xs).subrange(0, s.len() as int) =~= s);
    assert((s + xs).subrange(s.len() as int, (s + xs).len() as int) =~= xs);
    assert(Seq::<T>::empty() + xs.reverse() =~= xs.reverse());
}

/// Removals from an empty deque hand nothing out and leave it empty.
proof fn lemma_run_removals_on_empty<T>(ops: Seq<DequeOp<T>>)
    requires
        removals_only(ops),
    ensures
        run(Seq::<T>::empty(), ops) == (Seq::<T>::empty(), Seq::<T>::empty()),
    decreases ops.len(),
{
    if ops.len() > 0 {
        assert(removals_only(ops.drop_last()));
        lemma_run_removals_on_empty(ops.drop_last());
        assert(!(ops[ops.len() - 1] is Push));
        assert(Seq::<T>::empty() + Seq::<T>::empty() =~= Seq::<T>::empty());
    }
}

/// Quiescence: once a trace from an empty deque has handed out as many
/// values as it pushed, the deque is empty, and any further `pop` and
/// `steal` calls hand out nothing and leave it empty.
pub proof fn lemma_quiescence<T>(ops: Seq<DequeOp<T>>, tail: Seq<DequeOp<T>>)
    requires
        run(Seq::<T>::empty(), ops).1.len() == pushed(ops).len(),
        removals_only(tail),
    ensures
        run(Seq::<T>::empty(), ops).0.len() == 0,
        run(Seq::<T>::empty(), ops + tail) == run(Seq::<T>::empty(), ops),
{
    let e = Seq::<T>::empty();
    lemma_exactly_once(e, ops);
    let (c, out) = run(e, ops);
    out.to_multiset_ensures();
    c.to_multiset_ensures();
    e.to_multiset_ensures();
    pushed(ops).to_multiset_ensures();
    assert(out.to_multiset().add(c.to_multiset()).len() == e.to_multiset().add(
        pushed(ops).to_multiset(),
    ).len());
    assert(c.len() == 0);
    assert(c =~= e);
    lemma_run_concat(e, ops, tail);
    lemma_run_removals_on_empty(tail);
    assert(out + e =~= out);
}

} // verus!
