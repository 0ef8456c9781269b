use vstd::prelude::*;
use crate::pvec::{popped, written};

verus! {

/// Cloning a `T` gives back an equal value (true of the integer types).
pub open spec fn clone_exact<T: Clone>() -> bool {
    forall|a: T, b: T| #[trigger] cloned(a, b) ==> a == b
}

/// Cloning a `usize` gives back the same number.
pub proof fn lemma_usize_clone_exact()
    ensures
        clone_exact::<usize>(),
{
    assert forall|a: usize, b: usize| #[trigger] cloned(a, b) implies a == b by {}
}

/// Cloning a `u64` gives back the same number.
pub proof fn lemma_u64_clone_exact()
    ensures
        clone_exact::<u64>(),
{
    assert forall|a: u64, b: u64| #[trigger] cloned(a, b) implies a == b by {}
}

/// Cloning an `i64` gives back the same number.
pub proof fn lemma_i64_clone_exact()
    ensures
        clone_exact::<i64>(),
{
    assert forall|a: i64, b: i64| #[trigger] cloned(a, b) implies a == b by {}
}

/// Cloning an `i32` gives back the same number.
pub proof fn lemma_i32_clone_exact()
    ensures
        clone_exact::<i32>(),
{
    assert forall|a: i32, b: i32| #[trigger] cloned(a, b) implies a == b by {}
}

/// A read gives back what a push wrote: after pushing `x` onto `s`, the
/// new last position is readable and holds `x`, and the earlier positions
/// hold what they held.
pub proof fn law_push_then_get<T>(s: Seq<T>, x: T, t: Seq<T>)
    requires
        t == s.push(x),
    ensures
        t.len() == s.len() + 1,
        s.len() / 32 <= t.len() / 32,
        t[s.len() as int] == x,
        forall|j: int| 0 <= j < s.len() ==> #[trigger] t[j] == s[j],
{
}

/// A pop undoes a push: it returns the pushed element and leaves the
/// elements before it (each possibly cloned), exactly so when the pushed
/// element did not complete a block of 32.
pub proof fn law_pop_after_push<T: Clone>(s: Seq<T>, x: T, r: Option<T>, t: Seq<T>)
    requires
        popped(s.push(x), r, t),
    ensures
        r is Some,
        cloned(x, r->0),
        t.len() == s.len(),
        forall|j: int| 0 <= j < s.len() ==> cloned(s[j], #[trigger] t[j]),
        s.len() % 32 != 31 ==> r == Some(x) && t == s,
{
    let u = s.push(x);
    assert(u.last() == x);
    assert forall|j: int| 0 <= j < s.len() implies cloned(s[j], #[trigger] t[j]) by {
        assert(u[j] == s[j]);
    }
    if s.len() % 32 != 31 {
        assert(u.len() % 32 != 0) by {
            vstd::arithmetic::div_mod::lemma_fundamental_div_mod(s.len() as int, 32);
            vstd::arithmetic::div_mod::lemma_fundamental_div_mod(u.len() as int, 32);
        }
        assert(u.drop_last() =~= s);
    }
}

/// A push undoes a pop that took an element out of a block that was not
/// full.
pub proof fn law_push_after_pop<T: Clone>(s: Seq<T>, r: Option<T>, t: Seq<T>)
    requires
        popped(s, r, t),
        s.len() % 32 != 0,
    ensures
        r is Some,
        t.push(r->0) == s,
{
    assert(t.push(r->0) =~= s);
}

/// Popping an empty vector gives nothing and changes nothing.
pub proof fn law_pop_empty<T: Clone>(s: Seq<T>, r: Option<T>, t: Seq<T>)
    requires
        popped(s, r, t),
        s.len() == 0,
    ensures
        r is None,
        t == s,
{
}

/// A read gives back what a write through `get_mut` wrote, at a position
/// that stays readable.
pub proof fn law_write_then_get<T: Clone>(s: Seq<T>, i: int, v: T, t: Seq<T>)
    requires
        written(s, i, v, t),
    ensures
        t.len() == s.len(),
        i / 32 <= t.len() / 32,
        t[i] == v,
{
    vstd::arithmetic::div_mod::lemma_div_is_ordered(i, t.len() as int, 32);
}

/// For element types whose clones are equal values, a pop undoes a push
/// exactly.
pub proof fn law_pop_after_push_exact<T: Clone>(s: Seq<T>, x: T, r: Option<T>, t: Seq<T>)
    requires
        clone_exact::<T>(),
        popped(s.push(x), r, t),
    ensures
        r == Some(x),
        t == s,
{
    law_pop_after_push(s, x, r, t);
    assert forall|j: int| 0 <= j < s.len() implies #[trigger] t[j] == s[j] by {
        assert(cloned(s[j], t[j]));
    }
    assert(cloned(x, r->0));
    assert(t =~= s);
}

/// For element types whose clones are equal values, a pop acts as on a
/// `Vec` (and a push always does): it returns the last element and drops
/// it, so any sequence of pushes and pops gives the same results as on a
/// `Vec`.
pub proof fn law_pop_exact<T: Clone>(s: Seq<T>, r: Option<T>, t: Seq<T>)
    requires
        clone_exact::<T>(),
        popped(s, r, t),
    ensures
        s.len() == 0 ==> r is None && t == s,
        s.len() > 0 ==> r == Some(s.last()) && t == s.drop_last(),
{
    if s.len() > 0 {
        assert(cloned(s.last(), r->0));
        assert forall|j: int| 0 <= j < t.len() implies #[trigger] t[j] == s.drop_last()[j] by {
            assert(cloned(s[j], t[j]));
        }
        assert(t =~= s.drop_last());
    }
}

/// For element types whose clones are equal values, a write through
/// `get_mut` changes exactly one position.
pub proof fn law_write_exact<T: Clone>(s: Seq<T>, i: int, v: T, t: Seq<T>)
    requires
        clone_exact::<T>(),
        written(s, i, v, t),
    ensures
        t == s.update(i, v),
{
    assert forall|j: int| 0 <= j < s.len() && j != i implies #[trigger] t[j] == s[j] by {
        assert(cloned(s[j], t[j]));
    }
    assert(t =~= s.update(i, v));
}

/// One call on a vector: a push of an element, or a pop.
pub enum Op<T> {
    Push(T),
    Pop,
}

/// What one call does to the elements `s` of a vector, as the contracts of
/// `push` and `pop` state it; `r` is what the call returns (`None` for a
/// push).
pub open spec fn step<T: Clone>(s: Seq<T>, op: Op<T>, r: Option<T>, t: Seq<T>) -> bool {
    match op {
        Op::Push(x) => r is None && t == s.push(x),
        Op::Pop => popped(s, r, t),
    }
}

/// What the same call does on a `Vec` holding `s`: its result and the
/// elements after it.
pub open spec fn vec_step<T>(s: Seq<T>, op: Op<T>) -> (Option<T>, Seq<T>) {
    match op {
        Op::Push(x) => (None, s.push(x)),
        Op::Pop => if s.len() == 0 {
            (None, s)
        } else {
            (Some(s.last()), s.drop_last())
        },
    }
}

/// The elements of a `Vec` that starts empty and receives `ops` in order.
pub open spec fn vec_run<T>(ops: Seq<Op<T>>) -> Seq<T>
    decreases ops.len(),
{
    if ops.len() == 0 {
        Seq::empty()
    } else {
        vec_step(vec_run(ops.drop_last()), ops.last()).1
    }
}

/// A vector that starts empty (`PVec::new`) and receives `ops` in order,
/// going through the element sequences `states` and returning `results`.
pub open spec fn is_run<T: Clone>(
    ops: Seq<Op<T>>,
    results: Seq<Option<T>>,
    states: Seq<Seq<T>>,
) -> bool {
    &&& states.len() == ops.len() + 1
    &&& results.len() == ops.len()
    &&& states[0] == Seq::<T>::empty()
    &&& forall|i: int| 0 <= i < ops.len() ==> #[trigger] step(states[i], ops[i], results[i], states[i + 1])
}

/// One call changes the length, and succeeds or not, as on a `Vec`.
pub proof fn lemma_step_length<T: Clone>(s: Seq<T>, op: Op<T>, r: Option<T>, t: Seq<T>)
    requires
        step(s, op, r, t),
    ensures
        t.len() == vec_step(s, op).1.len(),
        r is Some <==> vec_step(s, op).0 is Some,
{
}

/// Running the first `i + 1` calls on a `Vec` is running the first `i`
/// and then call `i`.
pub proof fn lemma_vec_run_step<T>(ops: Seq<Op<T>>, i: int)
    requires
        0 <= i < ops.len(),
    ensures
        vec_run(ops.take(i + 1)) == vec_step(vec_run(ops.take(i)), ops[i]).1,
{
    assert(ops.take(i + 1).drop_last() =~= ops.take(i));
}

/// After the first `i` calls of a run, the vector has the length of a
/// `Vec` that received the same calls.
pub proof fn lemma_run_length_at<T: Clone>(
    ops: Seq<Op<T>>,
    results: Seq<Option<T>>,
    states: Seq<Seq<T>>,
    i: int,
)
    requires
        is_run(ops, results, states),
        0 <= i <= ops.len(),
    ensures
        states[i].len() == vec_run(ops.take(i)).len(),
    decreases i,
{
    if i == 0 {
        assert(ops.take(0) =~= Seq::<Op<T>>::empty());
    } else {
        lemma_run_length_at(ops, results, states, i - 1);
        let j = i - 1;
        assert(step(states[j], ops[j], results[j], states[j + 1]));
        assert(j + 1 == i);
        lemma_step_length(states[i - 1], ops[i - 1], results[i - 1], states[i]);
        lemma_vec_run_step(ops, i - 1);
        match ops[i - 1] {
            Op::Push(x) => {},
            Op::Pop => {},
        }
    }
}

/// After the first `i` calls of a run on an element type whose clones are
/// equal values, the vector holds what a `Vec` that received the same
/// calls holds.
pub proof fn lemma_run_state_at<T: Clone>(
    ops: Seq<Op<T>>,
    results: Seq<Option<T>>,
    states: Seq<Seq<T>>,
    i: int,
)
    requires
        clone_exact::<T>(),
        is_run(ops, results, states),
        0 <= i <= ops.len(),
    ensures
        states[i] == vec_run(ops.take(i)),
        i < ops.len() ==> results[i] == vec_step(vec_run(ops.take(i)), ops[i]).0,
    decreases i,
{
    if i == 0 {
        assert(ops.take(0) =~= Seq::<Op<T>>::empty());
    } else {
        lemma_run_state_at(ops, results, states, i - 1);
        let j = i - 1;
        assert(step(states[j], ops[j], results[j], states[j + 1]));
        assert(j + 1 == i);
        lemma_vec_run_step(ops, i - 1);
        match ops[i - 1] {
            Op::Push(x) => {},
            Op::Pop => {
                law_pop_exact(states[i - 1], results[i - 1], states[i]);
            },
        }
    }
    if i < ops.len() {
        assert(step(states[i], ops[i], results[i], states[i + 1]));
        match ops[i] {
            Op::Push(x) => {},
            Op::Pop => {
                law_pop_exact(states[i], results[i], states[i + 1]);
            },
        }
    }
}

/// The length of a vector after any sequence of pushes and pops is the
/// number of pushes less the number of pops that returned an element,
/// as for a `Vec`; a pop returns an element exactly when a `Vec`'s would.
pub proof fn law_run_length<T: Clone>(ops: Seq<Op<T>>, results: Seq<Option<T>>, states: Seq<Seq<T>>)
    requires
        is_run(ops, results, states),
    ensures
        forall|i: int| 0 <= i <= ops.len() ==> #[trigger] states[i].len() == vec_run(ops.take(i)).len(),
        forall|i: int|
            0 <= i < ops.len() ==> (#[trigger] results[i] is Some <==> vec_step(
                vec_run(ops.take(i)),
                ops[i],
            ).0 is Some),
{
    assert forall|i: int| 0 <= i <= ops.len() implies #[trigger] states[i].len() == vec_run(
        ops.take(i),
    ).len() by {
        lemma_run_length_at(ops, results, states, i);
    }
    assert forall|i: int| 0 <= i < ops.len() implies (#[trigger] results[i] is Some <==> vec_step(
        vec_run(ops.take(i)),
        ops[i],
    ).0 is Some) by {
        lemma_run_length_at(ops, results, states, i);
        assert(step(states[i], ops[i], results[i], states[i + 1]));
        lemma_step_length(states[i], ops[i], results[i], states[i + 1]);
        match ops[i] {
            Op::Push(x) => {},
            Op::Pop => {},
        }
    }
}

/// For element types whose clones are equal values, a vector behaves as a
/// `Vec` under any sequence of pushes and pops: each call returns what the
/// `Vec`'s would, and the elements are the `Vec`'s after every call.
pub proof fn law_run_matches_vec<T: Clone>(
    ops: Seq<Op<T>>,
    results: Seq<Option<T>>,
    states: Seq<Seq<T>>,
)
    requires
        clone_exact::<T>(),
        is_run(ops, results, states),
    ensures
        forall|i: int| 0 <= i <= ops.len() ==> #[trigger] states[i] == vec_run(ops.take(i)),
        forall|i: int|
            0 <= i < ops.len() ==> #[trigger] results[i] == vec_step(vec_run(ops.take(i)), ops[i]).0,
{
    assert forall|i: int| 0 <= i <= ops.len() implies #[trigger] states[i] == vec_run(ops.take(i)) by {
        lemma_run_state_at(ops, results, states, i);
    }
    assert forall|i: int| 0 <= i < ops.len() implies #[trigger] results[i] == vec_step(
        vec_run(ops.take(i)),
        ops[i],
    ).0 by {
        lemma_run_state_at(ops, results, states, i);
    }
}

} // verus!
