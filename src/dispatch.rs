//! The dispatch rule, stated over the states that the bindings target.
use vstd::prelude::*;
use vstd::std_specs::cmp::PartialEqSpec;

verus! {

/// The indices of the bindings that a transition into `next` fires, in the
/// order in which they fire: every index whose target state equals `next`,
/// ascending, each once.
pub open spec fn fired<T: PartialEq>(targets: Seq<T>, next: T) -> Seq<nat>
    decreases targets.len(),
{
    if targets.len() == 0 {
        Seq::empty()
    } else {
        let rest = fired(targets.drop_last(), next);
        if targets.last().eq_spec(&next) {
            rest.push((targets.len() - 1) as nat)
        } else {
            rest
        }
    }
}

/// A record of invocations that names bindings in strictly ascending order,
/// each below the number of callbacks, and whose every entry is a completed
/// call of that binding's callback with no arguments.
pub open spec fn ran_in_order<F: FnMut()>(log: Seq<nat>, callbacks: Seq<F>) -> bool {
    &&& forall|j: int| 0 <= j < log.len() ==> #[trigger] log[j] < callbacks.len()
    &&& forall|j: int, l: int| 0 <= j < l < log.len() ==> log[j] < log[l]
    &&& forall|j: int| 0 <= j < log.len() ==> call_ensures(callbacks[#[trigger] log[j] as int], (), ())
}

/// A transition on a machine with no bindings runs no callback, whatever
/// the state type and its equality.
pub proof fn law_nothing_bound_nothing_runs<F: FnMut()>(log: Seq<nat>, callbacks: Seq<F>)
    requires
        callbacks.len() == 0,
        ran_in_order(log, callbacks),
    ensures
        log.len() == 0,
{
    if log.len() > 0 {
        assert(log[0] < callbacks.len());
    }
}

/// How many times binding `k` appears in a record of invocations.
pub open spec fn times_invoked(log: Seq<nat>, k: nat) -> nat
    decreases log.len(),
{
    if log.len() == 0 {
        0
    } else {
        times_invoked(log.drop_last(), k) + if log.last() == k { 1nat } else { 0nat }
    }
}

/// What a transition into `next` fires: exactly the bindings whose target
/// equals `next`, each once, in ascending order of registration.
pub proof fn lemma_fired_exact<T: PartialEq>(targets: Seq<T>, next: T)
    ensures
        forall|j: int| 0 <= j < fired(targets, next).len() ==> #[trigger] fired(targets, next)[j] < targets.len(),
        forall|j: int, l: int| 0 <= j < l < fired(targets, next).len() ==> fired(targets, next)[j] < fired(targets, next)[l],
        forall|k: nat| k < targets.len() ==> #[trigger] times_invoked(fired(targets, next), k) == if targets[k as int].eq_spec(&next) { 1nat } else { 0nat },
    decreases targets.len(),
{
    if targets.len() > 0 {
        let rest = targets.drop_last();
        lemma_fired_exact(rest, next);
        let f = fired(rest, next);
        let n = (targets.len() - 1) as nat;
        lemma_absent_not_counted(f, n);
        if targets.last().eq_spec(&next) {
            assert(fired(targets, next) == f.push(n));
            assert(f.push(n).drop_last() =~= f);
        } else {
            assert(fired(targets, next) == f);
        }
        assert forall|k: nat| k < targets.len() implies #[trigger] times_invoked(fired(targets, next), k) == if targets[k as int].eq_spec(&next) { 1nat } else { 0nat } by {
            if k < n {
                assert(rest[k as int] == targets[k as int]);
                assert(times_invoked(f, k) == if rest[k as int].eq_spec(&next) { 1nat } else { 0nat });
            }
        }
    }
}

/// An index that every entry of a record lies below is not in it.
proof fn lemma_absent_not_counted(log: Seq<nat>, k: nat)
    requires
        forall|j: int| 0 <= j < log.len() ==> #[trigger] log[j] < k,
    ensures
        times_invoked(log, k) == 0,
    decreases log.len(),
{
    if log.len() > 0 {
        lemma_absent_not_counted(log.drop_last(), k);
    }
}

/// Counting invocations in two records one after the other adds up.
proof fn lemma_times_invoked_append(a: Seq<nat>, b: Seq<nat>, k: nat)
    ensures
        times_invoked(a + b, k) == times_invoked(a, k) + times_invoked(b, k),
    decreases b.len(),
{
    if b.len() == 0 {
        assert(a + b =~= a);
    } else {
        lemma_times_invoked_append(a, b.drop_last(), k);
        assert((a + b).drop_last() =~= a + b.drop_last());
    }
}

/// A callback registered for `x` does not run on a transition into a state
/// `y` that differs from `x`.
pub proof fn law_other_state_does_not_fire<T: PartialEq>(targets: Seq<T>, x: T, y: T)
    requires
        !x.eq_spec(&y),
    ensures
        times_invoked(fired(targets.push(x), y), targets.len()) == 0,
{
    lemma_fired_exact(targets.push(x), y);
}

/// A callback registered for `x` runs exactly once on a transition into `x`.
pub proof fn law_same_state_fires_once<T: PartialEq>(targets: Seq<T>, x: T)
    requires
        x.eq_spec(&x),
    ensures
        times_invoked(fired(targets.push(x), x), targets.len()) == 1,
{
    lemma_fired_exact(targets.push(x), x);
}

/// Three callbacks registered for `x` one after the other run on a transition
/// into `x` in the order of registration, each once, after the earlier
/// bindings that `x` fires.
pub proof fn law_registration_order_kept<T: PartialEq>(targets: Seq<T>, x: T)
    requires
        x.eq_spec(&x),
    ensures
        fired(targets.push(x).push(x).push(x), x) == fired(targets, x) + seq![
            targets.len(),
            targets.len() + 1,
            targets.len() + 2,
        ],
{
    let n = targets.len();
    let t1 = targets.push(x);
    let t2 = t1.push(x);
    let t3 = t2.push(x);
    assert(t1.drop_last() =~= targets);
    assert(t2.drop_last() =~= t1);
    assert(t3.drop_last() =~= t2);
    assert(fired(t1, x) == fired(targets, x).push(n));
    assert(fired(t2, x) == fired(t1, x).push(n + 1));
    assert(fired(t3, x) == fired(t2, x).push(n + 2));
    assert(fired(t3, x) =~= fired(targets, x) + seq![
        targets.len(),
        targets.len() + 1,
        targets.len() + 2,
    ]);
}

/// A binding is not touched by a transition into a state other than its
/// target: it is not among the bindings fired.
pub proof fn law_other_binding_untouched<T: PartialEq>(targets: Seq<T>, k: nat, y: T)
    requires
        k < targets.len(),
        !targets[k as int].eq_spec(&y),
    ensures
        times_invoked(fired(targets, y), k) == 0,
        !fired(targets, y).contains(k),
{
    lemma_fired_exact(targets, y);
    if fired(targets, y).contains(k) {
        let j = choose|j: int| 0 <= j < fired(targets, y).len() && fired(targets, y)[j] == k;
        lemma_counted_if_present(fired(targets, y), j);
    }
}

/// An entry of a record is counted.
proof fn lemma_counted_if_present(log: Seq<nat>, j: int)
    requires
        0 <= j < log.len(),
    ensures
        times_invoked(log, log[j]) >= 1,
    decreases log.len(),
{
    if j < log.len() - 1 {
        lemma_counted_if_present(log.drop_last(), j);
    }
}

/// Two transitions into `x`, with any invocations between them, run every
/// callback bound to `x` twice: there is no firing only once.
pub proof fn law_every_transition_fires<T: PartialEq>(
    log: Seq<nat>,
    targets: Seq<T>,
    x: T,
    between: Seq<nat>,
    k: nat,
)
    requires
        k < targets.len(),
        targets[k as int].eq_spec(&x),
    ensures
        times_invoked(log + fired(targets, x) + between + fired(targets, x), k) == times_invoked(log, k) + times_invoked(between, k) + 2,
{
    lemma_fired_exact(targets, x);
    let f = fired(targets, x);
    lemma_times_invoked_append(log + f + between, f, k);
    lemma_times_invoked_append(log + f, between, k);
    lemma_times_invoked_append(log, f, k);
}

} // verus!
