//! The machine: current state, bindings, and transition dispatch.
use vstd::prelude::*;
use vstd::std_specs::cmp::PartialEqSpec;

use crate::dispatch::{fired, ran_in_order};

verus! {

broadcast use vstd::function::group_function_axioms;

/// A state machine over states of type `T` whose callbacks are of type `F`.
///
/// It owns its current state and its bindings, each a target state with a
/// callback. The bindings keep the order in which they were registered.
pub struct StateMachine<T, F> {
    current_state: T,
    targets: Vec<T>,
    callbacks: Vec<F>,
    /// Every callback invocation made so far, by binding index, in order;
    /// `switch` adds an entry only right after the call it names returns.
    log: Ghost<Seq<nat>>,
}

impl<T: PartialEq, F: FnMut()> StateMachine<T, F> {
    /// The current state.
    pub closed spec fn state(&self) -> T {
        self.current_state
    }

    /// The target state of each binding, in registration order.
    pub closed spec fn targets(&self) -> Seq<T> {
        self.targets@
    }

    /// The callback of each binding, in registration order.
    pub closed spec fn callbacks(&self) -> Seq<F> {
        self.callbacks@
    }

    /// Every callback invocation made since construction, as the index of
    /// the binding whose callback ran, in the order the calls happened.
    /// `switch` states of each entry it adds that the named callback
    /// completed a call (see `ran_in_order`).
    pub closed spec fn invocations(&self) -> Seq<nat> {
        self.log@
    }

    /// Each target state has its callback, and every callback may be called.
    pub closed spec fn wf(&self) -> bool {
        &&& self.targets@.len() == self.callbacks@.len()
        &&& forall|i: int| 0 <= i < self.callbacks@.len() ==> call_requires(#[trigger] self.callbacks@[i], ())
    }

    /// A machine in `initial_state` with no bindings, that has invoked nothing.
    pub fn new(initial_state: T) -> (r: Self)
        ensures
            r.wf(),
            r.state() == initial_state,
            r.targets() == Seq::<T>::empty(),
            r.callbacks() == Seq::<F>::empty(),
            r.invocations() == Seq::<nat>::empty(),
    {
        StateMachine {
            current_state: initial_state,
            targets: Vec::new(),
            callbacks: Vec::new(),
            log: Ghost(Seq::empty()),
        }
    }

    /// The state the machine is in.
    pub fn current_state(&self) -> (r: &T)
        ensures
            *r == self.state(),
    {
        &self.current_state
    }

    /// Registers `func` to run on every transition into `state`, after the
    /// callbacks registered before it. Nothing is replaced or merged, and
    /// `state` need not be the current state. `func` must accept a call with
    /// no arguments, as every closure without a precondition does.
    pub fn when(&mut self, state: T, func: F)
        requires
            old(self).wf(),
            call_requires(func, ()),
        ensures
            final(self).wf(),
            final(self).state() == old(self).state(),
            final(self).targets() == old(self).targets().push(state),
            final(self).callbacks() == old(self).callbacks().push(func),
            final(self).invocations() == old(self).invocations(),
    {
        self.targets.push(state);
        self.callbacks.push(func);
    }

    /// Enters `next_state`, also when it is the current state, then runs the
    /// callback of every binding whose target equals `next_state`, in
    /// registration order, each once, before returning. A callback cannot
    /// reach this machine while it runs, since `switch` borrows it
    /// exclusively, so dispatch is never reentered.
    pub fn switch(&mut self, next_state: T)
        requires
            old(self).wf(),
        ensures
            final(self).wf(),
            final(self).state() == next_state,
            final(self).targets() == old(self).targets(),
            final(self).callbacks() == old(self).callbacks(),
            final(self).invocations().len() >= old(self).invocations().len(),
            final(self).invocations().take(old(self).invocations().len() as int)
                == old(self).invocations(),
            ran_in_order(
                final(self).invocations().skip(old(self).invocations().len() as int),
                old(self).callbacks(),
            ),
            T::obeys_eq_spec() ==> final(self).invocations() == old(self).invocations()
                + fired(old(self).targets(), next_state),
            T::obeys_eq_spec() ==> forall|j: int|
                0 <= j < fired(old(self).targets(), next_state).len() ==> call_ensures(
                    old(self).callbacks()[#[trigger] fired(old(self).targets(), next_state)[j] as int],
                    (),
                    (),
                ),
    {
        self.current_state = next_state;
        let n = self.targets.len();
        let mut i: usize = 0;
        proof {
            assert(self.log@.take(self.log@.len() as int) =~= self.log@);
        }
        while i < n
            invariant
                self.wf(),
                n == self.targets@.len(),
                i <= n,
                self.targets@ == old(self).targets@,
                self.callbacks@ == old(self).callbacks@,
                self.current_state == next_state,
                self.log@.len() >= old(self).log@.len(),
                self.log@.take(old(self).log@.len() as int) == old(self).log@,
                ran_in_order(self.log@.skip(old(self).log@.len() as int), self.callbacks@),
                forall|j: int| old(self).log@.len() <= j < self.log@.len() ==> #[trigger] self.log@[j] < i,
                T::obeys_eq_spec() ==> self.log@ == old(self).log@ + fired(
                    self.targets@.take(i as int),
                    next_state,
                ),
            decreases n - i,
        {
            proof {
                assert(self.targets@.take(i + 1).drop_last() =~= self.targets@.take(i as int));
            }
            if self.targets[i] == self.current_state {
                let f = &mut self.callbacks[i];
                f();
                proof {
                    let before = self.log@;
                    self.log@ = self.log@.push(i as nat);
                    assert(self.log@.take(old(self).log@.len() as int) =~= before.take(old(self).log@.len() as int));
                    assert(self.log@.skip(old(self).log@.len() as int) =~= before.skip(old(self).log@.len() as int).push(i as nat));
                }
            }
            i += 1;
        }
        proof {
            assert(self.targets@.take(n as int) =~= self.targets@);
            if T::obeys_eq_spec() {
                assert(self.log@.skip(old(self).log@.len() as int) =~= fired(old(self).targets(), next_state));
            }
        }
    }
}

} // verus!
