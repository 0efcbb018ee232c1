//! The scheduler: owns the registered preprocessors and the alive and dead
//! system slots, drives the tick loop, and decides global termination.
//!
//! Registration is validated eagerly: a system whose dependency keys name an
//! unregistered preprocessor is rejected on the spot, as is a preprocessor
//! whose identity key collides with an earlier registration. Consequently a
//! run can never encounter a missing derived value, and the tick loop itself
//! is total.

use vstd::prelude::*;

use crate::State;
use crate::System;
use crate::Preprocessor;
use crate::dispatch::gather_inputs;
use crate::filtering::distinct_seq;
use crate::filtering::lemma_concat_contains;
use crate::filtering::lemma_distinct_concat_join;
use crate::filtering::lemma_distinct_concat_parts;
use crate::filtering::lemma_select_where_contains;
use crate::filtering::lemma_select_where_increasing;
use crate::filtering::lemma_select_where_partition;
use crate::filtering::lemma_select_where_push;
use crate::filtering::select_where;
use crate::filtering::strictly_increasing;
use crate::key::RegistrationKey;

verus! {

/// One registered system together with its ordered dependency keys, fixed at
/// registration. A slot belongs to exactly one of the scheduler's two
/// collections — alive or dead — and moves alive to dead at most once. The
/// ghost registration number records the order in which slots were added.
pub struct SystemSlot<S> {
    system: S,
    deps: Vec<RegistrationKey>,
    reg: Ghost<nat>,
}

impl<S> SystemSlot<S> {
    /// The system instance the slot owns.
    pub closed spec fn sys(self) -> S {
        self.system
    }

    /// The identity keys the system depends on, in declaration order.
    pub closed spec fn dep_keys(self) -> Seq<RegistrationKey> {
        self.deps@
    }

    /// The slot's registration number: its position in registration order.
    pub closed spec fn reg_id(self) -> nat {
        self.reg@
    }

    /// The system instance the slot owns.
    pub fn system(&self) -> (r: &S)
        ensures
            *r == self.sys(),
    {
        &self.system
    }

    /// Takes the system instance out of the slot.
    pub fn into_system(self) -> (r: S)
        ensures
            r == self.sys(),
    {
        self.system
    }

    /// The identity keys the system depends on, in declaration order.
    pub fn dependencies(&self) -> (r: &Vec<RegistrationKey>)
        ensures
            r@ == self.dep_keys(),
    {
        &self.deps
    }
}

/// The registration numbers of `slots`, in order.
pub open spec fn regs_of<S>(slots: Seq<SystemSlot<S>>) -> Seq<nat> {
    slots.map_values(|sl: SystemSlot<S>| sl.reg_id())
}

/// The dependency-key lists of `slots`, in order.
pub open spec fn deps_of<S>(slots: Seq<SystemSlot<S>>) -> Seq<Seq<RegistrationKey>> {
    slots.map_values(|sl: SystemSlot<S>| sl.dep_keys())
}

/// Every key of `deps` names a registered preprocessor from `keys`.
pub open spec fn deps_registered(deps: Seq<RegistrationKey>, keys: Seq<RegistrationKey>) -> bool {
    forall|k: int| 0 <= k < deps.len() ==> keys.contains(#[trigger] deps[k])
}

/// A configuration error, reported at registration time.
#[derive(Debug, Clone, Copy, PartialEq, Eq, Structural)]
pub enum ConfigError {
    /// A system declared a dependency key under which no preprocessor is
    /// registered.
    MissingDependency(RegistrationKey),
    /// A preprocessor's identity key equals the key of an earlier
    /// registration; accepting it would silently redirect the earlier
    /// dependents to the wrong output.
    DuplicateKey(RegistrationKey),
}

/// The scheduler. `In` is the input value type, `P` the preprocessor type,
/// and `S` the system type; an open-ended mix of concrete preprocessors or
/// systems is hosted by making `P` or `S` a dispatching wrapper over the
/// variants.
pub struct Step<In, P, S> {
    preprocessors: Vec<(RegistrationKey, P)>,
    alive: Vec<SystemSlot<S>>,
    dead: Vec<SystemSlot<S>>,
    next_reg: Ghost<nat>,
    marker: core::marker::PhantomData<In>,
}

impl<In, P, S> Step<In, P, S> {
    /// The identity keys of the registered preprocessors, in registration
    /// order.
    pub closed spec fn prep_keys(self) -> Seq<RegistrationKey> {
        self.preprocessors@.map_values(|pp: (RegistrationKey, P)| pp.0)
    }

    /// The alive slots, in registration order.
    pub closed spec fn alive_view(self) -> Seq<SystemSlot<S>> {
        self.alive@
    }

    /// The dead slots, in the order they stopped.
    pub closed spec fn dead_view(self) -> Seq<SystemSlot<S>> {
        self.dead@
    }

    /// How many systems have been registered so far; the next slot's
    /// registration number.
    pub closed spec fn reg_count(self) -> nat {
        self.next_reg@
    }

    /// How one tick with per-system decisions `d` transforms the scheduler:
    /// `d[i]` tells whether the `i`-th alive system decided to stop. The
    /// systems that kept running survive in order; the stopped ones are
    /// appended to the dead collection in order; slots already dead are left
    /// untouched — a stopped system is never stepped again. The tick reports
    /// `Stopped` exactly when no system is left alive.
    pub open spec fn tick_transition_with(pre: Self, post: Self, r: State, d: Seq<bool>) -> bool {
        &&& d.len() == pre.alive_view().len()
        &&& post.prep_keys() == pre.prep_keys()
        &&& post.reg_count() == pre.reg_count()
        &&& regs_of(post.alive_view()) == select_where(regs_of(pre.alive_view()), d, false)
        &&& deps_of(post.alive_view()) == select_where(deps_of(pre.alive_view()), d, false)
        &&& post.dead_view().len() >= pre.dead_view().len()
        &&& post.dead_view().subrange(0, pre.dead_view().len() as int) == pre.dead_view()
        &&& regs_of(post.dead_view().skip(pre.dead_view().len() as int)) == select_where(
            regs_of(pre.alive_view()),
            d,
            true,
        )
        &&& deps_of(post.dead_view().skip(pre.dead_view().len() as int)) == select_where(
            deps_of(pre.alive_view()),
            d,
            true,
        )
        &&& (r == State::Stopped <==> post.alive_view().len() == 0)
    }

    /// One tick relates the scheduler's state before and after by
    /// `tick_transition_with` for some vector of per-system decisions; which
    /// decisions fall is up to the systems themselves.
    pub open spec fn tick_transition(pre: Self, post: Self, r: State) -> bool {
        exists|d: Seq<bool>| Self::tick_transition_with(pre, post, r, d)
    }

    /// `states` is the chain of scheduler states across `results.len()`
    /// ticks: consecutive states are related by one tick with the matching
    /// reported result.
    pub open spec fn is_run_trace(states: Seq<Self>, results: Seq<State>) -> bool {
        &&& states.len() == results.len() + 1
        &&& forall|j: int|
            0 <= j < results.len() ==> #[trigger] Self::tick_transition(
                states[j],
                states[j + 1],
                results[j],
            )
    }

    /// What a completed run starting from `self` yields, witnessed by its
    /// tick trace: one tick per consumed input value, every tick but
    /// possibly the last reported `Running` — so after a tick that empties
    /// the alive set no further input value is consumed — the run falls
    /// short of the input only because its last tick reported `Stopped`,
    /// and the result lists the final state's alive slots followed by its
    /// dead slots.
    pub open spec fn run_outcome(
        self,
        n_inputs: nat,
        res: Seq<SystemSlot<S>>,
        states: Seq<Self>,
        results: Seq<State>,
    ) -> bool {
        &&& Self::is_run_trace(states, results)
        &&& states.first() == self
        &&& results.len() <= n_inputs
        &&& (forall|j: int| 0 <= j < results.len() - 1 ==> results[j] == State::Running)
        &&& (results.len() < n_inputs ==> results.len() > 0 && results.last() == State::Stopped)
        &&& res == states.last().alive_view() + states.last().dead_view()
    }

    /// The scheduler's invariant: preprocessor keys are unique, every alive
    /// slot depends only on registered keys, the alive slots stand in
    /// registration order, no slot is in both collections, and every
    /// registration number is in range.
    pub closed spec fn wf(self) -> bool {
        &&& distinct_seq(self.prep_keys())
        &&& (forall|i: int|
            0 <= i < self.alive@.len() ==> deps_registered(
                (#[trigger] self.alive@[i]).dep_keys(),
                self.prep_keys(),
            ))
        &&& strictly_increasing(regs_of(self.alive@))
        &&& distinct_seq(regs_of(self.alive@) + regs_of(self.dead@))
        &&& (forall|i: int|
            0 <= i < self.alive@.len() ==> (#[trigger] self.alive@[i]).reg_id() < self.next_reg@)
        &&& (forall|i: int|
            0 <= i < self.dead@.len() ==> (#[trigger] self.dead@[i]).reg_id() < self.next_reg@)
    }

    /// A tick preserves the scheduler's invariant: surviving systems keep
    /// their registration order, and no slot ever sits in both collections.
    pub proof fn lemma_tick_preserves_wf(pre: Self, post: Self, r: State)
        requires
            pre.wf(),
            Self::tick_transition(pre, post, r),
        ensures
            post.wf(),
    {
        let d = choose|d: Seq<bool>| Self::tick_transition_with(pre, post, r, d);
        let alive_regs = regs_of(pre.alive@);
        let alive_deps = deps_of(pre.alive@);
        let dead_regs = regs_of(pre.dead@);
        let sf = select_where(alive_regs, d, false);
        let st = select_where(alive_regs, d, true);
        let n = pre.dead@.len() as int;
        lemma_distinct_concat_parts(alive_regs, dead_regs);
        lemma_select_where_partition(alive_regs, d);
        lemma_select_where_increasing(alive_regs, d, false, pre.next_reg@);
        lemma_select_where_increasing(alive_regs, d, true, pre.next_reg@);
        assert forall|i: int| 0 <= i < post.alive@.len() implies deps_registered(
            (#[trigger] post.alive@[i]).dep_keys(),
            post.prep_keys(),
        ) by {
            let sel = select_where(alive_deps, d, false);
            assert(sel[i] == deps_of(post.alive@)[i]);
            assert(sel.contains(sel[i]));
            lemma_select_where_contains(alive_deps, d, false, sel[i]);
            let w = choose|w: int| 0 <= w < alive_deps.len() && alive_deps[w] == sel[i];
            assert(pre.alive@[w].dep_keys() == sel[i]);
            assert(deps_registered(pre.alive@[w].dep_keys(), pre.prep_keys()));
        }
        assert forall|i: int| 0 <= i < post.alive@.len() implies (
        #[trigger] post.alive@[i]).reg_id() < post.next_reg@ by {
            assert(regs_of(post.alive@)[i] == post.alive@[i].reg_id());
        }
        assert(regs_of(post.dead@) =~= dead_regs + st) by {
            assert forall|i: int| 0 <= i < post.dead@.len() implies regs_of(post.dead@)[i] == (
            dead_regs + st)[i] by {
                if i < n {
                    assert(post.dead@[i] == post.dead@.subrange(0, n)[i]);
                } else {
                    assert(regs_of(post.dead@.skip(n))[i - n] == post.dead@[i].reg_id());
                }
            }
        }
        assert forall|i: int| 0 <= i < post.dead@.len() implies (
        #[trigger] post.dead@[i]).reg_id() < post.next_reg@ by {
            assert(regs_of(post.dead@)[i] == post.dead@[i].reg_id());
            if i < n {
                assert((dead_regs + st)[i] == dead_regs[i]);
                assert(pre.dead@[i].reg_id() < pre.next_reg@);
            } else {
                assert((dead_regs + st)[i] == st[i - n]);
                assert(st.contains(st[i - n]));
                lemma_select_where_contains(alive_regs, d, true, st[i - n]);
                let w = choose|w: int| 0 <= w < alive_regs.len() && alive_regs[w] == st[i - n];
                assert(pre.alive@[w].reg_id() < pre.next_reg@);
            }
        }
        assert forall|a: nat| sf.contains(a) implies !(dead_regs + st).contains(a) by {
            lemma_select_where_contains(alive_regs, d, false, a);
            lemma_concat_contains(dead_regs, st, a);
        }
        assert forall|a: nat| dead_regs.contains(a) implies !st.contains(a) by {
            if st.contains(a) {
                lemma_select_where_contains(alive_regs, d, true, a);
            }
        }
        lemma_distinct_concat_join(dead_regs, st);
        lemma_distinct_concat_join(sf, dead_regs + st);
        assert(distinct_seq(regs_of(post.alive@) + regs_of(post.dead@)));
        assert(strictly_increasing(regs_of(post.alive@)));
    }

    /// Along a run trace an invariant-respecting start stays
    /// invariant-respecting: every state of the trace is well-formed.
    pub proof fn lemma_trace_wf(states: Seq<Self>, results: Seq<State>, j: int)
        requires
            Self::is_run_trace(states, results),
            states.first().wf(),
            0 <= j < states.len(),
        ensures
            states[j].wf(),
        decreases j,
    {
        if j > 0 {
            Self::lemma_trace_wf(states, results, j - 1);
            let jj = j - 1;
            assert(Self::tick_transition(states[jj], states[jj + 1], results[jj]));
            Self::lemma_tick_preserves_wf(states[jj], states[jj + 1], results[jj]);
        }
    }

    /// Once a system has stopped it is never stepped again: a slot that sits
    /// in the dead collection after tick `t` sits at the same position, with
    /// the very same value — system state included — in every later state of
    /// the trace. Only a `step` call could have changed it, so it receives
    /// none.
    pub proof fn lemma_stopped_never_stepped_again(
        states: Seq<Self>,
        results: Seq<State>,
        t: int,
        u: int,
    )
        requires
            Self::is_run_trace(states, results),
            0 <= t <= u < states.len(),
        ensures
            states[u].dead_view().len() >= states[t].dead_view().len(),
            states[u].dead_view().subrange(0, states[t].dead_view().len() as int) == states[
                t
            ].dead_view(),
        decreases u - t,
    {
        if u > t {
            Self::lemma_stopped_never_stepped_again(states, results, t, u - 1);
            let uu = u - 1;
            assert(Self::tick_transition(states[uu], states[uu + 1], results[uu]));
            let s_pre = states[uu];
            let s_post = states[uu + 1];
            let r_pre = results[uu];
            let d = choose|d: Seq<bool>| Self::tick_transition_with(s_pre, s_post, r_pre, d);
            let nt = states[t].dead_view().len() as int;
            let nu = states[u - 1].dead_view().len() as int;
            assert(states[u].dead_view().subrange(0, nt) =~= states[u].dead_view().subrange(
                0,
                nu,
            ).subrange(0, nt));
            assert(states[u - 1].dead_view().subrange(0, nt) =~= states[t].dead_view());
        }
    }

    /// The alive collection only shrinks: a system alive after some tick
    /// was alive at every earlier point of the trace — once a slot has left
    /// the alive collection it never returns.
    pub proof fn lemma_alive_only_shrinks(
        states: Seq<Self>,
        results: Seq<State>,
        t: int,
        u: int,
        a: nat,
    )
        requires
            Self::is_run_trace(states, results),
            0 <= t <= u < states.len(),
            regs_of(states[u].alive_view()).contains(a),
        ensures
            regs_of(states[t].alive_view()).contains(a),
        decreases u - t,
    {
        if u > t {
            let uu = u - 1;
            assert(Self::tick_transition(states[uu], states[uu + 1], results[uu]));
            let s_pre = states[uu];
            let s_post = states[uu + 1];
            let r_pre = results[uu];
            let d = choose|d: Seq<bool>| Self::tick_transition_with(s_pre, s_post, r_pre, d);
            lemma_select_where_contains(regs_of(s_pre.alive_view()), d, false, a);
            Self::lemma_alive_only_shrinks(states, results, t, uu, a);
        }
    }

    /// The result of a run is ordered: first the systems still alive, in
    /// registration order, then the stopped ones, in the order they stopped;
    /// every slot appears exactly once.
    pub proof fn lemma_run_ordering(
        self,
        n_inputs: nat,
        res: Seq<SystemSlot<S>>,
        states: Seq<Self>,
        results: Seq<State>,
    )
        requires
            self.wf(),
            self.run_outcome(n_inputs, res, states, results),
        ensures
            states.last().wf(),
            res == states.last().alive_view() + states.last().dead_view(),
            strictly_increasing(regs_of(states.last().alive_view())),
            distinct_seq(regs_of(res)),
    {
        Self::lemma_trace_wf(states, results, states.len() - 1);
        let last = states.last();
        assert(regs_of(res) =~= regs_of(last.alive@) + regs_of(last.dead@)) by {
            assert forall|i: int| 0 <= i < res.len() implies regs_of(res)[i] == (regs_of(
                last.alive@,
            ) + regs_of(last.dead@))[i] by {
                if i < last.alive@.len() {
                    assert(res[i] == last.alive@[i]);
                } else {
                    assert(res[i] == last.dead@[i - last.alive@.len()]);
                }
            }
        }
    }

    /// A tick that empties the alive set is the run's last tick: exactly the
    /// inputs up to and including that tick were consumed, however much
    /// input remained.
    pub proof fn lemma_empty_alive_halts(
        self,
        n_inputs: nat,
        res: Seq<SystemSlot<S>>,
        states: Seq<Self>,
        results: Seq<State>,
        j: int,
    )
        requires
            self.run_outcome(n_inputs, res, states, results),
            0 <= j < results.len(),
            states[j + 1].alive_view().len() == 0,
        ensures
            j == results.len() - 1,
    {
        assert(Self::tick_transition(states[j], states[j + 1], results[j]));
        let s_pre = states[j];
        let s_post = states[j + 1];
        let r_tick = results[j];
        let d = choose|d: Seq<bool>| Self::tick_transition_with(s_pre, s_post, r_tick, d);
        assert(r_tick == State::Stopped);
    }
}

impl<In, P, S> Default for Step<In, P, S> {
    /// An empty scheduler: no preprocessors, no systems.
    fn default() -> (s: Self)
        ensures
            s.wf(),
            s.prep_keys() == Seq::<RegistrationKey>::empty(),
            s.alive_view() == Seq::<SystemSlot<S>>::empty(),
            s.dead_view() == Seq::<SystemSlot<S>>::empty(),
            s.reg_count() == 0,
    {
        let s = Step {
            preprocessors: Vec::new(),
            alive: Vec::new(),
            dead: Vec::new(),
            next_reg: Ghost(0),
            marker: core::marker::PhantomData,
        };
        proof {
            assert(s.prep_keys() =~= Seq::<RegistrationKey>::empty());
            assert(regs_of(s.alive@) =~= Seq::<nat>::empty());
            assert(regs_of(s.alive@) + regs_of(s.dead@) =~= Seq::<nat>::empty());
        }
        s
    }
}

impl<In, P: Preprocessor<In> + std::hash::Hash + 'static, S: System> Step<In, P, S> {
    /// An empty scheduler: no preprocessors, no systems.
    pub fn new() -> (s: Self)
        ensures
            s.wf(),
            s.prep_keys() == Seq::<RegistrationKey>::empty(),
            s.alive_view() == Seq::<SystemSlot<S>>::empty(),
            s.dead_view() == Seq::<SystemSlot<S>>::empty(),
            s.reg_count() == 0,
    {
        Default::default()
    }

    /// Whether a preprocessor is registered under the key `k`.
    fn has_preprocessor(&self, k: RegistrationKey) -> (r: bool)
        ensures
            r == self.prep_keys().contains(k),
    {
        let mut i: usize = 0;
        while i < self.preprocessors.len()
            invariant
                i <= self.preprocessors@.len(),
                forall|j: int| 0 <= j < i ==> self.preprocessors@[j].0 != k,
            decreases self.preprocessors@.len() - i,
        {
            if self.preprocessors[i].0 == k {
                proof {
                    assert(self.prep_keys()[i as int] == k);
                }
                return true;
            }
            i = i + 1;
        }
        proof {
            assert forall|j: int| 0 <= j < self.prep_keys().len() implies self.prep_keys()[j]
                != k by {
                assert(self.prep_keys()[j] == self.preprocessors@[j].0);
            }
        }
        false
    }

    /// Registers a preprocessor and returns its frozen identity key; the key
    /// is derived once, here, and never recomputed. Fails, changing nothing,
    /// when the derived key collides with an earlier registration.
    pub fn add_preprocessor(&mut self, preprocessor: P) -> (r: Result<RegistrationKey, ConfigError>)
        requires
            old(self).wf(),
        ensures
            final(self).wf(),
            match r {
                Ok(k) => {
                    &&& !old(self).prep_keys().contains(k)
                    &&& final(self).prep_keys() == old(self).prep_keys().push(k)
                    &&& final(self).alive_view() == old(self).alive_view()
                    &&& final(self).dead_view() == old(self).dead_view()
                    &&& final(self).reg_count() == old(self).reg_count()
                },
                Err(e) => {
                    &&& *final(self) == *old(self)
                    &&& exists|k: RegistrationKey|
                        e == ConfigError::DuplicateKey(k) && old(self).prep_keys().contains(k)
                },
            },
    {
        let key = RegistrationKey::new(&preprocessor);
        if self.has_preprocessor(key) {
            return Err(ConfigError::DuplicateKey(key));
        }
        let ghost prior = *self;
        self.preprocessors.push((key, preprocessor));
        proof {
            assert(self.prep_keys() =~= prior.prep_keys().push(key));
            assert forall|i: int|
                0 <= i < self.alive@.len() implies deps_registered(
                (#[trigger] self.alive@[i]).dep_keys(),
                self.prep_keys(),
            ) by {
                let deps = self.alive@[i].dep_keys();
                assert(deps_registered(deps, prior.prep_keys()));
                assert forall|k: int| 0 <= k < deps.len() implies self.prep_keys().contains(
                    #[trigger] deps[k],
                ) by {
                    let w = choose|w: int|
                        0 <= w < prior.prep_keys().len() && prior.prep_keys()[w] == deps[k];
                    assert(self.prep_keys()[w] == deps[k]);
                }
            }
        }
        Ok(key)
    }

    /// Registers a system with the ordered dependency keys it declares. The
    /// keys are validated eagerly: if one of them names no registered
    /// preprocessor, the first such key is reported and nothing changes.
    pub fn add_system(&mut self, system: S, keys: &[RegistrationKey]) -> (r: Result<
        (),
        ConfigError,
    >)
        requires
            old(self).wf(),
        ensures
            final(self).wf(),
            match r {
                Ok(()) => {
                    &&& deps_registered(keys@, old(self).prep_keys())
                    &&& final(self).alive_view().len() == old(self).alive_view().len() + 1
                    &&& final(self).alive_view().drop_last() == old(self).alive_view()
                    &&& final(self).alive_view().last().sys() == system
                    &&& final(self).alive_view().last().dep_keys() == keys@
                    &&& final(self).alive_view().last().reg_id() == old(self).reg_count()
                    &&& final(self).reg_count() == old(self).reg_count() + 1
                    &&& final(self).prep_keys() == old(self).prep_keys()
                    &&& final(self).dead_view() == old(self).dead_view()
                },
                Err(e) => {
                    &&& *final(self) == *old(self)
                    &&& exists|i: int|
                        {
                            &&& 0 <= i < keys@.len()
                            &&& !old(self).prep_keys().contains(keys@[i])
                            &&& forall|j: int|
                                0 <= j < i ==> old(self).prep_keys().contains(#[trigger] keys@[j])
                            &&& e == ConfigError::MissingDependency(keys@[i])
                        }
                },
            },
    {
        let mut i: usize = 0;
        while i < keys.len()
            invariant
                i <= keys@.len(),
                *self == *old(self),
                old(self).wf(),
                forall|j: int| 0 <= j < i ==> self.prep_keys().contains(#[trigger] keys@[j]),
            decreases keys@.len() - i,
        {
            if !self.has_preprocessor(keys[i]) {
                return Err(ConfigError::MissingDependency(keys[i]));
            }
            i = i + 1;
        }
        let mut deps: Vec<RegistrationKey> = Vec::new();
        let mut t: usize = 0;
        while t < keys.len()
            invariant
                t <= keys@.len(),
                deps@ == keys@.subrange(0, t as int),
            decreases keys@.len() - t,
        {
            deps.push(keys[t]);
            proof {
                assert(deps@ =~= keys@.subrange(0, t + 1 as int));
            }
            t = t + 1;
        }
        proof {
            assert(deps@ =~= keys@);
        }
        let ghost prior = *self;
        let slot = SystemSlot { system, deps, reg: Ghost(self.next_reg@) };
        self.alive.push(slot);
        self.next_reg = Ghost(self.next_reg@ + 1);
        proof {
            assert(regs_of(self.alive@) =~= regs_of(prior.alive@).push(prior.next_reg@));
            assert(strictly_increasing(regs_of(self.alive@))) by {
                let rs = regs_of(self.alive@);
                let old_rs = regs_of(prior.alive@);
                assert forall|a: int, b: int| 0 <= a < b < rs.len() implies rs[a] < rs[b] by {
                    if b < old_rs.len() {
                        assert(old_rs[a] < old_rs[b]);
                    } else {
                        assert(rs[a] == prior.alive@[a].reg_id());
                        assert(prior.alive@[a].reg_id() < prior.next_reg@);
                    }
                }
            }
            let combined = regs_of(self.alive@) + regs_of(self.dead@);
            let old_combined = regs_of(prior.alive@) + regs_of(prior.dead@);
            assert(distinct_seq(combined)) by {
                let na = prior.alive@.len() as int;
                assert forall|a: int, b: int|
                    0 <= a < b < combined.len() implies combined[a] != combined[b] by {
                    if a < na && b == na {
                        assert(combined[a] == old_combined[a] && old_combined[a]
                            == prior.alive@[a].reg_id());
                        assert(combined[b] == prior.next_reg@);
                    } else if a < na && b > na {
                        assert(combined[a] == old_combined[a]);
                        assert(combined[b] == old_combined[b - 1]);
                        assert(combined[b] == prior.dead@[b - na - 1].reg_id());
                    } else if a == na {
                        assert(combined[a] == prior.next_reg@);
                        assert(combined[b] == old_combined[b - 1]);
                        assert(combined[b] == prior.dead@[b - na - 1].reg_id());
                        assert(prior.dead@[b - na - 1].reg_id() < prior.next_reg@);
                    } else if a > na {
                        assert(combined[a] == old_combined[a - 1]);
                        assert(combined[b] == old_combined[b - 1]);
                    } else {
                        assert(combined[a] == old_combined[a] && combined[b] == old_combined[b]);
                    }
                }
            }
            assert(self.alive@.drop_last() =~= prior.alive@);
        }
        Ok(())
    }

    /// Runs one tick over `value`: every preprocessor derives this tick's
    /// value in registration order, every alive system receives exactly the
    /// derived values its dependency keys name, in declaration order, and
    /// decides; systems that stopped move to the dead collection in order.
    /// The tick's derived values live only within this call and are released
    /// before it returns. Reports `Stopped` exactly when no system is left
    /// alive.
    #[verifier::loop_isolation(false)]
    pub fn step(&mut self, value: In) -> (r: State)
        requires
            old(self).wf(),
        ensures
            final(self).wf(),
            Self::tick_transition(*old(self), *final(self), r),
    {
        let ghost prior = *old(self);
        // Preprocess: build this tick's derived-value table in registration
        // order.
        let mut work: Vec<(RegistrationKey, P)> = Vec::new();
        core::mem::swap(&mut work, &mut self.preprocessors);
        let ghost prior_preps = prior.preprocessors@;
        let mut tick_values: Vec<(RegistrationKey, Vec<u8>)> = Vec::new();
        while work.len() > 0
            invariant
                self.preprocessors@.len() + work@.len() == prior_preps.len(),
                work@ == prior_preps.skip(self.preprocessors@.len() as int),
                tick_values@.len() == self.preprocessors@.len(),
                forall|i: int|
                    0 <= i < self.preprocessors@.len() ==> (#[trigger] self.preprocessors@[i]).0
                        == prior_preps[i].0,
                forall|i: int|
                    0 <= i < tick_values@.len() ==> (#[trigger] tick_values@[i]).0
                        == prior_preps[i].0,
                self.alive@ == prior.alive@,
                self.dead@ == prior.dead@,
                self.next_reg == prior.next_reg,
            decreases work@.len(),
        {
            let ghost k: int = self.preprocessors@.len() as int;
            let mut pp = work.remove(0);
            proof {
                assert(pp == prior_preps[k]);
            }
            let derived = pp.1.preprocess(&value);
            tick_values.push((pp.0, derived));
            self.preprocessors.push(pp);
            proof {
                assert(work@ =~= prior_preps.skip(k + 1));
            }
        }
        proof {
            assert(self.prep_keys() =~= prior.prep_keys());
            assert forall|i: int| 0 <= i < tick_values@.len() implies (#[trigger] tick_values@[i]).0
                == prior.prep_keys()[i] by {
                assert(prior.prep_keys()[i] == prior_preps[i].0);
            }
        }
        // Dispatch: hand each alive system the derived values its keys name
        // and route it by its decision.
        let mut pending: Vec<SystemSlot<S>> = Vec::new();
        core::mem::swap(&mut pending, &mut self.alive);
        let ghost pre_alive = prior.alive@;
        let ghost pre_dead = prior.dead@;
        let ghost keys = prior.prep_keys();
        let ghost mut d: Seq<bool> = Seq::empty();
        while pending.len() > 0
            invariant
                d.len() + pending@.len() == pre_alive.len(),
                pending@ == pre_alive.skip(d.len() as int),
                regs_of(self.alive@) == select_where(
                    regs_of(pre_alive).take(d.len() as int),
                    d,
                    false,
                ),
                deps_of(self.alive@) == select_where(
                    deps_of(pre_alive).take(d.len() as int),
                    d,
                    false,
                ),
                self.dead@.len() >= pre_dead.len(),
                self.dead@.subrange(0, pre_dead.len() as int) == pre_dead,
                regs_of(self.dead@.skip(pre_dead.len() as int)) == select_where(
                    regs_of(pre_alive).take(d.len() as int),
                    d,
                    true,
                ),
                deps_of(self.dead@.skip(pre_dead.len() as int)) == select_where(
                    deps_of(pre_alive).take(d.len() as int),
                    d,
                    true,
                ),
                self.prep_keys() == keys,
                self.next_reg == prior.next_reg,
            decreases pending@.len(),
        {
            let ghost k: int = d.len() as int;
            let mut slot = pending.remove(0);
            proof {
                assert(slot == pre_alive[k]);
                assert(deps_registered(slot.dep_keys(), keys));
            }
            let inputs_opt = gather_inputs(&tick_values, &slot.deps);
            proof {
                if inputs_opt is None {
                    let i = choose|i: int|
                        0 <= i < slot.deps@.len() && !crate::dispatch::has_key(
                            tick_values@,
                            slot.deps@[i],
                        );
                    assert(keys.contains(slot.deps@[i]));
                    let w = choose|w: int| 0 <= w < keys.len() && keys[w] == slot.deps@[i];
                    assert(tick_values@[w].0 == slot.deps@[i]);
                    assert(false);
                }
            }
            let inputs = inputs_opt.unwrap();
            let decision = slot.system.step(&inputs);
            proof {
                assert(regs_of(pre_alive).take(k + 1) =~= regs_of(pre_alive).take(k).push(
                    slot.reg_id(),
                ));
                assert(deps_of(pre_alive).take(k + 1) =~= deps_of(pre_alive).take(k).push(
                    slot.dep_keys(),
                ));
                lemma_select_where_push(
                    regs_of(pre_alive).take(k),
                    d,
                    false,
                    slot.reg_id(),
                    decision == State::Stopped,
                );
                lemma_select_where_push(
                    regs_of(pre_alive).take(k),
                    d,
                    true,
                    slot.reg_id(),
                    decision == State::Stopped,
                );
                lemma_select_where_push(
                    deps_of(pre_alive).take(k),
                    d,
                    false,
                    slot.dep_keys(),
                    decision == State::Stopped,
                );
                lemma_select_where_push(
                    deps_of(pre_alive).take(k),
                    d,
                    true,
                    slot.dep_keys(),
                    decision == State::Stopped,
                );
            }
            match decision {
                State::Running => {
                    let ghost pre_push = self.alive@;
                    self.alive.push(slot);
                    proof {
                        d = d.push(false);
                        assert(regs_of(self.alive@) =~= regs_of(pre_push).push(slot.reg_id()));
                        assert(deps_of(self.alive@) =~= deps_of(pre_push).push(slot.dep_keys()));
                    }
                },
                State::Stopped => {
                    let ghost pre_push = self.dead@;
                    self.dead.push(slot);
                    proof {
                        d = d.push(true);
                        assert(self.dead@.subrange(0, pre_dead.len() as int) =~= pre_dead);
                        assert(regs_of(self.dead@.skip(pre_dead.len() as int)) =~= regs_of(
                            pre_push.skip(pre_dead.len() as int),
                        ).push(slot.reg_id()));
                        assert(deps_of(self.dead@.skip(pre_dead.len() as int)) =~= deps_of(
                            pre_push.skip(pre_dead.len() as int),
                        ).push(slot.dep_keys()));
                    }
                },
            }
        }
        let r = if self.alive.len() == 0 {
            State::Stopped
        } else {
            State::Running
        };
        proof {
            assert(regs_of(pre_alive).take(d.len() as int) =~= regs_of(pre_alive));
            assert(deps_of(pre_alive).take(d.len() as int) =~= deps_of(pre_alive));
            assert(Self::tick_transition_with(prior, *self, r, d));
            assert(Self::tick_transition(prior, *self, r));
            Self::lemma_tick_preserves_wf(prior, *self, r);
        }
        r
    }

    /// Consumes the scheduler, pulling one input value per tick until the
    /// input is exhausted or a tick reports `Stopped`; after a stopping tick
    /// no further input value is consumed. Returns every registered system
    /// slot: those still alive, in registration order, followed by those
    /// that stopped, in the order they stopped.
    #[verifier::loop_isolation(false)]
    pub fn run(self, stream: Vec<In>) -> (res: Vec<SystemSlot<S>>)
        requires
            self.wf(),
        ensures
            exists|states: Seq<Self>, results: Seq<State>|
                self.run_outcome(stream@.len(), res@, states, results),
    {
        let mut this = self;
        let mut input = stream;
        let mut halted = false;
        let ghost total: nat = stream@.len();
        let ghost mut states: Seq<Self> = seq![self];
        let ghost mut results: Seq<State> = Seq::empty();
        while !halted && input.len() > 0
            invariant
                this.wf(),
                Self::is_run_trace(states, results),
                states.first() == self,
                states.last() == this,
                results.len() + input@.len() == total,
                !halted ==> forall|j: int|
                    0 <= j < results.len() ==> results[j] == State::Running,
                halted ==> results.len() > 0 && results.last() == State::Stopped,
                forall|j: int| 0 <= j < results.len() - 1 ==> results[j] == State::Running,
            decreases input@.len(),
        {
            let value = input.remove(0);
            let ghost pre = this;
            let ghost n: int = results.len() as int;
            let r = this.step(value);
            proof {
                let prev_states = states;
                let prev_results = results;
                states = states.push(this);
                results = results.push(r);
                assert forall|j: int| 0 <= j < results.len() implies #[trigger] Self::tick_transition(
                    states[j],
                    states[j + 1],
                    results[j],
                ) by {
                    if j < n {
                        assert(Self::tick_transition(
                            prev_states[j],
                            prev_states[j + 1],
                            prev_results[j],
                        ));
                        assert(states[j] == prev_states[j] && states[j + 1] == prev_states[j + 1]);
                    } else {
                        assert(states[j] == pre && states[j + 1] == this && results[j] == r);
                    }
                }
            }
            halted = matches!(r, State::Stopped);
        }
        let mut slots = this.alive;
        let mut stopped = this.dead;
        slots.append(&mut stopped);
        proof {
            assert(results.len() < total ==> results.len() > 0 && results.last()
                == State::Stopped);
            assert(slots@ == states.last().alive_view() + states.last().dead_view());
            assert(self.run_outcome(stream@.len(), slots@, states, results));
        }
        slots
    }
}

} // verus!
