//! Minimal single-threaded reactive primitives: [`Signal`]s, effects that
//! re-run when a signal they read changes, batched writes and disposable
//! [`Owner`] scopes.
//!
//! All reactive state of one UI thread lives in a [`Runtime`]. An effect
//! body receives a [`Tracker`]: signals it reads through
//! [`Tracker::get`] subscribe it, [`Tracker::peek`] reads without
//! subscribing, and writes made through [`Tracker::set`] are seen by the
//! rest of the body at once and stored once the body returns; the effects
//! they notify are queued and run after the runs already under way,
//! first-in first-out, rather than nested inside the body's run.

use vstd::prelude::*;
use vstd::std_specs::cmp::PartialEqSpec;
use crate::seqs::{without, append_new, lemma_without, lemma_append_new, contains_index, copy_without, push_new};

verus! {

/// Handle to one reactive value cell of a [`Runtime`].
#[derive(Clone, Copy, Debug, PartialEq, Eq, Structural)]
pub struct Signal {
    id: usize,
}

/// Handle to a running effect. Dispose it with [`Effect::dispose`] to stop
/// the effect from reacting to further signal changes.
#[derive(Clone, Copy, Debug, PartialEq, Eq, Structural)]
pub struct Effect {
    id: usize,
}

/// A disposable scope for effects and child scopes, so removing a UI
/// subtree can unsubscribe everything it owns in one call.
#[derive(Clone, Copy, Debug, PartialEq, Eq, Structural)]
pub struct Owner {
    id: usize,
}

impl Signal {
    pub closed spec fn index(self) -> int {
        self.id as int
    }
}

impl Effect {
    pub closed spec fn index(self) -> int {
        self.id as int
    }
}

impl Owner {
    pub closed spec fn index(self) -> int {
        self.id as int
    }
}

/// What an effect body sees while it runs: the signal values, with the
/// writes it asked for so far in place, the signals it has read and the
/// writes themselves, which the runtime applies once the body returns.
pub struct Tracker<'a, V> {
    values: &'a Vec<V>,
    reads: Vec<usize>,
    writes: Vec<(usize, V)>,
}

/// The value last written to signal `s` among `writes`, if any.
pub open spec fn last_write<V>(writes: Seq<(usize, V)>, s: usize) -> Option<V>
    decreases writes.len(),
{
    if writes.len() == 0 {
        None
    } else if writes.last().0 == s {
        Some(writes.last().1)
    } else {
        last_write(writes.drop_last(), s)
    }
}

impl<'a, V: Clone> Tracker<'a, V> {
    pub closed spec fn signal_count(&self) -> nat {
        self.values@.len()
    }

    /// The value the body sees for `signal`: its own latest write, else the
    /// value stored when the body started.
    pub closed spec fn value(&self, signal: Signal) -> V {
        match last_write(self.writes@, signal.index() as usize) {
            Some(v) => v,
            None => self.values@[signal.index()],
        }
    }

    /// Indices of the signals read through [`Tracker::get`], in order.
    pub closed spec fn reads(&self) -> Seq<usize> {
        self.reads@
    }

    /// Writes requested through [`Tracker::set`], in order.
    pub closed spec fn writes(&self) -> Seq<(usize, V)> {
        self.writes@
    }

    /// Whether `signal` belongs to the runtime this body runs in.
    pub fn contains(&self, signal: Signal) -> (r: bool)
        ensures
            r == (signal.index() < self.signal_count()),
    {
        signal.id < self.values.len()
    }

    fn current(&self, signal: Signal) -> (r: V)
        requires
            signal.index() < self.signal_count(),
        ensures
            cloned::<V>(self.value(signal), r),
    {
        let mut k = self.writes.len();
        proof {
            assert(self.writes@.take(k as int) =~= self.writes@);
        }
        while k > 0
            invariant
                k <= self.writes@.len(),
                last_write(self.writes@, signal.id) == last_write(self.writes@.take(k as int), signal.id),
            decreases k,
        {
            proof {
                assert(self.writes@.take(k as int).drop_last() =~= self.writes@.take(k as int - 1));
            }
            if self.writes[k - 1].0 == signal.id {
                return self.writes[k - 1].1.clone();
            }
            k = k - 1;
        }
        self.values[signal.id].clone()
    }

    /// Reads the value and subscribes the running effect to the signal.
    pub fn get(&mut self, signal: Signal) -> (r: V)
        requires
            signal.index() < old(self).signal_count(),
        ensures
            cloned::<V>(old(self).value(signal), r),
            final(self).reads() == old(self).reads().push(signal.index() as usize),
            final(self).writes() == old(self).writes(),
            final(self).signal_count() == old(self).signal_count(),
            forall|s: Signal| #[trigger] final(self).value(s) == old(self).value(s),
    {
        let r = self.current(signal);
        self.reads.push(signal.id);
        r
    }

    /// Reads the value without subscribing the running effect.
    pub fn peek(&self, signal: Signal) -> (r: V)
        requires
            signal.index() < self.signal_count(),
        ensures
            cloned::<V>(self.value(signal), r),
    {
        self.current(signal)
    }

    /// Stores `value` in `signal` for the rest of the body; once the body
    /// returns the runtime stores it for good and runs the signal's
    /// subscribers after the current ones.
    pub fn set(&mut self, signal: Signal, value: V)
        requires
            signal.index() < old(self).signal_count(),
        ensures
            final(self).writes() == old(self).writes().push((signal.index() as usize, value)),
            final(self).value(signal) == value,
            forall|s: Signal| s != signal ==> #[trigger] final(self).value(s) == old(self).value(s),
            final(self).reads() == old(self).reads(),
            final(self).signal_count() == old(self).signal_count(),
    {
        self.writes.push((signal.id, value));
        proof {
            assert(self.writes@.drop_last() =~= old(self).writes@);
            assert forall|s: Signal| s != signal implies #[trigger] self.value(s) == old(self).value(s) by {
                if s.index() as usize == signal.index() as usize {
                    assert(s == signal);
                }
            }
        }
    }
}

/// Whether an effect body may be called with any tracker.
pub open spec fn effect_callable<V, F: FnMut(&mut Tracker<'_, V>)>(body: F) -> bool {
    forall|t: &mut Tracker<'_, V>| call_requires(body, (t,))
}

/// The signals written by `writes`, in order.
pub open spec fn signals_of<V>(writes: Seq<(usize, V)>) -> Seq<usize> {
    writes.map_values(|w: (usize, V)| w.0)
}

/// Whether a cleanup may be called.
pub open spec fn cleanup_callable<C: FnOnce()>(cleanup: C) -> bool {
    call_requires(cleanup, ())
}

struct OwnerSlot<C> {
    children: Vec<usize>,
    effects: Vec<usize>,
    cleanups: Vec<C>,
    /// How many of this owner's cleanups have run so far.
    ran: Ghost<nat>,
}

/// Some owner of `set` lists effect `f` among `owners`.
spec fn owns_effect<C>(owners: Seq<OwnerSlot<C>>, set: Set<usize>, f: usize) -> bool {
    exists|q: usize, i: int| set.contains(q) && 0 <= i < owners[q as int].effects@.len() && #[trigger] owners[q as int].effects@[i] == f
}

struct State<V, F, C> {
    values: Vec<V>,
    subscribers: Vec<Vec<usize>>,
    deps: Vec<Vec<usize>>,
    bodies: Vec<Option<F>>,
    depth: usize,
    pending: Vec<usize>,
    owners: Vec<OwnerSlot<C>>,
    log: Ghost<Seq<usize>>,
    /// For each effect, the signals its latest run read (in range, in order).
    last_reads: Ghost<Seq<Seq<usize>>>,
    /// Every signal written from an effect body, in the order stored.
    written: Ghost<Seq<usize>>,
    /// Every effect put on the queue, in the order queued.
    queued_log: Ghost<Seq<usize>>,
    /// The owner of every cleanup run, in the order run.
    cleaned: Ghost<Seq<usize>>,
}

impl<V: Clone, F: FnMut(&mut Tracker<'_, V>), C: FnOnce()> State<V, F, C> {
    spec fn sig_count(&self) -> nat {
        self.values@.len()
    }

    spec fn eff_count(&self) -> nat {
        self.bodies@.len()
    }

    spec fn subs(&self, s: usize) -> Seq<usize> {
        self.subscribers@[s as int]@
    }

    spec fn deps_of(&self, e: usize) -> Seq<usize> {
        self.deps@[e as int]@
    }

    spec fn alive(&self, e: usize) -> bool {
        self.bodies@[e as int] is Some
    }

    spec fn subs_ok(&self, s: usize) -> bool {
        &&& self.subs(s).no_duplicates()
        &&& forall|i: int| 0 <= i < self.subs(s).len() ==> {
            let e = #[trigger] self.subs(s)[i];
            &&& e < self.eff_count()
            &&& self.alive(e)
            &&& self.deps_of(e).contains(s)
        }
    }

    spec fn deps_ok(&self, e: usize) -> bool {
        &&& self.deps_of(e).no_duplicates()
        &&& forall|j: int| 0 <= j < self.deps_of(e).len() ==> {
            let s = #[trigger] self.deps_of(e)[j];
            &&& s < self.sig_count()
            &&& self.subs(s).contains(e)
        }
    }

    spec fn owner_ok(&self, o: int) -> bool {
        &&& forall|i: int| 0 <= i < self.owners@[o].children@.len()
            ==> o < #[trigger] self.owners@[o].children@[i] < self.owners@.len()
        &&& forall|i: int| 0 <= i < self.owners@[o].effects@.len()
            ==> #[trigger] self.owners@[o].effects@[i] < self.eff_count()
        &&& forall|i: int| 0 <= i < self.owners@[o].cleanups@.len()
            ==> cleanup_callable(#[trigger] self.owners@[o].cleanups@[i])
    }

    spec fn graph_ok(&self) -> bool {
        &&& self.subscribers@.len() == self.values@.len()
        &&& self.deps@.len() == self.bodies@.len()
        &&& forall|s: usize| s < self.sig_count() ==> #[trigger] self.subs_ok(s)
        &&& forall|e: usize| e < self.eff_count() ==> #[trigger] self.deps_ok(e)
    }

    spec fn bodies_ok(&self) -> bool {
        forall|e: usize| e < self.eff_count() && self.alive(e)
            ==> effect_callable(#[trigger] self.bodies@[e as int]->0)
    }

    spec fn pending_ok(&self) -> bool {
        &&& self.pending@.no_duplicates()
        &&& forall|i: int| 0 <= i < self.pending@.len() ==> {
            &&& #[trigger] self.pending@[i] < self.eff_count()
            &&& self.alive(self.pending@[i])
        }
    }

    spec fn owners_ok(&self) -> bool {
        forall|o: int| 0 <= o < self.owners@.len() ==> #[trigger] self.owner_ok(o)
    }

    /// Effect `e` depends on exactly the signals its latest run read.
    spec fn reads_match(&self, e: usize) -> bool {
        forall|s: usize|
            #![trigger self.deps_of(e).contains(s)]
            #![trigger self.last_reads@[e as int].contains(s)]
            self.deps_of(e).contains(s) <==> self.last_reads@[e as int].contains(s)
    }

    spec fn reads_ok(&self) -> bool {
        &&& self.last_reads@.len() == self.bodies@.len()
        &&& forall|e: usize| e < self.eff_count() && self.alive(e) ==> #[trigger] self.reads_match(e)
    }

    /// The two states agree on everything observable.
    spec fn same(&self, other: &Self) -> bool {
        &&& self.values@ == other.values@
        &&& self.subscribers@ == other.subscribers@
        &&& self.deps@ == other.deps@
        &&& self.bodies@ == other.bodies@
        &&& self.depth == other.depth
        &&& self.pending@ == other.pending@
        &&& self.owners@ == other.owners@
        &&& self.log@ == other.log@
        &&& self.last_reads@ == other.last_reads@
        &&& self.same_history(other)
    }

    /// The write, queue and cleanup records agree.
    spec fn same_history(&self, other: &Self) -> bool {
        &&& self.written@ == other.written@
        &&& self.queued_log@ == other.queued_log@
        &&& self.cleaned@ == other.cleaned@
    }


    spec fn wf(&self) -> bool {
        &&& self.graph_ok()
        &&& self.bodies_ok()
        &&& self.pending_ok()
        &&& self.owners_ok()
        &&& self.reads_ok()
    }

    /// Dependencies, bodies and recorded reads unchanged keep `reads_ok`.
    proof fn lemma_reads_kept(old_s: &Self, new_s: &Self)
        requires
            old_s.reads_ok(),
            new_s.deps@ == old_s.deps@,
            new_s.bodies@ == old_s.bodies@,
            new_s.last_reads@ == old_s.last_reads@,
        ensures
            new_s.reads_ok(),
    {
        assert forall|e: usize| e < new_s.eff_count() && new_s.alive(e) implies #[trigger] new_s.reads_match(e) by {
            assert(old_s.reads_match(e));
        }
    }

    /// Only the recorded reads changed, and only as `reads_ok` allows.
    proof fn lemma_only_reads_changed(old_s: &Self, new_s: &Self)
        requires
            old_s.wf(),
            new_s.reads_ok(),
            new_s.values@ == old_s.values@,
            new_s.subscribers@ == old_s.subscribers@,
            new_s.deps@ == old_s.deps@,
            new_s.bodies@ == old_s.bodies@,
            new_s.pending@ == old_s.pending@,
            new_s.owners@ == old_s.owners@,
        ensures
            new_s.wf(),
    {
        assert forall|t: usize| t < new_s.sig_count() implies #[trigger] new_s.subs_ok(t) by {
            assert(old_s.subs_ok(t));
        }
        assert forall|f: usize| f < new_s.eff_count() implies #[trigger] new_s.deps_ok(f) by {
            assert(old_s.deps_ok(f));
        }
        Self::lemma_rest_kept(old_s, new_s);
    }

    /// Only the graph fields changed, and only as `graph_ok` allows.
    proof fn lemma_rest_kept(old_s: &Self, new_s: &Self)
        requires
            old_s.wf(),
            new_s.graph_ok(),
            new_s.reads_ok(),
            new_s.bodies@ == old_s.bodies@,
            new_s.pending@ == old_s.pending@,
            new_s.owners@ == old_s.owners@,
        ensures
            new_s.wf(),
    {
        assert forall|o: int| 0 <= o < new_s.owners@.len() implies #[trigger] new_s.owner_ok(o) by {
            assert(old_s.owner_ok(o));
        }
        assert forall|e: usize| e < new_s.eff_count() && new_s.alive(e)
            implies effect_callable(#[trigger] new_s.bodies@[e as int]->0) by {
            assert(old_s.alive(e));
        }
    }

    /// Same graph, bodies and owners; only the queue (checked) may differ.
    proof fn lemma_queue_changed(old_s: &Self, new_s: &Self)
        requires
            old_s.wf(),
            new_s.values@.len() == old_s.values@.len(),
            new_s.subscribers@ == old_s.subscribers@,
            new_s.deps@ == old_s.deps@,
            new_s.bodies@ == old_s.bodies@,
            new_s.owners@ == old_s.owners@,
            new_s.last_reads@ == old_s.last_reads@,
            new_s.pending_ok(),
        ensures
            new_s.wf(),
    {
        Self::lemma_reads_kept(old_s, new_s);
        assert forall|t: usize| t < new_s.sig_count() implies #[trigger] new_s.subs_ok(t) by {
            assert(old_s.subs_ok(t));
        }
        assert forall|f: usize| f < new_s.eff_count() implies #[trigger] new_s.deps_ok(f) by {
            assert(old_s.deps_ok(f));
        }
        assert forall|o: int| 0 <= o < new_s.owners@.len() implies #[trigger] new_s.owner_ok(o) by {
            assert(old_s.owner_ok(o));
        }
        assert forall|e: usize| e < new_s.eff_count() && new_s.alive(e)
            implies effect_callable(#[trigger] new_s.bodies@[e as int]->0) by {
            assert(old_s.alive(e));
        }
    }

    fn new() -> (r: Self)
        ensures
            r.wf(),
            r.sig_count() == 0,
            r.eff_count() == 0,
            r.owners@.len() == 0,
            r.depth == 0,
            r.pending@.len() == 0,
            r.log@ == Seq::<usize>::empty(),
            r.written@ == Seq::<usize>::empty(),
            r.queued_log@ == Seq::<usize>::empty(),
            r.cleaned@ == Seq::<usize>::empty(),
    {
        State {
            values: Vec::new(),
            subscribers: Vec::new(),
            deps: Vec::new(),
            bodies: Vec::new(),
            depth: 0,
            pending: Vec::new(),
            owners: Vec::new(),
            log: Ghost(Seq::empty()),
            last_reads: Ghost(Seq::empty()),
            written: Ghost(Seq::empty()),
            queued_log: Ghost(Seq::empty()),
            cleaned: Ghost(Seq::empty()),
        }
    }

    fn add_signal(&mut self, value: V) -> (id: usize)
        requires
            old(self).wf(),
            old(self).sig_count() < usize::MAX,
        ensures
            final(self).wf(),
            id == old(self).sig_count(),
            final(self).values@ == old(self).values@.push(value),
            final(self).subscribers@.len() == old(self).subscribers@.len() + 1,
            forall|t: usize| t < old(self).sig_count() ==> #[trigger] final(self).subs(t) == old(self).subs(t),
            final(self).subs(id) == Seq::<usize>::empty(),
            final(self).deps@ == old(self).deps@,
            final(self).bodies@ == old(self).bodies@,
            final(self).depth == old(self).depth,
            final(self).pending@ == old(self).pending@,
            final(self).owners@ == old(self).owners@,
            final(self).log@ == old(self).log@,
            final(self).same_history(old(self)),
    {
        let ghost old_s = *self;
        let id = self.values.len();
        self.values.push(value);
        self.subscribers.push(Vec::new());
        proof {
            assert forall|s: usize| s < self.sig_count() implies #[trigger] self.subs_ok(s) by {
                if s < old_s.sig_count() {
                    assert(old_s.subs_ok(s));
                    assert(self.subs(s) == old_s.subs(s));
                }
            }
            assert forall|e: usize| e < self.eff_count() implies #[trigger] self.deps_ok(e) by {
                assert(old_s.deps_ok(e));
                assert forall|j: int| 0 <= j < self.deps_of(e).len() implies
                    self.subs(#[trigger] self.deps_of(e)[j]) == old_s.subs(old_s.deps_of(e)[j]) by {}
            }
            Self::lemma_reads_kept(&old_s, self);
            Self::lemma_rest_kept(&old_s, self);
        }
        id
    }

    /// Subscribes effect `e` to signal `s` unless it already is, and
    /// records `s` as read by `e`.
    fn link(&mut self, s: usize, e: usize)
        requires
            old(self).wf(),
            s < old(self).sig_count(),
            e < old(self).eff_count(),
            old(self).alive(e),
        ensures
            final(self).wf(),
            final(self).subscribers@.len() == old(self).subscribers@.len(),
            final(self).deps@.len() == old(self).deps@.len(),
            final(self).subs(s) == (if old(self).subs(s).contains(e) {
                old(self).subs(s)
            } else {
                old(self).subs(s).push(e)
            }),
            forall|t: usize| t < old(self).sig_count() && t != s ==> #[trigger] final(self).subs(t) == old(self).subs(t),
            final(self).values@ == old(self).values@,
            final(self).bodies@ == old(self).bodies@,
            final(self).depth == old(self).depth,
            final(self).pending@ == old(self).pending@,
            final(self).owners@ == old(self).owners@,
            final(self).log@ == old(self).log@,
            final(self).same_history(old(self)),
            final(self).last_reads@ == old(self).last_reads@.update(e as int, old(self).last_reads@[e as int].push(s)),
    {
        let ghost old_s = *self;
        proof {
            assert(old_s.reads_match(e));
        }
        self.last_reads = Ghost(self.last_reads@.update(e as int, self.last_reads@[e as int].push(s)));
        if contains_index(&self.subscribers[s], e) {
            proof {
                assert(old_s.subs_ok(s));
                let i = choose|i: int| 0 <= i < old_s.subs(s).len() && old_s.subs(s)[i] == e;
                assert(old_s.deps_of(e).contains(s));
                assert(self.reads_match(e)) by {
                    assert forall|t: usize| self.deps_of(e).contains(t) <==> #[trigger] self.last_reads@[e as int].contains(t) by {
                        if self.last_reads@[e as int].contains(t) && t != s {
                            let k = choose|k: int| 0 <= k < self.last_reads@[e as int].len() && self.last_reads@[e as int][k] == t;
                            assert(old_s.last_reads@[e as int][k] == t);
                        }
                        if old_s.last_reads@[e as int].contains(t) {
                            let k = choose|k: int| 0 <= k < old_s.last_reads@[e as int].len() && old_s.last_reads@[e as int][k] == t;
                            assert(self.last_reads@[e as int][k] == t);
                        }
                        assert(self.last_reads@[e as int][old_s.last_reads@[e as int].len() as int] == s);
                    }
                }
                assert forall|f: usize| f < self.eff_count() && self.alive(f) implies #[trigger] self.reads_match(f) by {
                    if f != e {
                        assert(old_s.reads_match(f));
                    }
                }
                Self::lemma_only_reads_changed(&old_s, self);
            }
            return;
        }
        proof {
            assert(old_s.deps_ok(e));
            if old_s.deps_of(e).contains(s) {
                let j = choose|j: int| 0 <= j < old_s.deps_of(e).len() && old_s.deps_of(e)[j] == s;
                assert(old_s.subs(s).contains(e));
            }
        }
        self.subscribers[s].push(e);
        self.deps[e].push(s);
        proof {
            assert(self.subs(s) == old_s.subs(s).push(e));
            assert(self.deps_of(e) == old_s.deps_of(e).push(s));
            assert forall|t: usize| t < self.sig_count() implies #[trigger] self.subs_ok(t) by {
                assert(old_s.subs_ok(t));
                assert forall|i: int| 0 <= i < self.subs(t).len() implies {
                    let f = #[trigger] self.subs(t)[i];
                    &&& f < self.eff_count()
                    &&& self.alive(f)
                    &&& self.deps_of(f).contains(t)
                } by {
                    let f = self.subs(t)[i];
                    if t == s && i == self.subs(t).len() - 1 {
                        assert(f == e);
                        assert(self.deps_of(e)[self.deps_of(e).len() - 1] == s);
                    } else {
                        assert(f == old_s.subs(t)[i]);
                        assert(old_s.deps_of(f).contains(t));
                        let j = choose|j: int| 0 <= j < old_s.deps_of(f).len() && old_s.deps_of(f)[j] == t;
                        assert(self.deps_of(f)[j] == t);
                    }
                }
            }
            assert forall|f: usize| f < self.eff_count() implies #[trigger] self.deps_ok(f) by {
                assert(old_s.deps_ok(f));
                assert forall|j: int| 0 <= j < self.deps_of(f).len() implies {
                    let t = #[trigger] self.deps_of(f)[j];
                    &&& t < self.sig_count()
                    &&& self.subs(t).contains(f)
                } by {
                    let t = self.deps_of(f)[j];
                    if f == e && j == self.deps_of(f).len() - 1 {
                        assert(t == s);
                        assert(self.subs(s)[self.subs(s).len() - 1] == e);
                    } else {
                        assert(t == old_s.deps_of(f)[j]);
                        assert(old_s.subs(t).contains(f));
                        let i = choose|i: int| 0 <= i < old_s.subs(t).len() && old_s.subs(t)[i] == f;
                        assert(self.subs(t)[i] == f);
                    }
                }
            }
            assert(self.reads_match(e)) by {
                assert forall|t: usize| self.deps_of(e).contains(t) <==> #[trigger] self.last_reads@[e as int].contains(t) by {
                    let n = old_s.deps_of(e).len() as int;
                    let m = old_s.last_reads@[e as int].len() as int;
                    if self.last_reads@[e as int].contains(t) && t != s {
                        let k = choose|k: int| 0 <= k < self.last_reads@[e as int].len() && self.last_reads@[e as int][k] == t;
                        assert(old_s.last_reads@[e as int][k] == t);
                    }
                    if old_s.last_reads@[e as int].contains(t) {
                        let k = choose|k: int| 0 <= k < m && old_s.last_reads@[e as int][k] == t;
                        assert(self.last_reads@[e as int][k] == t);
                    }
                    if self.deps_of(e).contains(t) && t != s {
                        let k = choose|k: int| 0 <= k < self.deps_of(e).len() && self.deps_of(e)[k] == t;
                        assert(old_s.deps_of(e)[k] == t);
                    }
                    if old_s.deps_of(e).contains(t) {
                        let k = choose|k: int| 0 <= k < n && old_s.deps_of(e)[k] == t;
                        assert(self.deps_of(e)[k] == t);
                    }
                    assert(self.last_reads@[e as int][m] == s);
                    assert(self.deps_of(e)[n] == s);
                }
            }
            assert forall|f: usize| f < self.eff_count() && self.alive(f) implies #[trigger] self.reads_match(f) by {
                if f != e {
                    assert(old_s.reads_match(f));
                }
            }
            Self::lemma_rest_kept(&old_s, self);
        }
    }

    /// Removes effect `e` from every subscriber list and forgets its
    /// dependencies.
    fn unlink_all(&mut self, e: usize)
        requires
            old(self).wf(),
            e < old(self).eff_count(),
        ensures
            final(self).wf(),
            final(self).subscribers@.len() == old(self).subscribers@.len(),
            final(self).deps@.len() == old(self).deps@.len(),
            forall|t: usize| t < old(self).sig_count() ==> #[trigger] final(self).subs(t) == without(old(self).subs(t), e),
            final(self).deps_of(e) == Seq::<usize>::empty(),
            forall|f: usize| f < old(self).eff_count() && f != e ==> #[trigger] final(self).deps_of(f) == old(self).deps_of(f),
            final(self).values@ == old(self).values@,
            final(self).bodies@ == old(self).bodies@,
            final(self).depth == old(self).depth,
            final(self).pending@ == old(self).pending@,
            final(self).owners@ == old(self).owners@,
            final(self).log@ == old(self).log@,
            final(self).same_history(old(self)),
            final(self).last_reads@ == old(self).last_reads@.update(e as int, Seq::<usize>::empty()),
    {
        let ghost old_s = *self;
        self.last_reads = Ghost(self.last_reads@.update(e as int, Seq::<usize>::empty()));
        let mut list: Vec<usize> = Vec::new();
        std::mem::swap(&mut list, &mut self.deps[e]);
        proof { assert(old_s.deps_ok(e)); }
        let mut i: usize = 0;
        while i < list.len()
            invariant
                old_s.wf(),
                e < old_s.eff_count(),
                old_s.deps_ok(e),
                i <= list@.len(),
                list@ == old_s.deps_of(e),
                self.subscribers@.len() == old_s.subscribers@.len(),
                self.deps@.len() == old_s.deps@.len(),
                self.deps_of(e) == Seq::<usize>::empty(),
                forall|f: usize| f < old_s.eff_count() && f != e ==> #[trigger] self.deps_of(f) == old_s.deps_of(f),
                forall|t: usize| t < old_s.sig_count() ==> #[trigger] self.subs(t) == (
                    if list@.take(i as int).contains(t) { without(old_s.subs(t), e) } else { old_s.subs(t) }),
                self.values@ == old_s.values@,
                self.bodies@ == old_s.bodies@,
                self.depth == old_s.depth,
                self.pending@ == old_s.pending@,
                self.owners@ == old_s.owners@,
                self.log@ == old_s.log@,
                self.last_reads@ == old_s.last_reads@.update(e as int, Seq::<usize>::empty()),
                self.same_history(&old_s),
            decreases list@.len() - i,
        {
            let t = list[i];
            let ghost prev = *self;
            proof {
                assert(list@[i as int] == t);
                assert(t < old_s.sig_count());
                assert(!list@.take(i as int).contains(t)) by {
                    if list@.take(i as int).contains(t) {
                        let k = choose|k: int| 0 <= k < i && list@.take(i as int)[k] == t;
                        assert(list@[k] == list@[i as int]);
                    }
                }
            }
            let updated = copy_without(&self.subscribers[t], e);
            self.subscribers[t] = updated;
            proof {
                let next = list@.take(i as int + 1);
                assert(next[i as int] == t);
                assert forall|f: usize| f < old_s.eff_count() && f != e implies #[trigger] self.deps_of(f) == old_s.deps_of(f) by {
                    assert(self.deps_of(f) == prev.deps_of(f));
                }
                assert forall|u: usize| u < old_s.sig_count() implies #[trigger] self.subs(u) == (
                    if next.contains(u) { without(old_s.subs(u), e) } else { old_s.subs(u) }) by {
                    if u == t {
                        assert(next.contains(t));
                        assert(prev.subs(t) == old_s.subs(t));
                        assert(self.subs(t) == without(prev.subs(t), e));
                    } else {
                        assert(self.subs(u) == prev.subs(u));
                        if next.contains(u) {
                            let k = choose|k: int| 0 <= k < i + 1 && #[trigger] next[k] == u;
                            assert(k != i);
                            assert(list@.take(i as int)[k] == u);
                        }
                        if list@.take(i as int).contains(u) {
                            let k = choose|k: int| 0 <= k < i && #[trigger] list@.take(i as int)[k] == u;
                            assert(next[k] == u);
                        }
                    }
                }
            }
            i = i + 1;
        }
        proof {
            assert(list@.take(list@.len() as int) == list@);
            assert forall|f: usize| f < self.eff_count() && self.alive(f) implies #[trigger] self.reads_match(f) by {
                if f != e {
                    assert(old_s.reads_match(f));
                    assert(self.deps_of(f) == old_s.deps_of(f));
                }
            }
            assert forall|t: usize| t < old_s.sig_count() implies #[trigger] self.subs(t) == without(old_s.subs(t), e) by {
                lemma_without(old_s.subs(t), e);
                if !list@.contains(t) {
                    assert(old_s.subs_ok(t));
                    if old_s.subs(t).contains(e) {
                        let k = choose|k: int| 0 <= k < old_s.subs(t).len() && old_s.subs(t)[k] == e;
                        assert(old_s.deps_of(e).contains(t));
                    }
                }
            }
            assert forall|t: usize| t < self.sig_count() implies #[trigger] self.subs_ok(t) by {
                assert(old_s.subs_ok(t));
                lemma_without(old_s.subs(t), e);
                assert forall|k: int| 0 <= k < self.subs(t).len() implies {
                    let f = #[trigger] self.subs(t)[k];
                    &&& f < self.eff_count()
                    &&& self.alive(f)
                    &&& self.deps_of(f).contains(t)
                } by {
                    let f = self.subs(t)[k];
                    assert(self.subs(t).contains(f));
                    assert(old_s.subs(t).contains(f) && f != e);
                    let k2 = choose|k2: int| 0 <= k2 < old_s.subs(t).len() && old_s.subs(t)[k2] == f;
                    assert(self.deps_of(f) == old_s.deps_of(f));
                }
            }
            assert forall|f: usize| f < self.eff_count() implies #[trigger] self.deps_ok(f) by {
                assert(old_s.deps_ok(f));
                if f != e {
                    assert forall|j: int| 0 <= j < self.deps_of(f).len() implies {
                        let t = #[trigger] self.deps_of(f)[j];
                        &&& t < self.sig_count()
                        &&& self.subs(t).contains(f)
                    } by {
                        let t = self.deps_of(f)[j];
                        assert(old_s.deps_of(f)[j] == t);
                        assert(old_s.subs(t).contains(f));
                        lemma_without(old_s.subs(t), e);
                        assert(self.subs(t) == without(old_s.subs(t), e));
                    }
                }
            }
            Self::lemma_rest_kept(&old_s, self);
        }
    }

    fn add_effect(&mut self, body: F) -> (id: usize)
        requires
            old(self).wf(),
            old(self).eff_count() < usize::MAX,
            effect_callable(body),
        ensures
            final(self).wf(),
            id == old(self).eff_count(),
            final(self).bodies@ == old(self).bodies@.push(Some(body)),
            final(self).deps@.len() == old(self).deps@.len() + 1,
            final(self).deps_of(id) == Seq::<usize>::empty(),
            forall|f: usize| f < old(self).eff_count() ==> #[trigger] final(self).deps_of(f) == old(self).deps_of(f),
            final(self).values@ == old(self).values@,
            final(self).subscribers@ == old(self).subscribers@,
            final(self).depth == old(self).depth,
            final(self).pending@ == old(self).pending@,
            final(self).owners@ == old(self).owners@,
            final(self).log@ == old(self).log@,
            final(self).same_history(old(self)),
            final(self).last_reads@ == old(self).last_reads@.push(Seq::<usize>::empty()),
    {
        let ghost old_s = *self;
        let id = self.bodies.len();
        self.bodies.push(Some(body));
        self.deps.push(Vec::new());
        self.last_reads = Ghost(self.last_reads@.push(Seq::<usize>::empty()));
        proof {
            assert forall|f: usize| f < self.eff_count() && self.alive(f) implies #[trigger] self.reads_match(f) by {
                if f < old_s.eff_count() {
                    assert(old_s.alive(f));
                    assert(old_s.reads_match(f));
                    assert(self.deps_of(f) == old_s.deps_of(f));
                }
            }
            assert forall|t: usize| t < self.sig_count() implies #[trigger] self.subs_ok(t) by {
                assert(old_s.subs_ok(t));
                assert forall|i: int| 0 <= i < self.subs(t).len() implies {
                    let f = #[trigger] self.subs(t)[i];
                    &&& f < self.eff_count()
                    &&& self.alive(f)
                    &&& self.deps_of(f).contains(t)
                } by {
                    let f = self.subs(t)[i];
                    assert(old_s.alive(f));
                    assert(self.deps_of(f) == old_s.deps_of(f));
                }
            }
            assert forall|f: usize| f < self.eff_count() implies #[trigger] self.deps_ok(f) by {
                if f < old_s.eff_count() {
                    assert(old_s.deps_ok(f));
                    assert(self.deps_of(f) == old_s.deps_of(f));
                }
            }
            assert forall|o: int| 0 <= o < self.owners@.len() implies #[trigger] self.owner_ok(o) by {
                assert(old_s.owner_ok(o));
            }
            assert forall|f: usize| f < self.eff_count() && self.alive(f)
                implies effect_callable(#[trigger] self.bodies@[f as int]->0) by {
                if f < old_s.eff_count() {
                    assert(old_s.alive(f));
                }
            }
            assert forall|i: int| 0 <= i < self.pending@.len() implies {
                &&& #[trigger] self.pending@[i] < self.eff_count()
                &&& self.alive(self.pending@[i])
            } by {
                assert(old_s.alive(old_s.pending@[i]));
            }
        }
        id
    }

    /// Stops effect `e` for good: unsubscribes it, drops its body and
    /// takes it off the queue.
    fn kill(&mut self, e: usize)
        requires
            old(self).wf(),
            e < old(self).eff_count(),
        ensures
            final(self).wf(),
            final(self).subscribers@.len() == old(self).subscribers@.len(),
            final(self).deps@.len() == old(self).deps@.len(),
            forall|t: usize| t < old(self).sig_count() ==> #[trigger] final(self).subs(t) == without(old(self).subs(t), e),
            forall|f: usize| f < old(self).eff_count() && f != e ==> #[trigger] final(self).deps_of(f) == old(self).deps_of(f),
            final(self).bodies@ == old(self).bodies@.update(e as int, None),
            final(self).pending@ == without(old(self).pending@, e),
            final(self).values@ == old(self).values@,
            final(self).depth == old(self).depth,
            final(self).owners@ == old(self).owners@,
            final(self).log@ == old(self).log@,
            final(self).same_history(old(self)),
    {
        self.unlink_all(e);
        let ghost mid = *self;
        let pending = copy_without(&self.pending, e);
        self.pending = pending;
        self.bodies[e] = None;
        proof {
            assert forall|t: usize| t < old(self).sig_count() implies #[trigger] self.subs(t) == without(old(self).subs(t), e) by {
                assert(self.subs(t) == mid.subs(t));
            }
            assert forall|f: usize| f < old(self).eff_count() && f != e implies #[trigger] self.deps_of(f) == old(self).deps_of(f) by {
                assert(self.deps_of(f) == mid.deps_of(f));
            }
            lemma_without(mid.pending@, e);
            assert forall|t: usize| t < self.sig_count() implies #[trigger] self.subs_ok(t) by {
                assert(mid.subs_ok(t));
                lemma_without(old(self).subs(t), e);
                assert forall|i: int| 0 <= i < self.subs(t).len() implies {
                    let f = #[trigger] self.subs(t)[i];
                    &&& f < self.eff_count()
                    &&& self.alive(f)
                    &&& self.deps_of(f).contains(t)
                } by {
                    let f = self.subs(t)[i];
                    assert(self.subs(t).contains(f));
                    assert(f != e);
                    assert(mid.alive(f));
                }
            }
            assert forall|f: usize| f < self.eff_count() implies #[trigger] self.deps_ok(f) by {
                assert(mid.deps_ok(f));
            }
            assert forall|f: usize| f < self.eff_count() && self.alive(f) implies #[trigger] self.reads_match(f) by {
                assert(mid.alive(f));
                assert(mid.reads_match(f));
            }
            assert forall|o: int| 0 <= o < self.owners@.len() implies #[trigger] self.owner_ok(o) by {
                assert(mid.owner_ok(o));
            }
            assert forall|f: usize| f < self.eff_count() && self.alive(f)
                implies effect_callable(#[trigger] self.bodies@[f as int]->0) by {
                assert(mid.alive(f));
            }
            assert forall|i: int| 0 <= i < self.pending@.len() implies {
                &&& #[trigger] self.pending@[i] < self.eff_count()
                &&& self.alive(self.pending@[i])
            } by {
                let x = self.pending@[i];
                assert(self.pending@.contains(x));
                assert(mid.pending@.contains(x) && x != e);
                let k = choose|k: int| 0 <= k < mid.pending@.len() && mid.pending@[k] == x;
                assert(mid.alive(mid.pending@[k]));
            }
        }
    }

    /// Queues every effect of `list` that is not queued yet.
    fn enqueue(&mut self, list: &Vec<usize>)
        requires
            old(self).wf(),
            forall|i: int| 0 <= i < list@.len() ==> #[trigger] list@[i] < old(self).eff_count() && old(self).alive(list@[i]),
        ensures
            final(self).wf(),
            final(self).pending@ == append_new(old(self).pending@, list@),
            final(self).queued_log@ == old(self).queued_log@ + final(self).pending@.skip(old(self).pending@.len() as int),
            final(self).pending@ == old(self).pending@ + final(self).pending@.skip(old(self).pending@.len() as int),
            final(self).written@ == old(self).written@,
            final(self).cleaned@ == old(self).cleaned@,
            final(self).values@ == old(self).values@,
            final(self).subscribers@ == old(self).subscribers@,
            final(self).deps@ == old(self).deps@,
            final(self).bodies@ == old(self).bodies@,
            final(self).depth == old(self).depth,
            final(self).owners@ == old(self).owners@,
            final(self).log@ == old(self).log@,
            final(self).last_reads@ == old(self).last_reads@,
    {
        let ghost old_s = *self;
        push_new(&mut self.pending, list);
        self.queued_log = Ghost(self.queued_log@ + self.pending@.skip(old_s.pending@.len() as int));
        proof {
            Self::lemma_reads_kept(&old_s, self);
            lemma_append_new(old_s.pending@, list@);
            assert(self.pending@ =~= old_s.pending@ + self.pending@.skip(old_s.pending@.len() as int)) by {
                assert(self.pending@.subrange(0, old_s.pending@.len() as int) == old_s.pending@);
            }
            assert forall|i: int| 0 <= i < self.pending@.len() implies {
                &&& #[trigger] self.pending@[i] < self.eff_count()
                &&& self.alive(self.pending@[i])
            } by {
                let x = self.pending@[i];
                assert(self.pending@.contains(x));
                if old_s.pending@.contains(x) {
                    let k = choose|k: int| 0 <= k < old_s.pending@.len() && old_s.pending@[k] == x;
                    assert(old_s.alive(old_s.pending@[k]));
                } else {
                    let k = choose|k: int| 0 <= k < list@.len() && list@[k] == x;
                    assert(old_s.alive(list@[k]));
                }
            }
            assert forall|t: usize| t < self.sig_count() implies #[trigger] self.subs_ok(t) by {
                assert(old_s.subs_ok(t));
            }
            assert forall|f: usize| f < self.eff_count() implies #[trigger] self.deps_ok(f) by {
                assert(old_s.deps_ok(f));
            }
            assert forall|o: int| 0 <= o < self.owners@.len() implies #[trigger] self.owner_ok(o) by {
                assert(old_s.owner_ok(o));
            }
            assert forall|f: usize| f < self.eff_count() && self.alive(f)
                implies effect_callable(#[trigger] self.bodies@[f as int]->0) by {
                assert(old_s.alive(f));
            }
        }
    }

    /// Runs effect `e` if it is alive: forgets its old dependencies, calls
    /// its body, subscribes it to what the body read, then applies the
    /// writes the body asked for and queues their subscribers.
    fn run(&mut self, e: usize)
        requires
            old(self).wf(),
            e < old(self).eff_count(),
        ensures
            final(self).wf(),
            final(self).sig_count() == old(self).sig_count(),
            final(self).eff_count() == old(self).eff_count(),
            forall|f: usize| f < old(self).eff_count() ==> #[trigger] final(self).alive(f) == old(self).alive(f),
            forall|f: usize| f < old(self).eff_count() && f != e ==> #[trigger] final(self).bodies@[f as int] == old(self).bodies@[f as int],
            forall|t: usize| t < old(self).sig_count() ==> #[trigger] without(final(self).subs(t), e) == without(old(self).subs(t), e),
            final(self).log@ == (if old(self).alive(e) { old(self).log@.push(e) } else { old(self).log@ }),
            final(self).pending@.subrange(0, old(self).pending@.len() as int) == old(self).pending@,
            old(self).pending@.len() <= final(self).pending@.len(),
            final(self).depth == old(self).depth,
            final(self).owners@ == old(self).owners@,
            !old(self).alive(e) ==> *final(self) == *old(self),
            old(self).alive(e) ==> exists|t: &mut Tracker<'_, V>| {
                &&& t.reads() == Seq::<usize>::empty()
                &&& t.writes() == Seq::<(usize, V)>::empty()
                &&& t.signal_count() == old(self).sig_count()
                &&& forall|s: Signal| #[trigger] t.value(s) == old(self).values@[s.index()]
                &&& call_ensures(old(self).bodies@[e as int]->0, (t,), ())
                &&& forall|s: usize| s < old(self).sig_count()
                    ==> (#[trigger] final(self).last_reads@[e as int].contains(s) <==> final(t).reads().contains(s))
                &&& final(self).written@ == old(self).written@ + signals_of(final(t).writes())
            },
            old(self).queued_log@.is_prefix_of(final(self).queued_log@),
            final(self).pending@ == old(self).pending@ + final(self).queued_log@.skip(old(self).queued_log@.len() as int),
            old(self).written@.is_prefix_of(final(self).written@),
            final(self).written@.len() == old(self).written@.len() ==> final(self).queued_log@ == old(self).queued_log@,
            (forall|g: F, t: &mut Tracker<'_, V>| call_ensures(g, (t,), ()) ==> final(t).writes() == t.writes())
                ==> final(self).written@ == old(self).written@,
            forall|x: usize| (forall|g: F, t: &mut Tracker<'_, V>| call_ensures(g, (t,), ()) ==> !signals_of(final(t).writes()).contains(x)) ==> !#[trigger] final(self).written@.skip(old(self).written@.len() as int).contains(x),
            forall|s: usize| s < old(self).sig_count() && !final(self).written@.skip(old(self).written@.len() as int).contains(s)
                ==> #[trigger] final(self).values@[s as int] == old(self).values@[s as int],
            final(self).cleaned@ == old(self).cleaned@,
            final(self).last_reads@.len() == old(self).last_reads@.len(),
            forall|f: int| 0 <= f < old(self).last_reads@.len() && f != e
                ==> #[trigger] final(self).last_reads@[f] == old(self).last_reads@[f],
    {
        if self.bodies[e].is_none() {
            return;
        }
        let ghost start = *self;
        self.unlink_all(e);
        let ghost unlinked = *self;
        let mut slot: Option<F> = None;
        std::mem::swap(&mut slot, &mut self.bodies[e]);
        let mut body = match slot {
            Some(body) => body,
            None => { proof { assert(false); } return; }
        };
        proof {
            assert(unlinked.alive(e));
            assert(effect_callable(body));
        }
        let mut cx = Tracker { values: &self.values, reads: Vec::new(), writes: Vec::new() };
        let ghost b0 = body;
        let ghost c0 = cx;
        body(&mut cx);
        proof {
            assert(exists|t: &mut Tracker<'_, V>| call_ensures(b0, (t,), ()) && *t == c0 && *final(t) == cx);
        }
        let ghost seen = choose|t: &mut Tracker<'_, V>| call_ensures(b0, (t,), ()) && *t == c0 && *final(t) == cx;
        let reads = cx.reads;
        let mut writes = cx.writes;
        proof { assert(effect_callable(body)); }
        self.bodies[e] = Some(body);
        self.log = Ghost(self.log@.push(e));
        let ghost ran = *self;
        proof {
            assert(self.bodies@ == unlinked.bodies@.update(e as int, Some(body)));
            assert forall|f: usize| f < self.eff_count() && self.alive(f)
                implies effect_callable(#[trigger] self.bodies@[f as int]->0) by {
                if f != e {
                    assert(unlinked.alive(f));
                }
            }
            assert forall|t: usize| t < self.sig_count() implies #[trigger] self.subs_ok(t) by {
                assert(unlinked.subs_ok(t));
                assert forall|i: int| 0 <= i < self.subs(t).len() implies {
                    let f = #[trigger] self.subs(t)[i];
                    &&& f < self.eff_count()
                    &&& self.alive(f)
                    &&& self.deps_of(f).contains(t)
                } by {
                    let f = self.subs(t)[i];
                    assert(unlinked.alive(f));
                }
            }
            assert forall|f: usize| f < self.eff_count() implies #[trigger] self.deps_ok(f) by {
                assert(unlinked.deps_ok(f));
            }
            assert forall|f: usize| f < self.eff_count() && self.alive(f) implies #[trigger] self.reads_match(f) by {
                if f != e {
                    assert(unlinked.alive(f));
                    assert(unlinked.reads_match(f));
                }
            }
            assert forall|o: int| 0 <= o < self.owners@.len() implies #[trigger] self.owner_ok(o) by {
                assert(unlinked.owner_ok(o));
            }
            assert forall|i: int| 0 <= i < self.pending@.len() implies {
                &&& #[trigger] self.pending@[i] < self.eff_count()
                &&& self.alive(self.pending@[i])
            } by {
                assert(unlinked.alive(unlinked.pending@[i]));
            }
            assert forall|t: usize| t < start.sig_count() implies #[trigger] without(self.subs(t), e) == without(start.subs(t), e) by {
                lemma_without(start.subs(t), e);
                lemma_without(without(start.subs(t), e), e);
                assert(self.subs(t) == unlinked.subs(t));
            }
        }
        let mut i: usize = 0;
        while i < reads.len()
            invariant
                self.wf(),
                e < self.eff_count(),
                self.alive(e),
                self.sig_count() == start.sig_count(),
                self.eff_count() == start.eff_count(),
                self.bodies@ == ran.bodies@,
                forall|t: usize| t < start.sig_count() ==> #[trigger] without(self.subs(t), e) == without(start.subs(t), e),
                self.log@ == ran.log@,
                self.pending@ == start.pending@,
                self.depth == start.depth,
                self.owners@ == start.owners@,
                self.values@ == start.values@,
                self.same_history(&start),
                self.last_reads@.len() == start.last_reads@.len(),
                forall|f: int| 0 <= f < start.last_reads@.len() && f != e
                    ==> #[trigger] self.last_reads@[f] == start.last_reads@[f],
                i <= reads@.len(),
                forall|u: usize| u < start.sig_count()
                    ==> (#[trigger] self.last_reads@[e as int].contains(u) <==> reads@.take(i as int).contains(u)),
            decreases reads@.len() - i,
        {
            let t = reads[i];
            let ghost before = *self;
            proof {
                assert(reads@.take(i as int + 1) =~= reads@.take(i as int).push(t));
            }
            if t < self.values.len() {
                self.link(t, e);
                proof {
                    assert forall|u: usize| u < start.sig_count()
                        implies (#[trigger] self.last_reads@[e as int].contains(u) <==> reads@.take(i as int + 1).contains(u)) by {
                        let l = before.last_reads@[e as int];
                        assert(self.last_reads@[e as int] == l.push(t));
                        if l.contains(u) {
                            let k = choose|k: int| 0 <= k < l.len() && l[k] == u;
                            assert(l.push(t)[k] == u);
                        }
                        if l.push(t).contains(u) && u != t {
                            let k = choose|k: int| 0 <= k < l.len() + 1 && l.push(t)[k] == u;
                            assert(l[k] == u);
                        }
                        assert(l.push(t)[l.len() as int] == t);
                        let r = reads@.take(i as int);
                        if r.contains(u) {
                            let k = choose|k: int| 0 <= k < r.len() && r[k] == u;
                            assert(r.push(t)[k] == u);
                        }
                        if r.push(t).contains(u) && u != t {
                            let k = choose|k: int| 0 <= k < r.len() + 1 && r.push(t)[k] == u;
                            assert(r[k] == u);
                        }
                        assert(r.push(t)[r.len() as int] == t);
                    }
                }
                proof {
                    assert forall|u: usize| u < start.sig_count() implies #[trigger] without(self.subs(u), e) == without(start.subs(u), e) by {
                        assert(without(before.subs(u), e) == without(start.subs(u), e));
                        if u == t && !before.subs(t).contains(e) {
                            assert(self.subs(t) == before.subs(t).push(e));
                            assert(self.subs(t).drop_last() == before.subs(t));
                        } else {
                            assert(self.subs(u) == before.subs(u));
                        }
                    }
                }
            } else {
                proof {
                    assert forall|u: usize| u < start.sig_count()
                        implies (#[trigger] self.last_reads@[e as int].contains(u) <==> reads@.take(i as int + 1).contains(u)) by {
                        let r = reads@.take(i as int);
                        if r.contains(u) {
                            let k = choose|k: int| 0 <= k < r.len() && r[k] == u;
                            assert(r.push(t)[k] == u);
                        }
                        if r.push(t).contains(u) {
                            let k = choose|k: int| 0 <= k < r.len() + 1 && r.push(t)[k] == u;
                            if k < r.len() {
                                assert(r[k] == u);
                            }
                        }
                    }
                }
            }
            i = i + 1;
        }
        let ghost linked = *self;
        proof {
            assert(reads@.take(reads@.len() as int) =~= reads@);
        }
        let ghost all = writes@;
        while writes.len() > 0
            invariant
                self.wf(),
                writes@.len() <= all.len(),
                writes@ == all.skip(all.len() - writes@.len()),
                start.queued_log@.is_prefix_of(self.queued_log@),
                self.pending@ == start.pending@ + self.queued_log@.skip(start.queued_log@.len() as int),
                self.written@ == start.written@ + signals_of(all.take(all.len() - writes@.len())),
                self.written@.len() == start.written@.len() ==> self.queued_log@ == start.queued_log@,
                forall|u: usize| u < start.sig_count() && !self.written@.skip(start.written@.len() as int).contains(u)
                    ==> #[trigger] self.values@[u as int] == start.values@[u as int],
                self.cleaned@ == start.cleaned@,
                self.sig_count() == start.sig_count(),
                self.eff_count() == start.eff_count(),
                self.bodies@ == ran.bodies@,
                forall|t: usize| t < start.sig_count() ==> #[trigger] without(self.subs(t), e) == without(start.subs(t), e),
                self.log@ == ran.log@,
                self.pending@.subrange(0, start.pending@.len() as int) == start.pending@,
                start.pending@.len() <= self.pending@.len(),
                self.depth == start.depth,
                self.owners@ == start.owners@,
                self.last_reads@ == linked.last_reads@,
            decreases writes@.len(),
        {
            let ghost k = all.len() - writes@.len();
            let ghost prior = *self;
            let (t, value) = writes.remove(0);
            proof {
                assert(all.skip(k)[0] == all[k]);
                assert(writes@ =~= all.skip(all.len() - writes@.len()));
                assert(signals_of(all.take(k + 1)) =~= signals_of(all.take(k)).push(t));
                lemma_push_contains(prior.written@.skip(start.written@.len() as int), t);
                assert(prior.written@.push(t).skip(start.written@.len() as int)
                    =~= prior.written@.skip(start.written@.len() as int).push(t));
            }
            self.written = Ghost(self.written@.push(t));
            proof {
                Self::lemma_queue_changed(&prior, self);
                assert forall|u: usize| u < start.sig_count() implies #[trigger] without(self.subs(u), e) == without(start.subs(u), e) by {
                    assert(self.subs(u) == prior.subs(u));
                }
            }
            if t < self.values.len() {
                let ghost before = *self;
                self.values[t] = value;
                proof {
                    assert forall|u: usize| u < self.sig_count() implies #[trigger] self.subs_ok(u) by {
                        assert(before.subs_ok(u));
                    }
                    assert forall|f: usize| f < self.eff_count() implies #[trigger] self.deps_ok(f) by {
                        assert(before.deps_ok(f));
                    }
                    Self::lemma_reads_kept(&before, self);
                    Self::lemma_rest_kept(&before, self);
                    assert(self.subs_ok(t));
                }
                let ghost mid = *self;
                let targets = copy_without(&self.subscribers[t], usize::MAX);
                proof {
                    lemma_without(mid.subs(t), usize::MAX);
                    assert forall|k: int| 0 <= k < targets@.len() implies #[trigger] targets@[k] < mid.eff_count() && mid.alive(targets@[k]) by {
                        assert(targets@.contains(targets@[k]));
                        let j = choose|j: int| 0 <= j < mid.subs(t).len() && mid.subs(t)[j] == targets@[k];
                        assert(mid.subs_ok(t));
                    }
                }
                self.enqueue(&targets);
                proof {
                    lemma_extends(mid.queued_log@, self.queued_log@, start.queued_log@.len() as int);
                    assert(self.pending@ =~= start.pending@ + self.queued_log@.skip(start.queued_log@.len() as int));
                    lemma_append_new(mid.pending@, targets@);
                    assert(self.pending@.subrange(0, start.pending@.len() as int) == mid.pending@.subrange(0, start.pending@.len() as int));
                    assert forall|u: usize| u < start.sig_count() implies #[trigger] without(self.subs(u), e) == without(start.subs(u), e) by {
                        assert(self.subs(u) == before.subs(u));
                    }
                }
            }
        }
        proof {
            assert(all.take(all.len() as int) =~= all);
            assert(seen.reads() == Seq::<usize>::empty());
            assert(seen.writes() == Seq::<(usize, V)>::empty());
            assert(final(seen).reads() == reads@);
            assert(b0 == start.bodies@[e as int]->0);
            assert forall|s: Signal| #[trigger] seen.value(s) == start.values@[s.index()] by {}
            assert forall|u: usize| u < start.sig_count()
                implies (#[trigger] self.last_reads@[e as int].contains(u) <==> final(seen).reads().contains(u)) by {
                assert(linked.last_reads@[e as int].contains(u) <==> reads@.take(reads@.len() as int).contains(u));
            }
        }
    }

    /// Runs queued effects first-in first-out until the queue is empty
    /// (bounded only by `usize::MAX` runs).
    fn flush(&mut self)
        requires
            old(self).wf(),
        ensures
            final(self).wf(),
            final(self).sig_count() == old(self).sig_count(),
            final(self).eff_count() == old(self).eff_count(),
            forall|f: usize| f < old(self).eff_count() ==> #[trigger] final(self).alive(f) == old(self).alive(f),
            final(self).depth == old(self).depth,
            final(self).owners@ == old(self).owners@,
            final(self).pending@.len() == 0 || final(self).log@.len() == old(self).log@.len() + usize::MAX,
            old(self).log@.len() + old(self).pending@.len() <= final(self).log@.len(),
            final(self).log@.subrange(0, old(self).log@.len() as int) == old(self).log@,
            final(self).log@.subrange(old(self).log@.len() as int, (old(self).log@.len() + old(self).pending@.len()) as int) == old(self).pending@,
            old(self).pending@.len() == 0 ==> *final(self) == *old(self),
            old(self).queued_log@.is_prefix_of(final(self).queued_log@),
            final(self).log@ + final(self).pending@
                == old(self).log@ + old(self).pending@ + final(self).queued_log@.skip(old(self).queued_log@.len() as int),
            old(self).written@.is_prefix_of(final(self).written@),
            final(self).written@.len() == old(self).written@.len()
                ==> final(self).queued_log@ == old(self).queued_log@ && final(self).pending@.len() == 0,
            forall|s: usize| s < old(self).sig_count() && !final(self).written@.skip(old(self).written@.len() as int).contains(s)
                ==> #[trigger] final(self).values@[s as int] == old(self).values@[s as int],
            final(self).cleaned@ == old(self).cleaned@,
            (forall|g: F, t: &mut Tracker<'_, V>| call_ensures(g, (t,), ()) ==> final(t).writes() == t.writes()) ==> final(self).written@ == old(self).written@,
            forall|x: usize| (forall|g: F, t: &mut Tracker<'_, V>| call_ensures(g, (t,), ()) ==> !signals_of(final(t).writes()).contains(x)) ==> !#[trigger] final(self).written@.skip(old(self).written@.len() as int).contains(x),
            final(self).last_reads@.len() == old(self).last_reads@.len(),
            forall|f: int| 0 <= f < old(self).last_reads@.len() && !final(self).log@.skip(old(self).log@.len() as int).contains(f as usize)
                ==> #[trigger] final(self).last_reads@[f] == old(self).last_reads@[f],
    {
        let ghost start = *self;
        let ghost n = start.pending@.len();
        let mut fuel: usize = usize::MAX;
        let cap = self.bodies.len();
        proof {
            assert(start.pending@.no_duplicates());
            lemma_pending_len(start.pending@, start.eff_count());
            assert(n <= cap);
            assert(start.log@.subrange(0, start.log@.len() as int) =~= start.log@);
            assert(start.log@.subrange(start.log@.len() as int, start.log@.len() as int) =~= start.pending@.subrange(0, 0));
        }
        while self.pending.len() > 0 && fuel > 0
            invariant
                self.wf(),
                self.sig_count() == start.sig_count(),
                self.eff_count() == start.eff_count(),
                forall|f: usize| f < start.eff_count() ==> #[trigger] self.alive(f) == start.alive(f),
                self.depth == start.depth,
                self.owners@ == start.owners@,
                n == start.pending@.len(),
                n <= usize::MAX,
                self.log@.len() == start.log@.len() + (usize::MAX - fuel),
                self.log@.subrange(0, start.log@.len() as int) == start.log@,
                (usize::MAX - fuel) < n ==> self.pending@.subrange(0, (n - (usize::MAX - fuel)) as int) == start.pending@.subrange((usize::MAX - fuel) as int, n as int),
                (usize::MAX - fuel) < n ==> n - (usize::MAX - fuel) <= self.pending@.len(),
                self.log@.subrange(start.log@.len() as int, start.log@.len() as int + (if (usize::MAX - fuel) < n { (usize::MAX - fuel) as int } else { n as int })) == start.pending@.subrange(0, if (usize::MAX - fuel) < n { (usize::MAX - fuel) as int } else { n as int }),
                fuel == usize::MAX ==> *self == start,
                n == 0 ==> fuel == usize::MAX,
                start.queued_log@.is_prefix_of(self.queued_log@),
                self.log@ + self.pending@ == start.log@ + start.pending@ + self.queued_log@.skip(start.queued_log@.len() as int),
                start.written@.is_prefix_of(self.written@),
                self.written@.len() == start.written@.len()
                    ==> self.queued_log@ == start.queued_log@ && self.pending@.len() + (usize::MAX - fuel) == n,
                forall|s: usize| s < start.sig_count() && !self.written@.skip(start.written@.len() as int).contains(s)
                    ==> #[trigger] self.values@[s as int] == start.values@[s as int],
                self.cleaned@ == start.cleaned@,
                (forall|g: F, t: &mut Tracker<'_, V>| call_ensures(g, (t,), ()) ==> final(t).writes() == t.writes()) ==> self.written@ == start.written@,
                forall|x: usize| (forall|g: F, t: &mut Tracker<'_, V>| call_ensures(g, (t,), ()) ==> !signals_of(final(t).writes()).contains(x)) ==> !#[trigger] self.written@.skip(start.written@.len() as int).contains(x),
                self.last_reads@.len() == start.last_reads@.len(),
                forall|f: int| 0 <= f < start.last_reads@.len() && !self.log@.skip(start.log@.len() as int).contains(f as usize)
                    ==> #[trigger] self.last_reads@[f] == start.last_reads@[f],
            decreases fuel,
        {
            let ghost before = *self;
            let ghost k = usize::MAX - fuel;
            proof {
                if n == 0 {
                    assert(fuel == usize::MAX);
                    assert(self.pending@ == start.pending@);
                    assert(false);
                }
                if k < n {
                    assert(0 <= k);
                    assert(start.pending@.subrange(k as int, n as int).len() == n - k);
                    let m = (n - k) as int;
                    assert(before.pending@.subrange(0, m) == start.pending@.subrange(k as int, n as int));
                    assert(before.pending@.subrange(0, m)[0] == before.pending@[0]);
                    assert(start.pending@.subrange(k as int, n as int)[0] == start.pending@[k as int]);
                    assert forall|j: int| 0 <= j < m implies #[trigger] before.pending@[j] == start.pending@[k + j] by {
                        assert(before.pending@.subrange(0, m)[j] == before.pending@[j]);
                        assert(start.pending@.subrange(k as int, n as int)[j] == start.pending@[k + j]);
                    }
                }
            }
            let e = self.pending.remove(0);
            proof {
                assert(before.pending@[0] == e);
                assert(before.alive(e));
                assert forall|i: int| 0 <= i < self.pending@.len() implies {
                    &&& #[trigger] self.pending@[i] < self.eff_count()
                    &&& self.alive(self.pending@[i])
                } by {
                    assert(self.pending@[i] == before.pending@[i + 1]);
                }
                assert(self.pending@.no_duplicates()) by {
                    assert forall|a: int, b: int| 0 <= a < b < self.pending@.len() implies self.pending@[a] != self.pending@[b] by {
                        assert(self.pending@[a] == before.pending@[a + 1]);
                        assert(self.pending@[b] == before.pending@[b + 1]);
                    }
                }
                Self::lemma_queue_changed(&before, self);
            }
            let ghost removed = *self;
            self.run(e);
            fuel = fuel - 1;
            proof {
                assert(removed.pending@ =~= before.pending@.skip(1));
                assert(before.pending@ =~= seq![e] + removed.pending@);
                lemma_extends(before.queued_log@, self.queued_log@, start.queued_log@.len() as int);
                let q1 = self.queued_log@.skip(before.queued_log@.len() as int);
                assert(self.log@ + self.pending@ =~= before.log@ + before.pending@ + q1) by {
                    assert(self.log@ == before.log@.push(e));
                    assert(self.pending@ == removed.pending@ + q1);
                }
                lemma_extends(before.written@, self.written@, start.written@.len() as int);
                assert(start.written@.is_prefix_of(self.written@));
                assert forall|s: usize| s < start.sig_count() && !self.written@.skip(start.written@.len() as int).contains(s)
                    implies #[trigger] self.values@[s as int] == start.values@[s as int] by {
                    assert(before.values@[s as int] == start.values@[s as int]);
                    assert(removed.values@ == before.values@);
                }
                let lo = start.log@.len() as int;
                assert(self.log@.skip(lo) =~= before.log@.skip(lo).push(e));
                lemma_push_contains(before.log@.skip(lo), e);
                assert forall|f: int| 0 <= f < start.last_reads@.len() && !self.log@.skip(lo).contains(f as usize)
                    implies #[trigger] self.last_reads@[f] == start.last_reads@[f] by {
                    assert(f != e as int);
                    assert(removed.last_reads@ == before.last_reads@);
                    assert(before.last_reads@[f] == start.last_reads@[f]);
                }
                if self.written@.len() == start.written@.len() {
                    assert(before.written@.len() == start.written@.len());
                    assert(self.queued_log@ == before.queued_log@);
                    assert(q1 =~= Seq::<usize>::empty());
                }
            }
            proof {
                assert forall|f: usize| f < start.eff_count() implies #[trigger] self.alive(f) == start.alive(f) by {
                    assert(removed.alive(f) == before.alive(f));
                    assert(before.alive(f) == start.alive(f));
                }
                assert(self.log@ == removed.log@.push(e));
                assert(self.log@.subrange(0, start.log@.len() as int) == before.log@.subrange(0, start.log@.len() as int));
                if k < n {
                    assert(e == start.pending@[k as int]);
                    let m = (n - k) as int;
                    assert(self.pending@.subrange(0, m - 1) == removed.pending@.subrange(0, m - 1));
                    assert forall|j: int| 0 <= j < m - 1 implies #[trigger] removed.pending@[j] == start.pending@[k + 1 + j] by {
                        assert(removed.pending@[j] == before.pending@[j + 1]);
                        assert(before.pending@[j + 1] == start.pending@[k + (j + 1)]);
                    }
                    assert(self.pending@.subrange(0, m - 1) =~= start.pending@.subrange(k + 1, n as int));
                    let lo = start.log@.len() as int;
                    assert(self.log@.subrange(lo, lo + k + 1) =~= before.log@.subrange(lo, lo + k).push(e));
                    assert(start.pending@.subrange(0, k + 1) =~= start.pending@.subrange(0, k as int).push(e));
                }
            }
        }
        proof {
            let k = usize::MAX - fuel;
            if k < n {
                assert(self.pending@.len() == 0 || fuel == 0);
                assert(fuel != 0);
                assert(false);
            }
            assert(start.pending@.subrange(0, n as int) =~= start.pending@);
            if self.written@.len() == start.written@.len() && fuel == 0 {
                assert(self.pending@.len() == 0);
            }
        }
    }

    /// Stores `value` in signal `s` without notifying anyone.
    fn store(&mut self, s: usize, value: V)
        requires
            old(self).wf(),
            s < old(self).sig_count(),
        ensures
            final(self).wf(),
            final(self).values@ == old(self).values@.update(s as int, value),
            final(self).subscribers@ == old(self).subscribers@,
            final(self).deps@ == old(self).deps@,
            final(self).bodies@ == old(self).bodies@,
            final(self).depth == old(self).depth,
            final(self).pending@ == old(self).pending@,
            final(self).owners@ == old(self).owners@,
            final(self).log@ == old(self).log@,
            final(self).same_history(old(self)),
    {
        let ghost before = *self;
        self.values[s] = value;
        proof {
            Self::lemma_queue_changed(&before, self);
        }
    }

    /// Notifies the subscribers of `s`: queued while a batch is open, run
    /// in subscription order (then the queue) otherwise.
    fn notify(&mut self, s: usize)
        requires
            old(self).wf(),
            s < old(self).sig_count(),
        ensures
            final(self).wf(),
            final(self).sig_count() == old(self).sig_count(),
            final(self).eff_count() == old(self).eff_count(),
            forall|f: usize| f < old(self).eff_count() ==> #[trigger] final(self).alive(f) == old(self).alive(f),
            final(self).depth == old(self).depth,
            final(self).owners@ == old(self).owners@,
            final(self).log@.subrange(0, old(self).log@.len() as int) == old(self).log@,
            old(self).depth > 0 ==> {
                &&& final(self).values@ == old(self).values@
                &&& final(self).subscribers@ == old(self).subscribers@
                &&& final(self).deps@ == old(self).deps@
                &&& final(self).bodies@ == old(self).bodies@
                &&& final(self).pending@ == append_new(old(self).pending@, old(self).subs(s))
                &&& final(self).log@ == old(self).log@
            },
            old(self).depth == 0 ==> {
                &&& old(self).log@.len() + old(self).subs(s).len() <= final(self).log@.len()
                &&& final(self).log@.subrange(old(self).log@.len() as int, (old(self).log@.len() + old(self).subs(s).len()) as int) == old(self).subs(s)
                &&& (final(self).pending@.len() == 0 || final(self).log@.len() >= usize::MAX)
            },
            old(self).subs(s).len() == 0 && old(self).pending@.len() == 0 ==> final(self).same(old(self)),
            old(self).queued_log@.is_prefix_of(final(self).queued_log@),
            old(self).written@.is_prefix_of(final(self).written@),
            final(self).cleaned@ == old(self).cleaned@,
            (forall|g: F, t: &mut Tracker<'_, V>| call_ensures(g, (t,), ()) ==> final(t).writes() == t.writes()) ==> final(self).written@ == old(self).written@,
            forall|x: usize| (forall|g: F, t: &mut Tracker<'_, V>| call_ensures(g, (t,), ()) ==> !signals_of(final(t).writes()).contains(x)) ==> !#[trigger] final(self).written@.skip(old(self).written@.len() as int).contains(x),
            forall|u: usize| u < old(self).sig_count() && !final(self).written@.skip(old(self).written@.len() as int).contains(u)
                ==> #[trigger] final(self).values@[u as int] == old(self).values@[u as int],
            old(self).depth > 0 ==> {
                &&& final(self).written@ == old(self).written@
                &&& final(self).pending@ == old(self).pending@ + final(self).queued_log@.skip(old(self).queued_log@.len() as int)
            },
            old(self).depth == 0 ==> final(self).log@ + final(self).pending@
                == old(self).log@ + old(self).subs(s) + old(self).pending@ + final(self).queued_log@.skip(old(self).queued_log@.len() as int),
            old(self).depth == 0 && final(self).written@.len() == old(self).written@.len()
                ==> final(self).queued_log@ == old(self).queued_log@ && final(self).pending@.len() == 0,
    {
        let ghost start = *self;
        let snapshot = copy_without(&self.subscribers[s], usize::MAX);
        let cap = self.bodies.len();
        proof {
            assert(start.subs_ok(s));
            lemma_without(start.subs(s), usize::MAX);
            assert(snapshot@ == start.subs(s)) by {
                assert forall|k: int| 0 <= k < start.subs(s).len() implies start.subs(s)[k] != usize::MAX by {
                    assert(start.subs(s)[k] < start.eff_count());
                    assert(start.eff_count() == cap);
                }
                assert(!start.subs(s).contains(usize::MAX));
            }
        }
        if self.depth > 0 {
            self.enqueue(&snapshot);
            proof {
                assert(self.written@.skip(start.written@.len() as int) =~= Seq::<usize>::empty());
                lemma_append_new(start.pending@, snapshot@);
                assert(self.log@.subrange(0, start.log@.len() as int) =~= start.log@);
            }
            return;
        }
        let mut i: usize = 0;
        while i < snapshot.len()
            invariant
                self.wf(),
                i <= snapshot@.len(),
                snapshot@ == start.subs(s),
                start.subs_ok(s),
                self.sig_count() == start.sig_count(),
                self.eff_count() == start.eff_count(),
                forall|f: usize| f < start.eff_count() ==> #[trigger] self.alive(f) == start.alive(f),
                self.depth == start.depth,
                self.owners@ == start.owners@,
                self.log@ == start.log@ + snapshot@.take(i as int),
                i == 0 ==> *self == start,
                start.queued_log@.is_prefix_of(self.queued_log@),
                self.pending@ == start.pending@ + self.queued_log@.skip(start.queued_log@.len() as int),
                start.written@.is_prefix_of(self.written@),
                self.written@.len() == start.written@.len() ==> self.queued_log@ == start.queued_log@,
                forall|u: usize| u < start.sig_count() && !self.written@.skip(start.written@.len() as int).contains(u)
                    ==> #[trigger] self.values@[u as int] == start.values@[u as int],
                self.cleaned@ == start.cleaned@,
                (forall|g: F, t: &mut Tracker<'_, V>| call_ensures(g, (t,), ()) ==> final(t).writes() == t.writes()) ==> self.written@ == start.written@,
                forall|x: usize| (forall|g: F, t: &mut Tracker<'_, V>| call_ensures(g, (t,), ()) ==> !signals_of(final(t).writes()).contains(x)) ==> !#[trigger] self.written@.skip(start.written@.len() as int).contains(x),
            decreases snapshot@.len() - i,
        {
            let e = snapshot[i];
            let ghost before = *self;
            proof {
                assert(start.subs(s)[i as int] == e);
                assert(start.alive(e));
                assert(self.alive(e));
            }
            self.run(e);
            proof {
                assert(snapshot@.take(i as int + 1) =~= snapshot@.take(i as int).push(e));
                lemma_extends(before.queued_log@, self.queued_log@, start.queued_log@.len() as int);
                assert(self.pending@ =~= start.pending@ + self.queued_log@.skip(start.queued_log@.len() as int));
                lemma_extends(before.written@, self.written@, start.written@.len() as int);
                assert forall|u: usize| u < start.sig_count() && !self.written@.skip(start.written@.len() as int).contains(u)
                    implies #[trigger] self.values@[u as int] == start.values@[u as int] by {
                    assert(before.values@[u as int] == start.values@[u as int]);
                }
                if self.written@.len() == start.written@.len() {
                    assert(before.written@.len() == start.written@.len());
                }
            }
            i = i + 1;
        }
        proof {
            assert(snapshot@.take(snapshot@.len() as int) =~= snapshot@);
        }
        let ghost mid = *self;
        self.flush();
        proof {
            lemma_extends(mid.queued_log@, self.queued_log@, start.queued_log@.len() as int);
            lemma_extends(mid.written@, self.written@, start.written@.len() as int);
            assert(self.log@ + self.pending@ =~= start.log@ + start.subs(s) + start.pending@
                + self.queued_log@.skip(start.queued_log@.len() as int)) by {
                assert(mid.log@ == start.log@ + snapshot@);
                assert(self.log@ + self.pending@ == mid.log@ + mid.pending@ + self.queued_log@.skip(mid.queued_log@.len() as int));
            }
            assert forall|u: usize| u < start.sig_count() && !self.written@.skip(start.written@.len() as int).contains(u)
                implies #[trigger] self.values@[u as int] == start.values@[u as int] by {
                assert(mid.values@[u as int] == start.values@[u as int]);
            }
            if self.written@.len() == start.written@.len() {
                assert(mid.written@.len() == start.written@.len());
                assert(self.queued_log@ == mid.queued_log@);
                assert(self.queued_log@ == start.queued_log@);
            }
            assert(self.log@.subrange(0, mid.log@.len() as int) == mid.log@);
            let lo = start.log@.len() as int;
            assert(self.log@.subrange(0, lo) =~= mid.log@.subrange(0, lo));
            assert(mid.log@.subrange(0, lo) =~= start.log@);
            assert(self.log@.subrange(lo, lo + snapshot@.len() as int) =~= mid.log@.subrange(lo, lo + snapshot@.len() as int));
            assert(mid.log@.subrange(lo, lo + snapshot@.len() as int) =~= snapshot@);
            assert forall|f: usize| f < start.eff_count() implies #[trigger] self.alive(f) == start.alive(f) by {
                assert(mid.alive(f) == start.alive(f));
            }
        }
    }

    fn add_owner(&mut self) -> (id: usize)
        requires
            old(self).wf(),
            old(self).owners@.len() < usize::MAX,
        ensures
            final(self).wf(),
            id == old(self).owners@.len(),
            final(self).owners@.len() == old(self).owners@.len() + 1,
            forall|o: int| 0 <= o < old(self).owners@.len() ==> #[trigger] final(self).owners@[o] == old(self).owners@[o],
            final(self).owners@[id as int].children@.len() == 0,
            final(self).owners@[id as int].effects@.len() == 0,
            final(self).owners@[id as int].cleanups@.len() == 0,
            final(self).owners@[id as int].ran@ == 0,
            final(self).values@ == old(self).values@,
            final(self).subscribers@ == old(self).subscribers@,
            final(self).deps@ == old(self).deps@,
            final(self).bodies@ == old(self).bodies@,
            final(self).depth == old(self).depth,
            final(self).pending@ == old(self).pending@,
            final(self).log@ == old(self).log@,
            final(self).same_history(old(self)),
    {
        let ghost before = *self;
        let id = self.owners.len();
        self.owners.push(OwnerSlot { children: Vec::new(), effects: Vec::new(), cleanups: Vec::new(), ran: Ghost(0) });
        proof {
            assert forall|o: int| 0 <= o < self.owners@.len() implies #[trigger] self.owner_ok(o) by {
                if o < before.owners@.len() {
                    assert(before.owner_ok(o));
                    assert(self.owners@[o] == before.owners@[o]);
                }
            }
            Self::lemma_owners_changed(&before, self);
        }
        id
    }

    /// Same graph, bodies and queue; only the owner table (checked) differs.
    proof fn lemma_owners_changed(old_s: &Self, new_s: &Self)
        requires
            old_s.wf(),
            new_s.values@.len() == old_s.values@.len(),
            new_s.subscribers@ == old_s.subscribers@,
            new_s.deps@ == old_s.deps@,
            new_s.bodies@ == old_s.bodies@,
            new_s.pending@ == old_s.pending@,
            new_s.last_reads@ == old_s.last_reads@,
            new_s.owners_ok(),
        ensures
            new_s.wf(),
    {
        Self::lemma_reads_kept(old_s, new_s);
        assert forall|t: usize| t < new_s.sig_count() implies #[trigger] new_s.subs_ok(t) by {
            assert(old_s.subs_ok(t));
        }
        assert forall|f: usize| f < new_s.eff_count() implies #[trigger] new_s.deps_ok(f) by {
            assert(old_s.deps_ok(f));
        }
        assert forall|e: usize| e < new_s.eff_count() && new_s.alive(e)
            implies effect_callable(#[trigger] new_s.bodies@[e as int]->0) by {
            assert(old_s.alive(e));
        }
    }

    /// Records child `c` under owner `o`.
    fn adopt_child(&mut self, o: usize, c: usize)
        requires
            old(self).wf(),
            o < c < old(self).owners@.len(),
        ensures
            final(self).wf(),
            final(self).owners@.len() == old(self).owners@.len(),
            final(self).owners@[o as int].children@ == old(self).owners@[o as int].children@.push(c),
            final(self).owners@[o as int].ran == old(self).owners@[o as int].ran,
            final(self).owners@[o as int].effects@ == old(self).owners@[o as int].effects@,
            final(self).owners@[o as int].cleanups@ == old(self).owners@[o as int].cleanups@,
            forall|p: int| 0 <= p < old(self).owners@.len() && p != o ==> #[trigger] final(self).owners@[p] == old(self).owners@[p],
            final(self).values@ == old(self).values@,
            final(self).subscribers@ == old(self).subscribers@,
            final(self).deps@ == old(self).deps@,
            final(self).bodies@ == old(self).bodies@,
            final(self).depth == old(self).depth,
            final(self).pending@ == old(self).pending@,
            final(self).log@ == old(self).log@,
            final(self).same_history(old(self)),
    {
        let ghost before = *self;
        self.owners[o].children.push(c);
        proof {
            assert forall|p: int| 0 <= p < self.owners@.len() implies #[trigger] self.owner_ok(p) by {
                assert(before.owner_ok(p));
                if p != o {
                    assert(self.owners@[p] == before.owners@[p]);
                }
            }
            Self::lemma_owners_changed(&before, self);
        }
    }

    /// Records effect `e` as owned by `o`.
    fn adopt_effect(&mut self, o: usize, e: usize)
        requires
            old(self).wf(),
            o < old(self).owners@.len(),
            e < old(self).eff_count(),
        ensures
            final(self).wf(),
            final(self).owners@.len() == old(self).owners@.len(),
            final(self).owners@[o as int].effects@ == old(self).owners@[o as int].effects@.push(e),
            final(self).owners@[o as int].ran == old(self).owners@[o as int].ran,
            final(self).owners@[o as int].children@ == old(self).owners@[o as int].children@,
            final(self).owners@[o as int].cleanups@ == old(self).owners@[o as int].cleanups@,
            forall|p: int| 0 <= p < old(self).owners@.len() && p != o ==> #[trigger] final(self).owners@[p] == old(self).owners@[p],
            final(self).values@ == old(self).values@,
            final(self).subscribers@ == old(self).subscribers@,
            final(self).deps@ == old(self).deps@,
            final(self).bodies@ == old(self).bodies@,
            final(self).depth == old(self).depth,
            final(self).pending@ == old(self).pending@,
            final(self).log@ == old(self).log@,
            final(self).same_history(old(self)),
            final(self).last_reads@ == old(self).last_reads@,
    {
        let ghost before = *self;
        self.owners[o].effects.push(e);
        proof {
            assert forall|p: int| 0 <= p < self.owners@.len() implies #[trigger] self.owner_ok(p) by {
                assert(before.owner_ok(p));
                if p != o {
                    assert(self.owners@[p] == before.owners@[p]);
                }
            }
            Self::lemma_owners_changed(&before, self);
        }
    }

    /// Registers cleanup `c` with owner `o`.
    fn adopt_cleanup(&mut self, o: usize, c: C)
        requires
            old(self).wf(),
            o < old(self).owners@.len(),
            cleanup_callable(c),
        ensures
            final(self).wf(),
            final(self).owners@.len() == old(self).owners@.len(),
            final(self).owners@[o as int].cleanups@ == old(self).owners@[o as int].cleanups@.push(c),
            final(self).owners@[o as int].ran == old(self).owners@[o as int].ran,
            final(self).owners@[o as int].children@ == old(self).owners@[o as int].children@,
            final(self).owners@[o as int].effects@ == old(self).owners@[o as int].effects@,
            forall|p: int| 0 <= p < old(self).owners@.len() && p != o ==> #[trigger] final(self).owners@[p] == old(self).owners@[p],
            final(self).values@ == old(self).values@,
            final(self).subscribers@ == old(self).subscribers@,
            final(self).deps@ == old(self).deps@,
            final(self).bodies@ == old(self).bodies@,
            final(self).depth == old(self).depth,
            final(self).pending@ == old(self).pending@,
            final(self).log@ == old(self).log@,
            final(self).same_history(old(self)),
    {
        let ghost before = *self;
        self.owners[o].cleanups.push(c);
        proof {
            assert forall|p: int| 0 <= p < self.owners@.len() implies #[trigger] self.owner_ok(p) by {
                assert(before.owner_ok(p));
                if p != o {
                    assert(self.owners@[p] == before.owners@[p]);
                }
            }
            Self::lemma_owners_changed(&before, self);
        }
    }

    /// Disposes owner `o`: first each of its children, in the order they
    /// were created, each with everything under it; then stops `o`'s
    /// effects; then runs its cleanups in the order registered. Returns the
    /// set of owners disposed.
    fn dispose(&mut self, o: usize) -> (disposed: Ghost<Set<usize>>)
        requires
            old(self).wf(),
            o < old(self).owners@.len(),
        ensures
            final(self).wf(),
            disposed@.contains(o),
            forall|q: usize| #[trigger] disposed@.contains(q) ==> o <= q,
            forall|q: usize, i: int| #![trigger disposed@.contains(q), old(self).owners@[q as int].children@[i]]
                disposed@.contains(q) && 0 <= i < old(self).owners@[q as int].children@.len()
                ==> disposed@.contains(old(self).owners@[q as int].children@[i]),
            forall|q: usize, i: int| #![trigger disposed@.contains(q), old(self).owners@[q as int].effects@[i]]
                disposed@.contains(q) && 0 <= i < old(self).owners@[q as int].effects@.len()
                ==> !final(self).alive(old(self).owners@[q as int].effects@[i]),
            forall|q: usize| #[trigger] disposed@.contains(q) ==> {
                &&& q < final(self).owners@.len()
                &&& final(self).owners@[q as int].children@.len() == 0
                &&& final(self).owners@[q as int].effects@.len() == 0
                &&& final(self).owners@[q as int].cleanups@.len() == 0
                &&& final(self).owners@[q as int].ran@ == old(self).owners@[q as int].ran@ + old(self).owners@[q as int].cleanups@.len()
            },
            forall|q: int| 0 <= q < old(self).owners@.len() && !disposed@.contains(q as usize)
                ==> #[trigger] final(self).owners@[q] == old(self).owners@[q],
            forall|q: usize| #[trigger] disposed@.contains(q) && q != o ==> exists|r: usize, j: int|
                disposed@.contains(r) && 0 <= j < old(self).owners@[r as int].children@.len()
                && old(self).owners@[r as int].children@[j] == q,
            final(self).owners@.len() == old(self).owners@.len(),
            final(self).sig_count() == old(self).sig_count(),
            final(self).eff_count() == old(self).eff_count(),
            forall|f: usize| f < old(self).eff_count() && #[trigger] final(self).alive(f) ==> old(self).alive(f),
            forall|f: usize| f < old(self).eff_count() && old(self).alive(f) && !owns_effect(old(self).owners@, disposed@, f)
                ==> #[trigger] final(self).alive(f),
            final(self).values@ == old(self).values@,
            final(self).depth == old(self).depth,
            final(self).log@ == old(self).log@,
            final(self).written@ == old(self).written@,
            final(self).queued_log@ == old(self).queued_log@,
            old(self).cleaned@.is_prefix_of(final(self).cleaned@),
            old(self).cleaned@.len() + old(self).owners@[o as int].cleanups@.len() <= final(self).cleaned@.len(),
            forall|i: int| final(self).cleaned@.len() - old(self).owners@[o as int].cleanups@.len() <= i < final(self).cleaned@.len()
                ==> #[trigger] final(self).cleaned@[i] == o,
            forall|i: int| old(self).cleaned@.len() <= i < final(self).cleaned@.len() - old(self).owners@[o as int].cleanups@.len()
                ==> #[trigger] disposed@.contains(final(self).cleaned@[i]) && final(self).cleaned@[i] != o,
        decreases old(self).owners@.len() - o,
    {
        let ghost start = *self;
        let ghost n = start.owners@.len();
        let mut children: Vec<usize> = Vec::new();
        std::mem::swap(&mut children, &mut self.owners[o].children);
        proof {
            assert(start.owner_ok(o as int));
            assert forall|q: int| 0 <= q < self.owners@.len() implies #[trigger] self.owner_ok(q) by {
                assert(start.owner_ok(q));
                if q != o as int {
                    assert(self.owners@[q] == start.owners@[q]);
                }
            }
            Self::lemma_owners_changed(&start, self);
        }
        let ghost mut set: Set<usize> = Set::empty().insert(o);
        let mut i: usize = 0;
        while i < children.len()
            invariant
                self.wf(),
                start.wf(),
                o < n,
                n == start.owners@.len(),
                n == old(self).owners@.len(),
                self.owners@.len() == n,
                children@ == start.owners@[o as int].children@,
                forall|k: int| 0 <= k < children@.len() ==> o < #[trigger] children@[k] < n,
                i <= children@.len(),
                self.sig_count() == start.sig_count(),
                self.eff_count() == start.eff_count(),
                forall|f: usize| f < start.eff_count() && #[trigger] self.alive(f) ==> start.alive(f),
                forall|f: usize| f < start.eff_count() && start.alive(f) && !owns_effect(start.owners@, set, f)
                    ==> #[trigger] self.alive(f),
                self.values@ == start.values@,
                self.depth == start.depth,
                self.log@ == start.log@,
                self.owners@[o as int].children@.len() == 0,
                self.owners@[o as int].effects@ == start.owners@[o as int].effects@,
                self.owners@[o as int].cleanups@ == start.owners@[o as int].cleanups@,
                self.owners@[o as int].ran == start.owners@[o as int].ran,
                self.written@ == start.written@,
                self.queued_log@ == start.queued_log@,
                start.cleaned@.is_prefix_of(self.cleaned@),
                forall|j: int| start.cleaned@.len() <= j < self.cleaned@.len()
                    ==> #[trigger] set.contains(self.cleaned@[j]) && self.cleaned@[j] != o,
                set.contains(o),
                forall|q: usize| #[trigger] set.contains(q) ==> o <= q < n,
                forall|k: int| 0 <= k < i ==> set.contains(#[trigger] children@[k]),
                forall|q: usize, j: int| #![trigger set.contains(q), start.owners@[q as int].children@[j]]
                    set.contains(q) && q != o && 0 <= j < start.owners@[q as int].children@.len()
                    ==> set.contains(start.owners@[q as int].children@[j]),
                forall|q: usize, j: int| #![trigger set.contains(q), start.owners@[q as int].effects@[j]]
                    set.contains(q) && q != o && 0 <= j < start.owners@[q as int].effects@.len()
                    ==> !self.alive(start.owners@[q as int].effects@[j]),
                forall|q: usize| #[trigger] set.contains(q) && q != o ==> {
                    &&& self.owners@[q as int].children@.len() == 0
                    &&& self.owners@[q as int].effects@.len() == 0
                    &&& self.owners@[q as int].cleanups@.len() == 0
                    &&& self.owners@[q as int].ran@ == start.owners@[q as int].ran@ + start.owners@[q as int].cleanups@.len()
                },
                forall|q: int| 0 <= q < n && q != o && !set.contains(q as usize)
                    ==> #[trigger] self.owners@[q] == start.owners@[q],
                forall|q: usize| #[trigger] set.contains(q) && q != o ==> exists|r: usize, j: int|
                    set.contains(r) && 0 <= j < start.owners@[r as int].children@.len()
                    && start.owners@[r as int].children@[j] == q,
            decreases children@.len() - i,
        {
            let c = children[i];
            let ghost before = *self;
            let ghost prev = set;
            proof {
                assert(o < c < n);
            }
            let sub = self.dispose(c);
            proof {
                set = prev.union(sub@);
                assert forall|j: int| start.cleaned@.len() <= j < self.cleaned@.len()
                    implies #[trigger] set.contains(self.cleaned@[j]) && self.cleaned@[j] != o by {
                    if j < before.cleaned@.len() {
                        assert(before.cleaned@.subrange(0, before.cleaned@.len() as int) == self.cleaned@.subrange(0, before.cleaned@.len() as int));
                        assert(self.cleaned@.subrange(0, before.cleaned@.len() as int)[j] == self.cleaned@[j]);
                        assert(prev.contains(before.cleaned@[j]));
                    } else {
                        assert(sub@.contains(self.cleaned@[j]));
                        assert(c <= self.cleaned@[j]);
                    }
                }
                assert(start.cleaned@.is_prefix_of(self.cleaned@)) by {
                    assert(self.cleaned@.subrange(0, start.cleaned@.len() as int) =~= before.cleaned@.subrange(0, start.cleaned@.len() as int)) by {
                        assert forall|j: int| 0 <= j < start.cleaned@.len() implies
                            self.cleaned@.subrange(0, start.cleaned@.len() as int)[j] == before.cleaned@.subrange(0, start.cleaned@.len() as int)[j] by {
                            assert(self.cleaned@.subrange(0, before.cleaned@.len() as int)[j] == self.cleaned@[j]);
                        }
                    }
                }
                assert forall|q: usize| #[trigger] set.contains(q) implies o <= q < n by {
                    if sub@.contains(q) {
                        assert(c <= q);
                        assert(q < self.owners@.len());
                    }
                }
                assert forall|k: int| 0 <= k < i + 1 implies set.contains(#[trigger] children@[k]) by {
                    if k < i {
                        assert(prev.contains(children@[k]));
                    } else {
                        assert(sub@.contains(c));
                    }
                }
                assert forall|q: usize, j: int| #![trigger set.contains(q), start.owners@[q as int].children@[j]]
                    set.contains(q) && q != o && 0 <= j < start.owners@[q as int].children@.len()
                    implies set.contains(start.owners@[q as int].children@[j]) by {
                    if prev.contains(q) {
                        assert(prev.contains(start.owners@[q as int].children@[j]));
                    } else {
                        assert(sub@.contains(q));
                        assert(c <= q);
                        assert(before.owners@[q as int] == start.owners@[q as int]);
                        assert(sub@.contains(before.owners@[q as int].children@[j]));
                    }
                }
                assert forall|q: usize, j: int| #![trigger set.contains(q), start.owners@[q as int].effects@[j]]
                    set.contains(q) && q != o && 0 <= j < start.owners@[q as int].effects@.len()
                    implies !self.alive(start.owners@[q as int].effects@[j]) by {
                    let x = start.owners@[q as int].effects@[j];
                    assert(start.owner_ok(q as int));
                    assert(x < start.eff_count());
                    if prev.contains(q) {
                        assert(!before.alive(x));
                    } else {
                        assert(sub@.contains(q));
                        assert(before.owners@[q as int] == start.owners@[q as int]);
                        assert(before.owners@[q as int].effects@[j] == x);
                    }
                }
                assert forall|q: usize| #[trigger] set.contains(q) && q != o implies {
                    &&& self.owners@[q as int].children@.len() == 0
                    &&& self.owners@[q as int].effects@.len() == 0
                    &&& self.owners@[q as int].cleanups@.len() == 0
                    &&& self.owners@[q as int].ran@ == start.owners@[q as int].ran@ + start.owners@[q as int].cleanups@.len()
                } by {
                    if sub@.contains(q) {
                        if prev.contains(q) {
                            assert(before.owners@[q as int].cleanups@.len() == 0);
                        } else {
                            assert(before.owners@[q as int] == start.owners@[q as int]);
                        }
                    } else {
                        assert(q < before.owners@.len());
                        assert(self.owners@[q as int] == before.owners@[q as int]);
                    }
                }
                assert forall|q: int| 0 <= q < n && q != o && !set.contains(q as usize)
                    implies #[trigger] self.owners@[q] == start.owners@[q] by {
                    assert(!sub@.contains(q as usize));
                    assert(self.owners@[q] == before.owners@[q]);
                }
                assert forall|q: usize| #[trigger] set.contains(q) && q != o implies exists|r: usize, j: int|
                    set.contains(r) && 0 <= j < start.owners@[r as int].children@.len()
                    && start.owners@[r as int].children@[j] == q by {
                    if prev.contains(q) {
                        let (r, j) = choose|r: usize, j: int|
                            prev.contains(r) && 0 <= j < start.owners@[r as int].children@.len()
                            && start.owners@[r as int].children@[j] == q;
                        assert(set.contains(r));
                    } else if q == c {
                        assert(start.owners@[o as int].children@[i as int] == q);
                        assert(set.contains(o));
                    } else {
                        assert(sub@.contains(q));
                        let (r, j) = choose|r: usize, j: int|
                            sub@.contains(r) && 0 <= j < before.owners@[r as int].children@.len()
                            && before.owners@[r as int].children@[j] == q;
                        assert(c <= r);
                        if prev.contains(r) {
                            assert(before.owners@[r as int].children@.len() == 0);
                        } else {
                            assert(before.owners@[r as int] == start.owners@[r as int]);
                        }
                        assert(set.contains(r));
                    }
                }
                assert forall|f: usize| f < start.eff_count() && #[trigger] self.alive(f) implies start.alive(f) by {
                    assert(before.alive(f));
                }
                assert forall|f: usize| f < start.eff_count() && start.alive(f) && !owns_effect(start.owners@, set, f)
                    implies #[trigger] self.alive(f) by {
                    assert(!owns_effect(start.owners@, prev, f)) by {
                        if owns_effect(start.owners@, prev, f) {
                            let (q, k) = choose|q: usize, k: int| prev.contains(q) && 0 <= k < start.owners@[q as int].effects@.len()
                                && #[trigger] start.owners@[q as int].effects@[k] == f;
                            assert(set.contains(q));
                        }
                    }
                    assert(before.alive(f));
                    assert(!owns_effect(before.owners@, sub@, f)) by {
                        if owns_effect(before.owners@, sub@, f) {
                            let (q, k) = choose|q: usize, k: int| sub@.contains(q) && 0 <= k < before.owners@[q as int].effects@.len()
                                && #[trigger] before.owners@[q as int].effects@[k] == f;
                            if prev.contains(q) && q != o {
                                assert(before.owners@[q as int].effects@.len() == 0);
                            } else if q == o {
                                assert(c <= o);
                            } else {
                                assert(before.owners@[q as int] == start.owners@[q as int]);
                                assert(set.contains(q));
                                assert(owns_effect(start.owners@, set, f));
                            }
                        }
                    }
                }
                assert(self.owners@[o as int] == before.owners@[o as int]) by {
                    assert(!sub@.contains(o)) by {
                        if sub@.contains(o) {
                            assert(c <= o);
                        }
                    }
                }
            }
            i = i + 1;
        }
        let ghost mid = *self;
        let mut effects: Vec<usize> = Vec::new();
        let mut cleanups: Vec<C> = Vec::new();
        std::mem::swap(&mut effects, &mut self.owners[o].effects);
        std::mem::swap(&mut cleanups, &mut self.owners[o].cleanups);
        proof {
            assert(mid.owner_ok(o as int));
            assert(effects@ == start.owners@[o as int].effects@);
            assert forall|q: int| 0 <= q < self.owners@.len() implies #[trigger] self.owner_ok(q) by {
                assert(mid.owner_ok(q));
                if q != o as int {
                    assert(self.owners@[q] == mid.owners@[q]);
                }
            }
            Self::lemma_owners_changed(&mid, self);
        }
        let ghost emptied = *self;
        let mut k: usize = 0;
        while k < effects.len()
            invariant
                self.wf(),
                k <= effects@.len(),
                effects@ == start.owners@[o as int].effects@,
                forall|m: int| 0 <= m < effects@.len() ==> #[trigger] effects@[m] < start.eff_count(),
                self.owners@ == emptied.owners@,
                self.sig_count() == start.sig_count(),
                self.eff_count() == start.eff_count(),
                forall|f: usize| f < start.eff_count() && #[trigger] self.alive(f) ==> emptied.alive(f),
                forall|f: usize| f < start.eff_count() && emptied.alive(f) && !effects@.contains(f) ==> #[trigger] self.alive(f),
                forall|m: int| 0 <= m < k ==> !self.alive(#[trigger] effects@[m]),
                self.same_history(&mid),
                self.values@ == start.values@,
                self.depth == start.depth,
                self.log@ == start.log@,
            decreases effects@.len() - k,
        {
            let e = effects[k];
            let ghost prev = *self;
            self.kill(e);
            proof {
                assert forall|f: usize| f < start.eff_count() && #[trigger] self.alive(f) implies emptied.alive(f) by {
                    assert(prev.alive(f));
                }
                assert forall|f: usize| f < start.eff_count() && emptied.alive(f) && !effects@.contains(f) implies #[trigger] self.alive(f) by {
                    assert(effects@[k as int] == e);
                    assert(f != e);
                    assert(prev.alive(f));
                }
                assert forall|m: int| 0 <= m < k + 1 implies !self.alive(#[trigger] effects@[m]) by {
                    if m < k {
                        assert(!prev.alive(effects@[m]));
                    }
                }
            }
            k = k + 1;
        }
        let ghost total = cleanups@.len();
        let ghost mut called: nat = 0;
        while cleanups.len() > 0
            invariant
                forall|m: int| 0 <= m < cleanups@.len() ==> cleanup_callable(#[trigger] cleanups@[m]),
                called + cleanups@.len() == total,
            decreases cleanups@.len(),
        {
            let cleanup = cleanups.remove(0);
            proof { assert(cleanup_callable(cleanup)); }
            cleanup();
            proof { called = called + 1; }
        }
        let ghost unrun = *self;
        let ran = Ghost((self.owners@[o as int].ran@ + called) as nat);
        self.owners[o].ran = ran;
        self.cleaned = Ghost(self.cleaned@ + Seq::new(called, |j: int| o));
        proof {
            assert forall|q: int| 0 <= q < self.owners@.len() implies #[trigger] self.owner_ok(q) by {
                assert(unrun.owner_ok(q));
                if q != o as int {
                    assert(self.owners@[q] == unrun.owners@[q]);
                }
            }
            Self::lemma_owners_changed(&unrun, self);
            assert forall|f: usize| f < start.eff_count() && #[trigger] self.alive(f) implies start.alive(f) by {
                assert(unrun.alive(f));
                assert(emptied.alive(f));
                assert(mid.alive(f));
            }
            assert forall|f: usize| f < start.eff_count() && start.alive(f) && !owns_effect(start.owners@, set, f)
                implies #[trigger] self.alive(f) by {
                assert(mid.alive(f));
                assert(emptied.alive(f));
                assert(!effects@.contains(f)) by {
                    if effects@.contains(f) {
                        let k = choose|k: int| 0 <= k < effects@.len() && effects@[k] == f;
                        assert(start.owners@[o as int].effects@[k] == f);
                        assert(owns_effect(start.owners@, set, f));
                    }
                }
                assert(unrun.alive(f));
            }
            assert forall|q: usize, j: int| #![trigger set.contains(q), start.owners@[q as int].children@[j]]
                set.contains(q) && 0 <= j < start.owners@[q as int].children@.len()
                implies set.contains(start.owners@[q as int].children@[j]) by {
                if q == o {
                    assert(children@[j] == start.owners@[o as int].children@[j]);
                }
            }
            assert forall|q: usize, j: int| #![trigger set.contains(q), start.owners@[q as int].effects@[j]]
                set.contains(q) && 0 <= j < start.owners@[q as int].effects@.len()
                implies !self.alive(start.owners@[q as int].effects@[j]) by {
                let x = start.owners@[q as int].effects@[j];
                assert(start.owner_ok(q as int));
                assert(x < start.eff_count());
                if q == o {
                    assert(effects@[j] == x);
                    assert(!unrun.alive(x));
                } else {
                    assert(!mid.alive(x));
                    if self.alive(x) {
                        assert(unrun.alive(x));
                        assert(emptied.alive(x));
                    }
                }
            }
            assert forall|q: usize| #[trigger] set.contains(q) implies {
                &&& q < self.owners@.len()
                &&& self.owners@[q as int].children@.len() == 0
                &&& self.owners@[q as int].effects@.len() == 0
                &&& self.owners@[q as int].cleanups@.len() == 0
                &&& self.owners@[q as int].ran@ == start.owners@[q as int].ran@ + start.owners@[q as int].cleanups@.len()
            } by {
                if q != o {
                    assert(self.owners@[q as int] == mid.owners@[q as int]);
                }
            }
            assert forall|q: int| 0 <= q < start.owners@.len() && !set.contains(q as usize)
                implies #[trigger] self.owners@[q] == start.owners@[q] by {
                assert(q != o as int);
                assert(self.owners@[q] == mid.owners@[q]);
            }
        }
        Ghost(set)
    }

    fn open_batch(&mut self)
        requires
            old(self).wf(),
        ensures
            final(self).wf(),
            final(self).depth == (if old(self).depth < usize::MAX { old(self).depth + 1 } else { old(self).depth as int }),
            final(self).values@ == old(self).values@,
            final(self).subscribers@ == old(self).subscribers@,
            final(self).deps@ == old(self).deps@,
            final(self).bodies@ == old(self).bodies@,
            final(self).pending@ == old(self).pending@,
            final(self).owners@ == old(self).owners@,
            final(self).log@ == old(self).log@,
            final(self).same_history(old(self)),
    {
        let ghost before = *self;
        if self.depth < usize::MAX {
            self.depth = self.depth + 1;
        }
        proof { Self::lemma_queue_changed(&before, self); }
    }

    fn close_batch(&mut self)
        requires
            old(self).wf(),
        ensures
            final(self).wf(),
            final(self).depth == (if old(self).depth > 0 { old(self).depth - 1 } else { 0 }),
            final(self).sig_count() == old(self).sig_count(),
            final(self).eff_count() == old(self).eff_count(),
            forall|f: usize| f < old(self).eff_count() ==> #[trigger] final(self).alive(f) == old(self).alive(f),
            final(self).owners@ == old(self).owners@,
            final(self).log@.subrange(0, old(self).log@.len() as int) == old(self).log@,
            final(self).depth == 0 ==> {
                &&& old(self).log@.len() + old(self).pending@.len() <= final(self).log@.len()
                &&& final(self).log@.subrange(old(self).log@.len() as int, (old(self).log@.len() + old(self).pending@.len()) as int) == old(self).pending@
                &&& (final(self).pending@.len() == 0 || final(self).log@.len() >= usize::MAX)
            },
            final(self).depth > 0 ==> {
                &&& final(self).values@ == old(self).values@
                &&& final(self).subscribers@ == old(self).subscribers@
                &&& final(self).deps@ == old(self).deps@
                &&& final(self).bodies@ == old(self).bodies@
                &&& final(self).pending@ == old(self).pending@
                &&& final(self).log@ == old(self).log@
                &&& final(self).same_history(old(self))
            },
            old(self).queued_log@.is_prefix_of(final(self).queued_log@),
            old(self).written@.is_prefix_of(final(self).written@),
            final(self).cleaned@ == old(self).cleaned@,
            (forall|g: F, t: &mut Tracker<'_, V>| call_ensures(g, (t,), ()) ==> final(t).writes() == t.writes()) ==> final(self).written@ == old(self).written@,
            forall|u: usize| u < old(self).sig_count() && !final(self).written@.skip(old(self).written@.len() as int).contains(u)
                ==> #[trigger] final(self).values@[u as int] == old(self).values@[u as int],
            final(self).depth == 0 ==> final(self).log@ + final(self).pending@
                == old(self).log@ + old(self).pending@ + final(self).queued_log@.skip(old(self).queued_log@.len() as int),
            final(self).depth == 0 && final(self).written@.len() == old(self).written@.len()
                ==> final(self).queued_log@ == old(self).queued_log@ && final(self).pending@.len() == 0,
    {
        let ghost before = *self;
        if self.depth > 0 {
            self.depth = self.depth - 1;
        }
        proof {
            Self::lemma_queue_changed(&before, self);
            assert(self.log@.subrange(0, before.log@.len() as int) =~= before.log@);
        }
        if self.depth == 0 {
            self.flush();
        } else {
            proof {
                assert(self.written@.skip(before.written@.len() as int) =~= Seq::<usize>::empty());
            }
        }
    }
}

/// All reactive state of one UI thread: signal values, which effects
/// read which signals, effect bodies, the batch depth and queue, and the
/// owner scopes.
///
/// `V` is the type of the signal values, `F` the type of effect bodies
/// and `C` the type of owner cleanups (`Box<dyn ...>` when they differ).
pub struct Runtime<V: Clone, F: FnMut(&mut Tracker<'_, V>), C: FnOnce()> {
    st: State<V, F, C>,
}

impl<V: Clone, F: FnMut(&mut Tracker<'_, V>), C: FnOnce()> Runtime<V, F, C> {
    #[verifier::type_invariant]
    spec fn inv(self) -> bool {
        self.st.wf()
    }

    /// Number of signals created so far.
    pub closed spec fn signal_count(&self) -> nat {
        self.st.sig_count()
    }

    /// Number of effects created so far (disposed ones included).
    pub closed spec fn effect_count(&self) -> nat {
        self.st.eff_count()
    }

    /// Number of owners created so far.
    pub closed spec fn owner_count(&self) -> nat {
        self.st.owners@.len()
    }

    pub closed spec fn value(&self, signal: Signal) -> V {
        self.st.values@[signal.index()]
    }

    /// Effects subscribed to `signal`, in the order they subscribed.
    pub closed spec fn subscribers(&self, signal: Signal) -> Seq<usize> {
        self.st.subs(signal.index() as usize)
    }

    /// Signals effect `effect` is subscribed to.
    pub closed spec fn dependencies(&self, effect: Effect) -> Seq<usize> {
        self.st.deps_of(effect.index() as usize)
    }

    /// Whether `effect` has not been disposed.
    pub closed spec fn is_alive(&self, effect: Effect) -> bool {
        self.st.alive(effect.index() as usize)
    }

    /// Signals of this runtime that `effect` read through [`Tracker::get`]
    /// during its latest run, in the order read.
    pub closed spec fn last_reads(&self, effect: Effect) -> Seq<usize> {
        self.st.last_reads@[effect.index()]
    }

    /// Every signal written from an effect body so far, in the order the
    /// writes were stored.
    pub closed spec fn effect_writes(&self) -> Seq<usize> {
        self.st.written@
    }

    /// Every effect put on the queue so far, in the order queued: an
    /// effect is queued when a signal it subscribes to is written inside a
    /// batch or from an effect body, unless it is queued already.
    pub closed spec fn enqueued(&self) -> Seq<usize> {
        self.st.queued_log@
    }

    /// The owner of every cleanup run so far, one entry per cleanup, in
    /// the order they ran.
    pub closed spec fn cleanup_log(&self) -> Seq<Owner> {
        self.st.cleaned@.map_values(|o: usize| Owner { id: o })
    }

    pub closed spec fn batch_depth(&self) -> nat {
        self.st.depth as nat
    }

    /// Effects waiting for the outermost batch to close, in order.
    pub closed spec fn queued(&self) -> Seq<usize> {
        self.st.pending@
    }

    /// Every effect run so far, in order.
    pub closed spec fn runs(&self) -> Seq<usize> {
        self.st.log@
    }

    /// Child scopes of `owner`, in the order they were created.
    pub closed spec fn owner_children(&self, owner: Owner) -> Seq<Owner> {
        self.st.owners@[owner.index()].children@.map_values(|c: usize| Owner { id: c })
    }

    /// Effects owned by `owner`, in the order they were created.
    pub closed spec fn owner_effects(&self, owner: Owner) -> Seq<Effect> {
        self.st.owners@[owner.index()].effects@.map_values(|e: usize| Effect { id: e })
    }

    pub closed spec fn owner_cleanup_count(&self, owner: Owner) -> nat {
        self.st.owners@[owner.index()].cleanups@.len()
    }

    /// How many cleanups registered with `owner` have run.
    pub closed spec fn cleanups_run(&self, owner: Owner) -> nat {
        self.st.owners@[owner.index()].ran@
    }

    pub open spec fn has_signal(&self, signal: Signal) -> bool {
        signal.index() < self.signal_count()
    }

    pub open spec fn has_effect(&self, effect: Effect) -> bool {
        effect.index() < self.effect_count()
    }

    pub open spec fn has_owner(&self, owner: Owner) -> bool {
        owner.index() < self.owner_count()
    }

    proof fn lemma_tracks_reads(&self)
        requires
            self.st.wf(),
        ensures
            tracks_reads(self),
    {
        assert forall|e: Effect, s: Signal| self.has_effect(e) && self.is_alive(e) && self.has_signal(s) implies
            (#[trigger] self.subscribers(s).contains(e.index() as usize)
                <==> #[trigger] self.last_reads(e).contains(s.index() as usize)) by {
            let f = e.index() as usize;
            let t = s.index() as usize;
            assert(self.st.subs_ok(t));
            assert(self.st.deps_ok(f));
            assert(self.st.reads_match(f));
            if self.st.subs(t).contains(f) {
                let i = choose|i: int| 0 <= i < self.st.subs(t).len() && self.st.subs(t)[i] == f;
                assert(self.st.deps_of(f).contains(t));
            }
            if self.st.deps_of(f).contains(t) {
                let j = choose|j: int| 0 <= j < self.st.deps_of(f).len() && self.st.deps_of(f)[j] == t;
                assert(self.st.subs(t).contains(f));
            }
        }
        assert forall|s: Signal| self.has_signal(s) implies (#[trigger] self.subscribers(s)).no_duplicates() by {
            assert(self.st.subs_ok(s.index() as usize));
        }
        assert forall|e: Effect, s: Signal| self.has_effect(e) && !self.is_alive(e) && self.has_signal(s)
            implies !(#[trigger] self.subscribers(s)).contains(#[trigger] e.index() as usize) by {
            let t = s.index() as usize;
            assert(self.st.subs_ok(t));
            if self.st.subs(t).contains(e.index() as usize) {
                let i = choose|i: int| 0 <= i < self.st.subs(t).len() && self.st.subs(t)[i] == e.index() as usize;
                assert(self.st.alive(self.st.subs(t)[i]));
            }
        }
        assert forall|e: Effect| self.has_effect(e) && !self.is_alive(e) implies !self.queued().contains(#[trigger] e.index() as usize) by {
            if self.st.pending@.contains(e.index() as usize) {
                let i = choose|i: int| 0 <= i < self.st.pending@.len() && self.st.pending@[i] == e.index() as usize;
                assert(self.st.alive(self.st.pending@[i]));
            }
        }
    }

    /// Moves the state out, leaving an empty one in its place.
    fn take_state(&mut self) -> (st: State<V, F, C>)
        ensures
            st == old(self).st,
            st.wf(),
    {
        proof { use_type_invariant(&*self); }
        let mut st = State::new();
        std::mem::swap(&mut st, &mut self.st);
        st
    }

    /// An empty runtime.
    pub fn new() -> (r: Self)
        ensures
            r.signal_count() == 0,
            r.effect_count() == 0,
            r.owner_count() == 0,
            r.batch_depth() == 0,
            r.queued() == Seq::<usize>::empty(),
            r.runs() == Seq::<usize>::empty(),
            r.effect_writes() == Seq::<usize>::empty(),
            r.enqueued() == Seq::<usize>::empty(),
            r.cleanup_log() == Seq::<Owner>::empty(),
            tracks_reads(&r),
    {
        let r = Runtime { st: State::new() };
        proof {
            r.lemma_tracks_reads();
            assert(r.cleanup_log() =~= Seq::<Owner>::empty());
        }
        r
    }
}


/// Every live effect of `rt` is subscribed to exactly the signals its
/// latest run read through [`Tracker::get`]; every subscriber list and the
/// queue name live effects only, each once.
pub open spec fn tracks_reads<V: Clone, F: FnMut(&mut Tracker<'_, V>), C: FnOnce()>(rt: &Runtime<V, F, C>) -> bool {
    &&& forall|e: Effect, s: Signal| rt.has_effect(e) && rt.is_alive(e) && rt.has_signal(s) ==>
        (#[trigger] rt.subscribers(s).contains(e.index() as usize)
            <==> #[trigger] rt.last_reads(e).contains(s.index() as usize))
    &&& forall|s: Signal| rt.has_signal(s) ==> (#[trigger] rt.subscribers(s)).no_duplicates()
    &&& rt.queued().no_duplicates()
    &&& forall|e: Effect, s: Signal| rt.has_effect(e) && !rt.is_alive(e) && rt.has_signal(s)
        ==> !(#[trigger] rt.subscribers(s)).contains(#[trigger] e.index() as usize)
    &&& forall|e: Effect| rt.has_effect(e) && !rt.is_alive(e) ==> !rt.queued().contains(#[trigger] e.index() as usize)
}

/// A queue without duplicates over `0..bound` is no longer than `bound`.
proof fn lemma_pending_len(q: Seq<usize>, bound: nat)
    requires
        q.no_duplicates(),
        forall|i: int| 0 <= i < q.len() ==> #[trigger] q[i] < bound,
    ensures
        q.len() <= bound,
{
    let s = q.to_set();
    q.unique_seq_to_set();
    let full = Set::new(|x: usize| x < bound);
    assert(s.subset_of(full));
    assert(full.finite() && full.len() <= bound) by {
        lemma_usize_range_len(bound);
    }
    vstd::set_lib::lemma_len_subset(s, full);
}

proof fn lemma_usize_range_len(bound: nat)
    ensures
        Set::new(|x: usize| x < bound).finite(),
        Set::new(|x: usize| x < bound).len() <= bound,
    decreases bound,
{
    let full = Set::new(|x: usize| x < bound);
    if bound == 0 {
        assert(full =~= Set::empty());
    } else {
        let prev = Set::new(|x: usize| x < (bound - 1) as nat);
        lemma_usize_range_len((bound - 1) as nat);
        if bound - 1 <= usize::MAX {
            let top = (bound - 1) as usize;
            assert(full =~= prev.insert(top));
        } else {
            assert(full =~= prev);
        }
    }
}

/// `b` extends `a`: what `b` adds after position `n` is what `a` adds
/// after `n`, then what `b` adds after `a`.
proof fn lemma_extends(a: Seq<usize>, b: Seq<usize>, n: int)
    requires
        0 <= n <= a.len(),
        a.is_prefix_of(b),
    ensures
        b.skip(n) == a.skip(n) + b.skip(a.len() as int),
        forall|x: usize| #[trigger] b.skip(n).contains(x) <==> (a.skip(n).contains(x) || b.skip(a.len() as int).contains(x)),
{
    assert(b.skip(n) =~= a.skip(n) + b.skip(a.len() as int)) by {
        assert forall|i: int| 0 <= i < b.len() - n implies #[trigger] b.skip(n)[i] == (a.skip(n) + b.skip(a.len() as int))[i] by {
            if i < a.len() - n {
                assert(b.subrange(0, a.len() as int)[n + i] == b[n + i]);
            }
        }
    }
    assert forall|x: usize| #[trigger] b.skip(n).contains(x) <==> (a.skip(n).contains(x) || b.skip(a.len() as int).contains(x)) by {
        let l = a.skip(n);
        let r = b.skip(a.len() as int);
        if b.skip(n).contains(x) {
            let i = choose|i: int| 0 <= i < b.skip(n).len() && b.skip(n)[i] == x;
            if i < l.len() {
                assert(l[i] == x);
            } else {
                assert(r[i - l.len()] == x);
            }
        }
        if l.contains(x) {
            let i = choose|i: int| 0 <= i < l.len() && l[i] == x;
            assert(b.skip(n)[i] == x);
        }
        if r.contains(x) {
            let i = choose|i: int| 0 <= i < r.len() && r[i] == x;
            assert(b.skip(n)[l.len() + i] == x);
        }
    }
}

/// Pushing `a` adds exactly `a` to what a sequence contains.
proof fn lemma_push_contains(s: Seq<usize>, a: usize)
    ensures
        forall|x: usize| #[trigger] s.push(a).contains(x) <==> (s.contains(x) || x == a),
{
    assert forall|x: usize| #[trigger] s.push(a).contains(x) <==> (s.contains(x) || x == a) by {
        if s.contains(x) {
            let i = choose|i: int| 0 <= i < s.len() && s[i] == x;
            assert(s.push(a)[i] == x);
        }
        if x == a {
            assert(s.push(a)[s.len() as int] == x);
        }
        if s.push(a).contains(x) {
            let i = choose|i: int| 0 <= i < s.len() + 1 && s.push(a)[i] == x;
            if i < s.len() {
                assert(s[i] == x);
            }
        }
    }
}

/// Runs `f` immediately, then re-runs it whenever a signal it read through
/// [`Tracker::get`] during its latest run is changed. The effect keeps
/// reacting until [`Effect::dispose`].
#[verifier::spinoff_prover]
pub fn create_effect<V: Clone, F: FnMut(&mut Tracker<'_, V>), C: FnOnce()>(
    rt: &mut Runtime<V, F, C>,
    f: F,
) -> (effect: Effect)
    requires
        effect_callable(f),
        old(rt).effect_count() < usize::MAX,
    ensures
        effect.index() == old(rt).effect_count(),
        final(rt).effect_count() == old(rt).effect_count() + 1,
        final(rt).is_alive(effect),
        forall|e: Effect| old(rt).has_effect(e) ==> #[trigger] final(rt).is_alive(e) == old(rt).is_alive(e),
        final(rt).signal_count() == old(rt).signal_count(),
        final(rt).owner_count() == old(rt).owner_count(),
        forall|o: Owner| old(rt).has_owner(o) ==> #[trigger] same_owner(old(rt), final(rt), o),
        final(rt).batch_depth() == old(rt).batch_depth(),
        old(rt).runs().len() + 1 <= final(rt).runs().len(),
        final(rt).runs().subrange(0, old(rt).runs().len() + 1int) == old(rt).runs().push(effect.index() as usize),
        final(rt).batch_depth() > 0 ==> final(rt).runs() == old(rt).runs().push(effect.index() as usize),
        final(rt).batch_depth() == 0 ==> (final(rt).queued().len() == 0 || final(rt).runs().len() >= usize::MAX),
        final(rt).runs().len() == old(rt).runs().len() + 1 ==> forall|s: Signal| old(rt).has_signal(s)
            ==> #[trigger] without(final(rt).subscribers(s), effect.index() as usize) == old(rt).subscribers(s),
        final(rt).runs().len() == old(rt).runs().len() + 1 ==> exists|t: &mut Tracker<'_, V>| {
            &&& t.reads() == Seq::<usize>::empty()
            &&& t.signal_count() == old(rt).signal_count()
            &&& forall|s: Signal| #[trigger] t.value(s) == old(rt).value(s)
            &&& call_ensures(f, (t,), ())
            &&& forall|s: Signal| old(rt).has_signal(s) ==> (#[trigger] final(rt).last_reads(effect).contains(s.index() as usize)
                <==> final(t).reads().contains(s.index() as usize))
        },
        old(rt).effect_writes().is_prefix_of(final(rt).effect_writes()),
        old(rt).enqueued().is_prefix_of(final(rt).enqueued()),
        final(rt).cleanup_log() == old(rt).cleanup_log(),
        forall|s: Signal| old(rt).has_signal(s)
            && !final(rt).effect_writes().skip(old(rt).effect_writes().len() as int).contains(s.index() as usize)
            ==> #[trigger] final(rt).value(s) == old(rt).value(s),
        final(rt).batch_depth() > 0 ==> final(rt).queued() == old(rt).queued() + final(rt).enqueued().skip(old(rt).enqueued().len() as int),
        final(rt).batch_depth() == 0 ==> final(rt).runs() + final(rt).queued()
            == old(rt).runs().push(effect.index() as usize) + old(rt).queued() + final(rt).enqueued().skip(old(rt).enqueued().len() as int),
        final(rt).batch_depth() == 0 && final(rt).effect_writes().len() == old(rt).effect_writes().len() ==> {
            &&& final(rt).enqueued() == old(rt).enqueued()
            &&& final(rt).runs() == old(rt).runs().push(effect.index() as usize) + old(rt).queued()
            &&& final(rt).queued().len() == 0
        },
        exists|t: &mut Tracker<'_, V>| {
            &&& t.reads() == Seq::<usize>::empty()
            &&& t.writes() == Seq::<(usize, V)>::empty()
            &&& t.signal_count() == old(rt).signal_count()
            &&& forall|s: Signal| #[trigger] t.value(s) == old(rt).value(s)
            &&& call_ensures(f, (t,), ())
            &&& final(rt).effect_writes().subrange(old(rt).effect_writes().len() as int,
                    (old(rt).effect_writes().len() + final(t).writes().len()) as int) == signals_of(final(t).writes())
            &&& !final(rt).enqueued().skip(old(rt).enqueued().len() as int).contains(effect.index() as usize)
                ==> forall|s: Signal| old(rt).has_signal(s) ==> (#[trigger] final(rt).last_reads(effect).contains(s.index() as usize)
                    <==> final(t).reads().contains(s.index() as usize))
            &&& old(rt).queued().len() == 0 && final(t).writes().len() == 0
                ==> final(rt).effect_writes() == old(rt).effect_writes()
        },
        (forall|g: F, t: &mut Tracker<'_, V>| call_ensures(g, (t,), ()) ==> final(t).writes() == t.writes()) ==> final(rt).effect_writes() == old(rt).effect_writes(),
        tracks_reads(final(rt)),
{
    let mut st = rt.take_state();
    let ghost before = st;
    let id = st.add_effect(f);
    let ghost added = st;
    st.run(id);
    let ghost ran = st;
    if st.depth == 0 {
        st.flush();
    }
    rt.st = st;
    proof {
        assert(rt.st.log@.subrange(0, before.log@.len() + 1int) =~= ran.log@);
        if rt.st.log@.len() == before.log@.len() + 1 {
            assert(rt.st.same(&ran));
            assert(added.alive(id));
            let w = choose|t: &mut Tracker<'_, V>| {
                &&& t.reads() == Seq::<usize>::empty()
                &&& t.signal_count() == added.sig_count()
                &&& forall|s: Signal| #[trigger] t.value(s) == added.values@[s.index()]
                &&& call_ensures(added.bodies@[id as int]->0, (t,), ())
                &&& forall|s: usize| s < added.sig_count()
                    ==> (#[trigger] ran.last_reads@[id as int].contains(s) <==> final(t).reads().contains(s))
            };
            assert forall|s: Signal| #[trigger] w.value(s) == old(rt).value(s) by {
                assert(w.value(s) == added.values@[s.index()]);
            }
            assert forall|s: Signal| old(rt).has_signal(s) implies (#[trigger] rt.last_reads(Effect { id }).contains(s.index() as usize)
                <==> final(w).reads().contains(s.index() as usize)) by {
                assert(ran.last_reads@[id as int].contains(s.index() as usize) <==> final(w).reads().contains(s.index() as usize));
            }
        }
        assert forall|s: Signal| old(rt).has_signal(s) && rt.runs().len() == old(rt).runs().len() + 1
            implies #[trigger] without(rt.subscribers(s), id) == old(rt).subscribers(s) by {
            assert(rt.st.same(&ran));
            let t = s.index() as usize;
            assert(added.subs(t) == before.subs(t));
            assert(before.subs_ok(t));
            if before.subs(t).contains(id) {
                let k = choose|k: int| 0 <= k < before.subs(t).len() && before.subs(t)[k] == id;
                assert(before.subs(t)[k] < before.eff_count());
            }
            lemma_without(before.subs(t), id);
        }
        assert forall|e: Effect| old(rt).has_effect(e) implies #[trigger] rt.is_alive(e) == old(rt).is_alive(e) by {
            assert(added.alive(e.index() as usize) == before.alive(e.index() as usize));
            assert(ran.alive(e.index() as usize) == added.alive(e.index() as usize));
        }
    }
    proof {
        let w = choose|t: &mut Tracker<'_, V>| {
            &&& t.reads() == Seq::<usize>::empty()
            &&& t.writes() == Seq::<(usize, V)>::empty()
            &&& t.signal_count() == added.sig_count()
            &&& forall|s: Signal| #[trigger] t.value(s) == added.values@[s.index()]
            &&& call_ensures(added.bodies@[id as int]->0, (t,), ())
            &&& forall|s: usize| s < added.sig_count()
                ==> (#[trigger] ran.last_reads@[id as int].contains(s) <==> final(t).reads().contains(s))
            &&& ran.written@ == added.written@ + signals_of(final(t).writes())
        };
        let n0 = before.written@.len() as int;
        let q0 = before.queued_log@.len() as int;
        lemma_extends(ran.queued_log@, rt.st.queued_log@, q0);
        lemma_extends(ran.written@, rt.st.written@, n0);
        assert forall|s: Signal| #[trigger] w.value(s) == old(rt).value(s) by {
            assert(w.value(s) == added.values@[s.index()]);
        }
        assert(rt.st.written@.subrange(n0, n0 + final(w).writes().len()) =~= signals_of(final(w).writes())) by {
            assert forall|j: int| 0 <= j < final(w).writes().len() implies
                #[trigger] rt.st.written@.subrange(n0, n0 + final(w).writes().len())[j] == signals_of(final(w).writes())[j] by {
                assert(ran.written@[n0 + j] == signals_of(final(w).writes())[j]);
                assert(rt.st.written@.subrange(0, ran.written@.len() as int)[n0 + j] == rt.st.written@[n0 + j]);
            }
        }
        assert forall|s: Signal| old(rt).has_signal(s)
            && !rt.effect_writes().skip(old(rt).effect_writes().len() as int).contains(s.index() as usize)
            implies #[trigger] rt.value(s) == old(rt).value(s) by {
            let u = s.index() as usize;
            if rt.st.depth == 0 {
                assert(rt.st.values@[u as int] == ran.values@[u as int]);
            }
            assert(ran.values@[u as int] == added.values@[u as int]);
        }
        assert(rt.cleanup_log() == old(rt).cleanup_log());
        assert(!before.pending@.contains(id)) by {
            if before.pending@.contains(id) {
                let k = choose|k: int| 0 <= k < before.pending@.len() && before.pending@[k] == id;
                assert(before.pending@[k] < before.eff_count());
            }
        }
        let qall = rt.st.queued_log@.skip(q0);
        let q1 = ran.queued_log@.skip(q0);
        let qf = rt.st.queued_log@.skip(ran.queued_log@.len() as int);
        if rt.st.depth == 0 {
            assert(rt.st.log@ + rt.st.pending@ =~= before.log@.push(id) + before.pending@ + qall) by {
                assert(rt.st.log@ + rt.st.pending@ == ran.log@ + ran.pending@ + qf);
                assert(ran.log@ == before.log@.push(id));
                assert(ran.pending@ == before.pending@ + q1);
            }
            if rt.st.written@.len() == before.written@.len() {
                assert(ran.written@.len() == before.written@.len());
                assert(qall =~= Seq::<usize>::empty());
                assert(rt.st.pending@ =~= Seq::<usize>::empty());
                assert(rt.st.log@ =~= before.log@.push(id) + before.pending@);
            }
        } else {
            assert(rt.st.pending@ =~= before.pending@ + qall);
        }
        if before.pending@.len() == 0 && final(w).writes().len() == 0 {
            assert(signals_of(final(w).writes()) =~= Seq::<usize>::empty());
            assert(ran.written@ =~= added.written@);
            assert(ran.queued_log@ == added.queued_log@);
            assert(ran.pending@ =~= Seq::<usize>::empty());
            assert(rt.st.written@ == before.written@);
        }
        if !qall.contains(id) {
            assert forall|s: Signal| old(rt).has_signal(s) implies (#[trigger] rt.last_reads(Effect { id }).contains(s.index() as usize)
                <==> final(w).reads().contains(s.index() as usize)) by {
                if rt.st.depth == 0 {
                    let lo = ran.log@.len() as int;
                    assert(!rt.st.log@.skip(lo).contains(id)) by {
                        if rt.st.log@.skip(lo).contains(id) {
                            let k = choose|k: int| 0 <= k < rt.st.log@.skip(lo).len() && rt.st.log@.skip(lo)[k] == id;
                            assert((rt.st.log@ + rt.st.pending@)[lo + k] == id);
                            assert(ran.log@ + ran.pending@ + qf =~= ran.log@ + (ran.pending@ + qf));
                            assert((ran.log@ + (ran.pending@ + qf))[lo + k] == id);
                            assert((ran.pending@ + qf)[k] == id);
                            assert((before.pending@ + qall)[k] == id) by {
                                assert(ran.pending@ + qf =~= before.pending@ + qall);
                            }
                            if k < before.pending@.len() {
                                assert(before.pending@[k] == id);
                            } else {
                                assert(qall[k - before.pending@.len()] == id);
                            }
                        }
                    }
                    assert(rt.st.last_reads@[id as int] == ran.last_reads@[id as int]);
                }
            }
        }
    }
    proof { use_type_invariant(&*rt); rt.lemma_tracks_reads(); }
    Effect { id }
}

impl Effect {
    /// Stops the effect: it is unsubscribed from every signal, dropped from
    /// the batch queue and never runs again.
    pub fn dispose<V: Clone, F: FnMut(&mut Tracker<'_, V>), C: FnOnce()>(self, rt: &mut Runtime<V, F, C>)
        requires
            old(rt).has_effect(self),
        ensures
            !final(rt).is_alive(self),
            forall|e: Effect| old(rt).has_effect(e) && e != self ==> #[trigger] final(rt).is_alive(e) == old(rt).is_alive(e),
            forall|s: Signal| old(rt).has_signal(s) ==> #[trigger] final(rt).subscribers(s) == without(old(rt).subscribers(s), self.index() as usize),
            final(rt).queued() == without(old(rt).queued(), self.index() as usize),
            final(rt).signal_count() == old(rt).signal_count(),
            final(rt).effect_count() == old(rt).effect_count(),
            final(rt).runs() == old(rt).runs(),
            forall|s: Signal| old(rt).has_signal(s) ==> #[trigger] final(rt).value(s) == old(rt).value(s),
            final(rt).effect_writes() == old(rt).effect_writes(),
            final(rt).enqueued() == old(rt).enqueued(),
            final(rt).cleanup_log() == old(rt).cleanup_log(),
            tracks_reads(final(rt)),
    {
        let mut st = rt.take_state();
        st.kill(self.id);
        rt.st = st;
        proof {
            assert forall|e: Effect| old(rt).has_effect(e) && e != self implies #[trigger] rt.is_alive(e) == old(rt).is_alive(e) by {
                assert(e.index() != self.index());
            }
        }
        proof { use_type_invariant(&*rt); rt.lemma_tracks_reads(); }
    }
}

/// `post` agrees with `pre` on everything but the batch depth.
pub open spec fn same_but_depth<V: Clone, F: FnMut(&mut Tracker<'_, V>), C: FnOnce()>(
    pre: &Runtime<V, F, C>,
    post: &Runtime<V, F, C>,
) -> bool {
    &&& post.signal_count() == pre.signal_count()
    &&& post.effect_count() == pre.effect_count()
    &&& post.owner_count() == pre.owner_count()
    &&& forall|s: Signal| pre.has_signal(s) ==> {
        &&& #[trigger] post.value(s) == pre.value(s)
        &&& post.subscribers(s) == pre.subscribers(s)
    }
    &&& forall|e: Effect| pre.has_effect(e) ==> {
        &&& #[trigger] post.is_alive(e) == pre.is_alive(e)
        &&& post.dependencies(e) == pre.dependencies(e)
    }
    &&& forall|o: Owner| pre.has_owner(o) ==> {
        &&& #[trigger] post.owner_children(o) == pre.owner_children(o)
        &&& post.owner_effects(o) == pre.owner_effects(o)
        &&& post.owner_cleanup_count(o) == pre.owner_cleanup_count(o)
    }
    &&& post.queued() == pre.queued()
    &&& post.runs() == pre.runs()
}

/// Opening a batch: one level deeper, nothing else changes.
pub open spec fn batch_opened<V: Clone, F: FnMut(&mut Tracker<'_, V>), C: FnOnce()>(
    pre: &Runtime<V, F, C>,
    post: &Runtime<V, F, C>,
) -> bool {
    &&& post.batch_depth() == (if pre.batch_depth() < usize::MAX { pre.batch_depth() + 1 } else { pre.batch_depth() })
    &&& same_but_depth(pre, post)
}

/// Closing a batch: one level shallower; closing the outermost one runs
/// the queued effects, each once, first-in first-out, then every effect
/// queued meanwhile by a write from an effect body, until the queue is
/// empty (bounded only by `usize::MAX` runs). Signals keep their values
/// unless an effect body wrote them; when none wrote anything, exactly the
/// queued effects ran.
pub open spec fn batch_closed<V: Clone, F: FnMut(&mut Tracker<'_, V>), C: FnOnce()>(
    pre: &Runtime<V, F, C>,
    post: &Runtime<V, F, C>,
) -> bool {
    &&& post.batch_depth() == (if pre.batch_depth() > 0 { pre.batch_depth() - 1 } else { 0 })
    &&& post.signal_count() == pre.signal_count()
    &&& post.effect_count() == pre.effect_count()
    &&& post.owner_count() == pre.owner_count()
    &&& forall|e: Effect| pre.has_effect(e) ==> #[trigger] post.is_alive(e) == pre.is_alive(e)
    &&& post.batch_depth() > 0 ==> same_but_depth(pre, post)
    &&& post.batch_depth() == 0 ==> {
        &&& pre.runs().len() + pre.queued().len() <= post.runs().len()
        &&& post.runs().subrange(0, (pre.runs().len() + pre.queued().len()) as int) == pre.runs() + pre.queued()
        &&& (post.queued().len() == 0 || post.runs().len() >= usize::MAX)
    }
    &&& pre.effect_writes().is_prefix_of(post.effect_writes())
    &&& pre.enqueued().is_prefix_of(post.enqueued())
    &&& post.cleanup_log() == pre.cleanup_log()
    &&& forall|s: Signal| pre.has_signal(s)
        && !post.effect_writes().skip(pre.effect_writes().len() as int).contains(s.index() as usize)
        ==> #[trigger] post.value(s) == pre.value(s)
    &&& post.batch_depth() > 0 ==> post.effect_writes() == pre.effect_writes() && post.enqueued() == pre.enqueued()
    &&& post.batch_depth() == 0 ==> post.runs() + post.queued()
        == pre.runs() + pre.queued() + post.enqueued().skip(pre.enqueued().len() as int)
    &&& post.batch_depth() == 0 && post.effect_writes().len() == pre.effect_writes().len() ==> {
        &&& post.enqueued() == pre.enqueued()
        &&& post.runs() == pre.runs() + pre.queued()
        &&& post.queued().len() == 0
    }
}

impl<V: Clone, F: FnMut(&mut Tracker<'_, V>), C: FnOnce()> Runtime<V, F, C> {
    proof fn lemma_same_but_depth(pre: &Self, post: &Self)
        requires
            post.st.values@ == pre.st.values@,
            post.st.subscribers@ == pre.st.subscribers@,
            post.st.deps@ == pre.st.deps@,
            post.st.bodies@ == pre.st.bodies@,
            post.st.pending@ == pre.st.pending@,
            post.st.owners@ == pre.st.owners@,
            post.st.log@ == pre.st.log@,
        ensures
            same_but_depth(pre, post),
    {
    }
}

/// Groups synchronous signal writes so that every affected effect runs
/// once, after the outermost batch closes, in the order it was first
/// notified: `f` runs on the runtime with the batch opened, and the batch
/// is closed on whatever `f` left.
pub fn batch<V: Clone, F: FnMut(&mut Tracker<'_, V>), C: FnOnce(), B: FnOnce(&mut Runtime<V, F, C>)>(
    rt: &mut Runtime<V, F, C>,
    f: B,
)
    requires
        forall|r: &mut Runtime<V, F, C>| call_requires(f, (r,)),
    ensures
        exists|r: &mut Runtime<V, F, C>| {
            &&& batch_opened(old(rt), &*r)
            &&& call_ensures(f, (r,), ())
            &&& tracks_reads(&*final(r))
            &&& batch_closed(&*final(r), final(rt))
            &&& (forall|g: F, t: &mut Tracker<'_, V>| call_ensures(g, (t,), ()) ==> final(t).writes() == t.writes()) ==> final(rt).effect_writes() == final(r).effect_writes()
        },
        tracks_reads(final(rt)),
{
    let mut st = rt.take_state();
    st.open_batch();
    rt.st = st;
    proof { Runtime::lemma_same_but_depth(old(rt), rt); }
    let ghost opened = *rt;
    assert(batch_opened(old(rt), &opened));
    f(rt);
    proof { use_type_invariant(&*rt); rt.lemma_tracks_reads(); }
    let ghost mid = *rt;
    let mut st = rt.take_state();
    st.close_batch();
    rt.st = st;
    proof {
        assert(rt.cleanup_log() == mid.cleanup_log());
        if rt.st.depth == 0 && rt.st.written@.len() == mid.st.written@.len() {
            assert(rt.st.queued_log@.skip(mid.st.queued_log@.len() as int) =~= Seq::<usize>::empty());
            assert(rt.st.pending@ =~= Seq::<usize>::empty());
            assert(rt.st.log@ =~= rt.st.log@ + rt.st.pending@);
        }
        if rt.st.depth > 0 {
            assert(rt.st.same_history(&mid.st));
        }
        assert forall|e: Effect| mid.has_effect(e) implies #[trigger] rt.is_alive(e) == mid.is_alive(e) by {}
        if rt.st.depth > 0 {
            Runtime::lemma_same_but_depth(&mid, rt);
        } else {
            assert(mid.st.log@ + mid.st.pending@ =~= rt.st.log@.subrange(0, (mid.st.log@.len() + mid.st.pending@.len()) as int)) by {
                let a = mid.st.log@.len() as int;
                let b = mid.st.pending@.len() as int;
                assert forall|i: int| 0 <= i < a + b implies #[trigger] rt.st.log@[i] == (mid.st.log@ + mid.st.pending@)[i] by {
                    if i < a {
                        assert(rt.st.log@.subrange(0, a)[i] == rt.st.log@[i]);
                    } else {
                        assert(rt.st.log@.subrange(a, a + b)[i - a] == rt.st.log@[i]);
                    }
                }
            }
        }
        assert(batch_closed(&mid, rt));
    }
    proof { use_type_invariant(&*rt); rt.lemma_tracks_reads(); }
}

impl Signal {
    /// Creates a signal holding `value`.
    pub fn new<V: Clone, F: FnMut(&mut Tracker<'_, V>), C: FnOnce()>(rt: &mut Runtime<V, F, C>, value: V) -> (signal: Signal)
        requires
            old(rt).signal_count() < usize::MAX,
        ensures
            signal.index() == old(rt).signal_count(),
            final(rt).signal_count() == old(rt).signal_count() + 1,
            final(rt).value(signal) == value,
            final(rt).subscribers(signal) == Seq::<usize>::empty(),
            forall|s: Signal| old(rt).has_signal(s) ==> #[trigger] final(rt).value(s) == old(rt).value(s),
            forall|s: Signal| old(rt).has_signal(s) ==> #[trigger] final(rt).subscribers(s) == old(rt).subscribers(s),
            final(rt).effect_count() == old(rt).effect_count(),
            forall|e: Effect| old(rt).has_effect(e) ==> #[trigger] final(rt).is_alive(e) == old(rt).is_alive(e),
            final(rt).owner_count() == old(rt).owner_count(),
            final(rt).batch_depth() == old(rt).batch_depth(),
            final(rt).queued() == old(rt).queued(),
            final(rt).runs() == old(rt).runs(),
            final(rt).effect_writes() == old(rt).effect_writes(),
            final(rt).enqueued() == old(rt).enqueued(),
            final(rt).cleanup_log() == old(rt).cleanup_log(),
            tracks_reads(final(rt)),
    {
        let mut st = rt.take_state();
        let id = st.add_signal(value);
        rt.st = st;
        proof { use_type_invariant(&*rt); rt.lemma_tracks_reads(); }
        Signal { id }
    }

    /// Whether this signal belongs to `rt`.
    pub fn is_in<V: Clone, F: FnMut(&mut Tracker<'_, V>), C: FnOnce()>(&self, rt: &Runtime<V, F, C>) -> (r: bool)
        ensures
            r == rt.has_signal(*self),
    {
        proof { use_type_invariant(rt); }
        self.id < rt.st.values.len()
    }

    /// Reads the current value. Outside an effect body nothing is running,
    /// so nothing subscribes; inside one use [`Tracker::get`].
    pub fn get<V: Clone, F: FnMut(&mut Tracker<'_, V>), C: FnOnce()>(&self, rt: &Runtime<V, F, C>) -> (r: V)
        requires
            rt.has_signal(*self),
        ensures
            cloned::<V>(rt.value(*self), r),
    {
        proof { use_type_invariant(rt); }
        rt.st.values[self.id].clone()
    }

    /// Reads the current value without subscribing anything.
    pub fn peek<V: Clone, F: FnMut(&mut Tracker<'_, V>), C: FnOnce()>(&self, rt: &Runtime<V, F, C>) -> (r: V)
        requires
            rt.has_signal(*self),
        ensures
            cloned::<V>(rt.value(*self), r),
    {
        proof { use_type_invariant(rt); }
        rt.st.values[self.id].clone()
    }
}

/// What storing `value` in `signal` and notifying its subscribers did to
/// the runtime: inside a batch the subscribers are queued (each once) and
/// nothing runs; outside, every subscriber ran once, in subscription
/// order, then what was queued before, then, first-in first-out, every
/// effect queued by a write an effect body made meanwhile, each once per
/// time it was queued. Every signal keeps its value (`value` for
/// `signal`) unless an effect body wrote it meanwhile; when no body wrote
/// anything, nothing beyond the subscribers and the earlier queue ran.
pub open spec fn written<V: Clone, F: FnMut(&mut Tracker<'_, V>), C: FnOnce()>(
    pre: &Runtime<V, F, C>,
    post: &Runtime<V, F, C>,
    signal: Signal,
    value: V,
) -> bool {
    &&& post.signal_count() == pre.signal_count()
    &&& post.effect_count() == pre.effect_count()
    &&& forall|e: Effect| pre.has_effect(e) ==> #[trigger] post.is_alive(e) == pre.is_alive(e)
    &&& post.owner_count() == pre.owner_count()
    &&& post.batch_depth() == pre.batch_depth()
    &&& post.runs().subrange(0, pre.runs().len() as int) == pre.runs()
    &&& pre.batch_depth() > 0 ==> {
        &&& post.value(signal) == value
        &&& forall|s: Signal| pre.has_signal(s) && s != signal ==> #[trigger] post.value(s) == pre.value(s)
        &&& forall|s: Signal| pre.has_signal(s) ==> #[trigger] post.subscribers(s) == pre.subscribers(s)
        &&& post.queued() == append_new(pre.queued(), pre.subscribers(signal))
        &&& post.runs() == pre.runs()
    }
    &&& pre.batch_depth() == 0 ==> {
        &&& pre.runs().len() + pre.subscribers(signal).len() <= post.runs().len()
        &&& post.runs().subrange(pre.runs().len() as int, (pre.runs().len() + pre.subscribers(signal).len()) as int)
            == pre.subscribers(signal)
        &&& (post.queued().len() == 0 || post.runs().len() >= usize::MAX)
    }
    &&& pre.subscribers(signal).len() == 0 && pre.queued().len() == 0 ==> {
        &&& post.value(signal) == value
        &&& forall|s: Signal| pre.has_signal(s) && s != signal ==> #[trigger] post.value(s) == pre.value(s)
        &&& forall|s: Signal| pre.has_signal(s) ==> #[trigger] post.subscribers(s) == pre.subscribers(s)
        &&& post.queued() == pre.queued()
        &&& post.runs() == pre.runs()
    }
    &&& pre.effect_writes().is_prefix_of(post.effect_writes())
    &&& pre.enqueued().is_prefix_of(post.enqueued())
    &&& post.cleanup_log() == pre.cleanup_log()
    &&& forall|s: Signal| pre.has_signal(s) && !post.effect_writes().skip(pre.effect_writes().len() as int).contains(s.index() as usize)
        ==> #[trigger] post.value(s) == (if s == signal { value } else { pre.value(s) })
    &&& pre.batch_depth() > 0 ==> {
        &&& post.effect_writes() == pre.effect_writes()
        &&& post.queued() == pre.queued() + post.enqueued().skip(pre.enqueued().len() as int)
    }
    &&& pre.batch_depth() == 0 ==> post.runs() + post.queued()
        == pre.runs() + pre.subscribers(signal) + pre.queued() + post.enqueued().skip(pre.enqueued().len() as int)
    &&& pre.batch_depth() == 0 && post.effect_writes().len() == pre.effect_writes().len() ==> {
        &&& post.enqueued() == pre.enqueued()
        &&& post.runs() == pre.runs() + pre.subscribers(signal) + pre.queued()
        &&& post.queued().len() == 0
    }
}

impl Signal {
    /// Replaces the value and notifies the subscribers.
    pub fn set<V: Clone, F: FnMut(&mut Tracker<'_, V>), C: FnOnce()>(&self, rt: &mut Runtime<V, F, C>, value: V)
        requires
            old(rt).has_signal(*self),
        ensures
            written(old(rt), final(rt), *self, value),
            (forall|g: F, t: &mut Tracker<'_, V>| call_ensures(g, (t,), ()) ==> final(t).writes() == t.writes()) ==> final(rt).effect_writes() == old(rt).effect_writes(),
            (forall|g: F, t: &mut Tracker<'_, V>| call_ensures(g, (t,), ()) ==> !signals_of(final(t).writes()).contains(self.index() as usize)) ==> final(rt).value(*self) == value,
            tracks_reads(final(rt)),
    {
        let mut st = rt.take_state();
        let ghost before = st;
        st.store(self.id, value);
        let ghost stored = st;
        st.notify(self.id);
        rt.st = st;
        proof { self.lemma_written(old(rt), rt, before, stored, value); }
        proof { use_type_invariant(&*rt); rt.lemma_tracks_reads(); }
    }

    proof fn lemma_written<V: Clone, F: FnMut(&mut Tracker<'_, V>), C: FnOnce()>(
        &self,
        pre: &Runtime<V, F, C>,
        post: &Runtime<V, F, C>,
        before: State<V, F, C>,
        stored: State<V, F, C>,
        value: V,
    )
        requires
            before == pre.st,
            before.wf(),
            (self.id as int) < before.sig_count(),
            stored.values@ == before.values@.update(self.id as int, value),
            stored.subscribers@ == before.subscribers@,
            stored.deps@ == before.deps@,
            stored.bodies@ == before.bodies@,
            stored.depth == before.depth,
            stored.pending@ == before.pending@,
            stored.owners@ == before.owners@,
            stored.log@ == before.log@,
            post.st.wf(),
            post.st.sig_count() == stored.sig_count(),
            post.st.eff_count() == stored.eff_count(),
            forall|f: usize| f < stored.eff_count() ==> #[trigger] post.st.alive(f) == stored.alive(f),
            post.st.depth == stored.depth,
            post.st.owners@ == stored.owners@,
            post.st.log@.subrange(0, stored.log@.len() as int) == stored.log@,
            stored.depth > 0 ==> {
                &&& post.st.values@ == stored.values@
                &&& post.st.subscribers@ == stored.subscribers@
                &&& post.st.deps@ == stored.deps@
                &&& post.st.bodies@ == stored.bodies@
                &&& post.st.pending@ == append_new(stored.pending@, stored.subs(self.id))
                &&& post.st.log@ == stored.log@
            },
            stored.depth == 0 ==> {
                &&& stored.log@.len() + stored.subs(self.id).len() <= post.st.log@.len()
                &&& post.st.log@.subrange(stored.log@.len() as int, (stored.log@.len() + stored.subs(self.id).len()) as int) == stored.subs(self.id)
                &&& (post.st.pending@.len() == 0 || post.st.log@.len() >= usize::MAX)
            },
            stored.subs(self.id).len() == 0 && stored.pending@.len() == 0 ==> post.st.same(&stored),
            stored.same_history(&before),
            stored.queued_log@.is_prefix_of(post.st.queued_log@),
            stored.written@.is_prefix_of(post.st.written@),
            post.st.cleaned@ == stored.cleaned@,
            forall|u: usize| u < stored.sig_count() && !post.st.written@.skip(stored.written@.len() as int).contains(u)
                ==> #[trigger] post.st.values@[u as int] == stored.values@[u as int],
            stored.depth > 0 ==> {
                &&& post.st.written@ == stored.written@
                &&& post.st.pending@ == stored.pending@ + post.st.queued_log@.skip(stored.queued_log@.len() as int)
            },
            stored.depth == 0 ==> post.st.log@ + post.st.pending@
                == stored.log@ + stored.subs(self.id) + stored.pending@ + post.st.queued_log@.skip(stored.queued_log@.len() as int),
            stored.depth == 0 && post.st.written@.len() == stored.written@.len()
                ==> post.st.queued_log@ == stored.queued_log@ && post.st.pending@.len() == 0,
        ensures
            written(pre, post, *self, value),
    {
        assert(post.cleanup_log() == pre.cleanup_log());
        assert forall|s: Signal| pre.has_signal(s) && !post.effect_writes().skip(pre.effect_writes().len() as int).contains(s.index() as usize)
            implies #[trigger] post.value(s) == (if s == *self { value } else { pre.value(s) }) by {
            assert(post.st.values@[s.index()] == stored.values@[s.index()]);
            if s.index() == self.index() {
                assert(s == *self);
            }
        }
        assert forall|e: Effect| pre.has_effect(e) implies #[trigger] post.is_alive(e) == pre.is_alive(e) by {
            assert(stored.alive(e.index() as usize) == before.alive(e.index() as usize));
        }
        assert forall|s: Signal| pre.has_signal(s) implies #[trigger] post.subscribers(s) == pre.subscribers(s)
            || !(stored.depth > 0 || (stored.subs(self.id).len() == 0 && stored.pending@.len() == 0)) by {}
        if stored.depth > 0 || (stored.subs(self.id).len() == 0 && stored.pending@.len() == 0) {
            assert forall|s: Signal| pre.has_signal(s) && s != *self implies #[trigger] post.value(s) == pre.value(s) by {
                assert(s.index() != self.index());
            }
        }
        assert(pre.effect_writes().is_prefix_of(post.effect_writes()));
        assert(pre.enqueued().is_prefix_of(post.enqueued()));
        if stored.depth == 0 {
            assert(post.runs() + post.queued()
                == pre.runs() + pre.subscribers(*self) + pre.queued() + post.enqueued().skip(pre.enqueued().len() as int));
            if post.effect_writes().len() == pre.effect_writes().len() {
                assert(post.st.pending@ =~= Seq::<usize>::empty());
                assert(post.st.queued_log@.skip(stored.queued_log@.len() as int) =~= Seq::<usize>::empty());
                assert(post.runs() =~= post.runs() + post.queued());
                assert(post.runs() =~= pre.runs() + pre.subscribers(*self) + pre.queued());
            }
        }
    }

    /// Mutates the value in place and notifies the subscribers.
    pub fn update<V: Clone, F: FnMut(&mut Tracker<'_, V>), C: FnOnce(), U: FnOnce(&mut V)>(
        &self,
        rt: &mut Runtime<V, F, C>,
        f: U,
    )
        requires
            old(rt).has_signal(*self),
            forall|v: &mut V| call_requires(f, (v,)),
        ensures
            exists|v: &mut V| {
                &&& *v == old(rt).value(*self)
                &&& call_ensures(f, (v,), ())
                &&& written(old(rt), final(rt), *self, *final(v))
                &&& (forall|g: F, t: &mut Tracker<'_, V>| call_ensures(g, (t,), ()) ==> !signals_of(final(t).writes()).contains(self.index() as usize)) ==> final(rt).value(*self) == *final(v)
            },
            (forall|g: F, t: &mut Tracker<'_, V>| call_ensures(g, (t,), ()) ==> final(t).writes() == t.writes()) ==> final(rt).effect_writes() == old(rt).effect_writes(),
            tracks_reads(final(rt)),
    {
        let mut st = rt.take_state();
        let ghost before = st;
        f(&mut st.values[self.id]);
        let ghost stored = st;
        proof {
            State::lemma_queue_changed(&before, &st);
            assert(stored.values@ == before.values@.update(self.id as int, stored.values@[self.id as int]));
        }
        st.notify(self.id);
        rt.st = st;
        proof { self.lemma_written(old(rt), rt, before, stored, stored.values@[self.id as int]); }
        proof { use_type_invariant(&*rt); rt.lemma_tracks_reads(); }
    }
}

impl Signal {
    /// Like [`Signal::set`], but skips the write and its notification when
    /// `value` equals the current value.
    pub fn set_if_changed<V: Clone + PartialEq, F: FnMut(&mut Tracker<'_, V>), C: FnOnce()>(
        &self,
        rt: &mut Runtime<V, F, C>,
        value: V,
    )
        requires
            old(rt).has_signal(*self),
        ensures
            V::obeys_eq_spec() && old(rt).value(*self).eq_spec(&value) ==> *final(rt) == *old(rt),
            V::obeys_eq_spec() && !old(rt).value(*self).eq_spec(&value) ==> written(old(rt), final(rt), *self, value),
            *final(rt) == *old(rt) || written(old(rt), final(rt), *self, value),
            (forall|g: F, t: &mut Tracker<'_, V>| call_ensures(g, (t,), ()) ==> final(t).writes() == t.writes()) ==> final(rt).effect_writes() == old(rt).effect_writes(),
            tracks_reads(final(rt)),
    {
        proof { use_type_invariant(&*rt); }
        let same = rt.st.values[self.id] == value;
        if !same {
            self.set(rt, value);
        }
        proof { use_type_invariant(&*rt); rt.lemma_tracks_reads(); }
    }
}

/// Signals and effects are as they were: values, subscriptions,
/// liveness, the batch depth and queue, and the runs so far.
pub open spec fn same_signals_and_effects<V: Clone, F: FnMut(&mut Tracker<'_, V>), C: FnOnce()>(
    pre: &Runtime<V, F, C>,
    post: &Runtime<V, F, C>,
) -> bool {
    &&& post.signal_count() == pre.signal_count()
    &&& post.effect_count() == pre.effect_count()
    &&& forall|s: Signal| pre.has_signal(s) ==> {
        &&& #[trigger] post.value(s) == pre.value(s)
        &&& post.subscribers(s) == pre.subscribers(s)
    }
    &&& forall|e: Effect| pre.has_effect(e) ==> {
        &&& #[trigger] post.is_alive(e) == pre.is_alive(e)
        &&& post.dependencies(e) == pre.dependencies(e)
    }
    &&& post.batch_depth() == pre.batch_depth()
    &&& post.queued() == pre.queued()
    &&& post.runs() == pre.runs()
    &&& post.effect_writes() == pre.effect_writes()
    &&& post.enqueued() == pre.enqueued()
    &&& post.cleanup_log() == pre.cleanup_log()
}

/// Owner `o` is recorded identically in both runtimes.
pub open spec fn same_owner<V: Clone, F: FnMut(&mut Tracker<'_, V>), C: FnOnce()>(
    pre: &Runtime<V, F, C>,
    post: &Runtime<V, F, C>,
    o: Owner,
) -> bool {
    &&& post.owner_children(o) == pre.owner_children(o)
    &&& post.owner_effects(o) == pre.owner_effects(o)
    &&& post.owner_cleanup_count(o) == pre.owner_cleanup_count(o)
    &&& post.cleanups_run(o) == pre.cleanups_run(o)
}

/// What disposing `root` did, where `scope` is the set of owners it
/// disposed: `root` and, transitively, every child of a disposed owner,
/// and nothing else;
/// each lost its children, its effects (now dead, subscribed to nothing
/// and off the queue) and its pending cleanups (each of which ran once);
/// the cleanups of the owners under `root` ran first, then `root`'s own,
/// in the order registered; every other owner, every effect those owners
/// do not hold, every signal value and the batch state are untouched, and
/// no effect came alive.
pub open spec fn disposed<V: Clone, F: FnMut(&mut Tracker<'_, V>), C: FnOnce()>(
    pre: &Runtime<V, F, C>,
    post: &Runtime<V, F, C>,
    root: Owner,
    scope: Set<Owner>,
) -> bool {
    &&& scope.contains(root)
    &&& forall|q: Owner, i: int| #![trigger scope.contains(q), pre.owner_children(q)[i]]
        scope.contains(q) && 0 <= i < pre.owner_children(q).len()
        ==> scope.contains(pre.owner_children(q)[i])
    &&& forall|q: Owner| #[trigger] scope.contains(q) && q != root ==> exists|p: Owner, i: int|
        scope.contains(p) && 0 <= i < pre.owner_children(p).len() && pre.owner_children(p)[i] == q
    &&& forall|q: Owner, i: int| #![trigger scope.contains(q), pre.owner_effects(q)[i]]
        scope.contains(q) && 0 <= i < pre.owner_effects(q).len()
        ==> !post.is_alive(pre.owner_effects(q)[i])
    &&& forall|q: Owner| #[trigger] scope.contains(q) ==> {
        &&& pre.has_owner(q)
        &&& post.owner_children(q).len() == 0
        &&& post.owner_effects(q).len() == 0
        &&& post.owner_cleanup_count(q) == 0
        &&& post.cleanups_run(q) == pre.cleanups_run(q) + pre.owner_cleanup_count(q)
    }
    &&& forall|o: Owner| pre.has_owner(o) && !scope.contains(o) ==> #[trigger] same_owner(pre, post, o)
    &&& post.owner_count() == pre.owner_count()
    &&& post.signal_count() == pre.signal_count()
    &&& post.effect_count() == pre.effect_count()
    &&& forall|e: Effect| pre.has_effect(e) && #[trigger] post.is_alive(e) ==> pre.is_alive(e)
    &&& forall|e: Effect| pre.has_effect(e) && pre.is_alive(e)
        && !(exists|q: Owner, i: int| scope.contains(q) && 0 <= i < pre.owner_effects(q).len() && #[trigger] pre.owner_effects(q)[i] == e)
        ==> #[trigger] post.is_alive(e)
    &&& forall|s: Signal| pre.has_signal(s) ==> #[trigger] post.value(s) == pre.value(s)
    &&& post.batch_depth() == pre.batch_depth()
    &&& post.runs() == pre.runs()
    &&& forall|q: Owner, i: int, s: Signal| scope.contains(q) && 0 <= i < pre.owner_effects(q).len() && pre.has_signal(s)
        ==> !#[trigger] post.subscribers(s).contains(#[trigger] pre.owner_effects(q)[i].index() as usize)
    &&& forall|q: Owner, i: int| scope.contains(q) && 0 <= i < pre.owner_effects(q).len()
        ==> !post.queued().contains(#[trigger] pre.owner_effects(q)[i].index() as usize)
    &&& post.effect_writes() == pre.effect_writes()
    &&& post.enqueued() == pre.enqueued()
    &&& pre.cleanup_log().is_prefix_of(post.cleanup_log())
    &&& pre.cleanup_log().len() + pre.owner_cleanup_count(root) <= post.cleanup_log().len()
    &&& forall|i: int| post.cleanup_log().len() - pre.owner_cleanup_count(root) <= i < post.cleanup_log().len()
        ==> #[trigger] post.cleanup_log()[i] == root
    &&& forall|i: int| pre.cleanup_log().len() <= i < post.cleanup_log().len() - pre.owner_cleanup_count(root)
        ==> scope.contains(#[trigger] post.cleanup_log()[i]) && post.cleanup_log()[i] != root
}

impl Owner {
    /// Whether this owner belongs to `rt`.
    pub fn is_in<V: Clone, F: FnMut(&mut Tracker<'_, V>), C: FnOnce()>(&self, rt: &Runtime<V, F, C>) -> (r: bool)
        ensures
            r == rt.has_owner(*self),
    {
        proof { use_type_invariant(rt); }
        self.id < rt.st.owners.len()
    }

    /// A new, empty scope.
    pub fn new<V: Clone, F: FnMut(&mut Tracker<'_, V>), C: FnOnce()>(rt: &mut Runtime<V, F, C>) -> (owner: Owner)
        requires
            old(rt).owner_count() < usize::MAX,
        ensures
            owner.index() == old(rt).owner_count(),
            final(rt).owner_count() == old(rt).owner_count() + 1,
            final(rt).owner_children(owner).len() == 0,
            final(rt).owner_effects(owner).len() == 0,
            final(rt).owner_cleanup_count(owner) == 0,
            final(rt).cleanups_run(owner) == 0,
            forall|o: Owner| old(rt).has_owner(o) ==> #[trigger] same_owner(old(rt), final(rt), o),
            same_signals_and_effects(old(rt), final(rt)),
            tracks_reads(final(rt)),
    {
        let mut st = rt.take_state();
        let id = st.add_owner();
        rt.st = st;
        proof { use_type_invariant(&*rt); rt.lemma_tracks_reads(); }
        Owner { id }
    }

    /// Creates a child scope, disposed whenever `self` is.
    pub fn child<V: Clone, F: FnMut(&mut Tracker<'_, V>), C: FnOnce()>(&self, rt: &mut Runtime<V, F, C>) -> (child: Owner)
        requires
            old(rt).has_owner(*self),
            old(rt).owner_count() < usize::MAX,
        ensures
            child.index() == old(rt).owner_count(),
            final(rt).owner_count() == old(rt).owner_count() + 1,
            final(rt).owner_children(*self) == old(rt).owner_children(*self).push(child),
            final(rt).owner_effects(*self) == old(rt).owner_effects(*self),
            final(rt).owner_cleanup_count(*self) == old(rt).owner_cleanup_count(*self),
            final(rt).cleanups_run(*self) == old(rt).cleanups_run(*self),
            final(rt).owner_children(child).len() == 0,
            final(rt).owner_effects(child).len() == 0,
            final(rt).owner_cleanup_count(child) == 0,
            final(rt).cleanups_run(child) == 0,
            forall|o: Owner| old(rt).has_owner(o) && o != *self ==> #[trigger] same_owner(old(rt), final(rt), o),
            same_signals_and_effects(old(rt), final(rt)),
            tracks_reads(final(rt)),
    {
        let mut st = rt.take_state();
        let id = st.add_owner();
        st.adopt_child(self.id, id);
        rt.st = st;
        proof {
            assert forall|o: Owner| old(rt).has_owner(o) && o != *self implies #[trigger] same_owner(old(rt), rt, o) by {
                assert(o.index() != self.index());
            }
        }
        proof { use_type_invariant(&*rt); rt.lemma_tracks_reads(); }
        Owner { id }
    }

    /// Runs `f` as an effect owned by this scope: it stops when the scope
    /// is disposed.
    pub fn effect<V: Clone, F: FnMut(&mut Tracker<'_, V>), C: FnOnce()>(&self, rt: &mut Runtime<V, F, C>, f: F)
        requires
            old(rt).has_owner(*self),
            effect_callable(f),
            old(rt).effect_count() < usize::MAX,
        ensures
            final(rt).effect_count() == old(rt).effect_count() + 1,
            final(rt).owner_effects(*self).len() == old(rt).owner_effects(*self).len() + 1,
            final(rt).owner_effects(*self).drop_last() == old(rt).owner_effects(*self),
            final(rt).owner_effects(*self).last().index() == old(rt).effect_count(),
            final(rt).is_alive(final(rt).owner_effects(*self).last()),
            final(rt).owner_children(*self) == old(rt).owner_children(*self),
            final(rt).owner_cleanup_count(*self) == old(rt).owner_cleanup_count(*self),
            final(rt).cleanups_run(*self) == old(rt).cleanups_run(*self),
            forall|o: Owner| old(rt).has_owner(o) && o != *self ==> #[trigger] same_owner(old(rt), final(rt), o),
            final(rt).owner_count() == old(rt).owner_count(),
            forall|e: Effect| old(rt).has_effect(e) ==> #[trigger] final(rt).is_alive(e) == old(rt).is_alive(e),
            final(rt).signal_count() == old(rt).signal_count(),
            final(rt).batch_depth() == old(rt).batch_depth(),
            old(rt).runs().len() + 1 <= final(rt).runs().len(),
            final(rt).runs().subrange(0, old(rt).runs().len() + 1int) == old(rt).runs().push(old(rt).effect_count() as usize),
            final(rt).batch_depth() > 0 ==> final(rt).runs() == old(rt).runs().push(old(rt).effect_count() as usize),
            final(rt).batch_depth() == 0 ==> (final(rt).queued().len() == 0 || final(rt).runs().len() >= usize::MAX),
            final(rt).runs().len() == old(rt).runs().len() + 1 ==> forall|s: Signal| old(rt).has_signal(s)
                ==> #[trigger] without(final(rt).subscribers(s), old(rt).effect_count() as usize) == old(rt).subscribers(s),
            final(rt).runs().len() == old(rt).runs().len() + 1 ==> exists|t: &mut Tracker<'_, V>| {
                &&& t.reads() == Seq::<usize>::empty()
                &&& t.signal_count() == old(rt).signal_count()
                &&& forall|s: Signal| #[trigger] t.value(s) == old(rt).value(s)
                &&& call_ensures(f, (t,), ())
                &&& forall|s: Signal| old(rt).has_signal(s)
                    ==> (#[trigger] final(rt).last_reads(final(rt).owner_effects(*self).last()).contains(s.index() as usize)
                        <==> final(t).reads().contains(s.index() as usize))
            },
            old(rt).effect_writes().is_prefix_of(final(rt).effect_writes()),
            old(rt).enqueued().is_prefix_of(final(rt).enqueued()),
            final(rt).cleanup_log() == old(rt).cleanup_log(),
            forall|s: Signal| old(rt).has_signal(s)
                && !final(rt).effect_writes().skip(old(rt).effect_writes().len() as int).contains(s.index() as usize)
                ==> #[trigger] final(rt).value(s) == old(rt).value(s),
            final(rt).batch_depth() > 0 ==> final(rt).queued() == old(rt).queued() + final(rt).enqueued().skip(old(rt).enqueued().len() as int),
            final(rt).batch_depth() == 0 ==> final(rt).runs() + final(rt).queued()
                == old(rt).runs().push(old(rt).effect_count() as usize) + old(rt).queued() + final(rt).enqueued().skip(old(rt).enqueued().len() as int),
            final(rt).batch_depth() == 0 && final(rt).effect_writes().len() == old(rt).effect_writes().len() ==> {
                &&& final(rt).enqueued() == old(rt).enqueued()
                &&& final(rt).runs() == old(rt).runs().push(old(rt).effect_count() as usize) + old(rt).queued()
                &&& final(rt).queued().len() == 0
            },
            exists|t: &mut Tracker<'_, V>| {
                &&& t.reads() == Seq::<usize>::empty()
                &&& t.writes() == Seq::<(usize, V)>::empty()
                &&& t.signal_count() == old(rt).signal_count()
                &&& forall|s: Signal| #[trigger] t.value(s) == old(rt).value(s)
                &&& call_ensures(f, (t,), ())
                &&& final(rt).effect_writes().subrange(old(rt).effect_writes().len() as int,
                        (old(rt).effect_writes().len() + final(t).writes().len()) as int) == signals_of(final(t).writes())
                &&& !final(rt).enqueued().skip(old(rt).enqueued().len() as int).contains(old(rt).effect_count() as usize)
                    ==> forall|s: Signal| old(rt).has_signal(s)
                        ==> (#[trigger] final(rt).last_reads(final(rt).owner_effects(*self).last()).contains(s.index() as usize)
                        <==> final(t).reads().contains(s.index() as usize))
                &&& old(rt).queued().len() == 0 && final(t).writes().len() == 0
                    ==> final(rt).effect_writes() == old(rt).effect_writes()
            },
            (forall|g: F, t: &mut Tracker<'_, V>| call_ensures(g, (t,), ()) ==> final(t).writes() == t.writes()) ==> final(rt).effect_writes() == old(rt).effect_writes(),
            tracks_reads(final(rt)),
    {
        let effect = create_effect(rt, f);
        let ghost created = *rt;
        let mut st = rt.take_state();
        let ghost mid = st;
        st.adopt_effect(self.id, effect.id);
        rt.st = st;
        proof {
            assert(same_owner(old(rt), &created, *self));
            assert forall|o: Owner| old(rt).has_owner(o) && o != *self implies #[trigger] same_owner(old(rt), rt, o) by {
                assert(o.index() != self.index());
                assert(same_owner(old(rt), &created, o));
                assert(rt.st.owners@[o.index()] == mid.owners@[o.index()]);
            }
            assert forall|e: Effect| old(rt).has_effect(e) implies #[trigger] rt.is_alive(e) == old(rt).is_alive(e) by {
                assert(created.is_alive(e) == old(rt).is_alive(e));
                assert(mid.alive(e.index() as usize) == rt.st.alive(e.index() as usize));
            }
            assert forall|s: Signal| old(rt).has_signal(s) && rt.runs().len() == old(rt).runs().len() + 1
                implies #[trigger] without(rt.subscribers(s), effect.id) == old(rt).subscribers(s) by {
                assert(rt.subscribers(s) == mid.subs(s.index() as usize));
                assert(created.subscribers(s) == mid.subs(s.index() as usize));
                assert(without(created.subscribers(s), effect.id) == old(rt).subscribers(s));
            }
            assert(rt.owner_effects(*self).last() == effect);
            assert(rt.last_reads(effect) == created.last_reads(effect));
            assert(rt.cleanup_log() == created.cleanup_log());
            assert forall|s: Signal| old(rt).has_signal(s) implies #[trigger] rt.value(s) == created.value(s) by {}
        }
        proof { use_type_invariant(&*rt); rt.lemma_tracks_reads(); }
    }

    /// Registers `f` to run once, when this scope is disposed, after its
    /// children are disposed and its effects stopped.
    pub fn on_cleanup<V: Clone, F: FnMut(&mut Tracker<'_, V>), C: FnOnce()>(&self, rt: &mut Runtime<V, F, C>, f: C)
        requires
            old(rt).has_owner(*self),
            cleanup_callable(f),
        ensures
            final(rt).owner_cleanup_count(*self) == old(rt).owner_cleanup_count(*self) + 1,
            final(rt).cleanups_run(*self) == old(rt).cleanups_run(*self),
            final(rt).owner_children(*self) == old(rt).owner_children(*self),
            final(rt).owner_effects(*self) == old(rt).owner_effects(*self),
            final(rt).owner_count() == old(rt).owner_count(),
            forall|o: Owner| old(rt).has_owner(o) && o != *self ==> #[trigger] same_owner(old(rt), final(rt), o),
            same_signals_and_effects(old(rt), final(rt)),
            tracks_reads(final(rt)),
    {
        let mut st = rt.take_state();
        st.adopt_cleanup(self.id, f);
        rt.st = st;
        proof {
            assert forall|o: Owner| old(rt).has_owner(o) && o != *self implies #[trigger] same_owner(old(rt), rt, o) by {
                assert(o.index() != self.index());
            }
        }
        proof { use_type_invariant(&*rt); rt.lemma_tracks_reads(); }
    }

    /// Disposes every child scope (in the order created, each with
    /// everything under it), then stops this scope's effects, then runs
    /// its cleanups in the order registered, each once. Disposing again is
    /// a no-op apart from running cleanups registered since.
    pub fn dispose<V: Clone, F: FnMut(&mut Tracker<'_, V>), C: FnOnce()>(&self, rt: &mut Runtime<V, F, C>)
        requires
            old(rt).has_owner(*self),
        ensures
            exists|scope: Set<Owner>| disposed(old(rt), final(rt), *self, scope),
            tracks_reads(final(rt)),
    {
        let mut st = rt.take_state();
        let ghost before = st;
        let scope = st.dispose(self.id);
        rt.st = st;
        proof {
            let d = scope@;
            let owners = Set::new(|q: Owner| d.contains(q.id));
            assert(owners.contains(*self));
            assert forall|q: Owner, i: int| #![trigger owners.contains(q), old(rt).owner_children(q)[i]]
                owners.contains(q) && 0 <= i < old(rt).owner_children(q).len()
                implies owners.contains(old(rt).owner_children(q)[i]) by {
                assert(old(rt).owner_children(q)[i] == Owner { id: before.owners@[q.id as int].children@[i] });
                assert(d.contains(before.owners@[q.id as int].children@[i]));
            }
            assert forall|q: Owner, i: int| #![trigger owners.contains(q), old(rt).owner_effects(q)[i]]
                owners.contains(q) && 0 <= i < old(rt).owner_effects(q).len()
                implies !rt.is_alive(old(rt).owner_effects(q)[i]) by {
                assert(old(rt).owner_effects(q)[i] == Effect { id: before.owners@[q.id as int].effects@[i] });
                assert(!rt.st.alive(before.owners@[q.id as int].effects@[i]));
            }
            assert forall|q: Owner| #[trigger] owners.contains(q) implies {
                &&& old(rt).has_owner(q)
                &&& rt.owner_children(q).len() == 0
                &&& rt.owner_effects(q).len() == 0
                &&& rt.owner_cleanup_count(q) == 0
                &&& rt.cleanups_run(q) == old(rt).cleanups_run(q) + old(rt).owner_cleanup_count(q)
            } by {
                assert(d.contains(q.id));
            }
            assert forall|q: Owner| #[trigger] owners.contains(q) && q != *self implies exists|p: Owner, i: int|
                owners.contains(p) && 0 <= i < old(rt).owner_children(p).len() && old(rt).owner_children(p)[i] == q by {
                assert(q.id != self.id);
                let (r, j) = choose|r: usize, j: int|
                    d.contains(r) && 0 <= j < before.owners@[r as int].children@.len()
                    && before.owners@[r as int].children@[j] == q.id;
                let p = Owner { id: r };
                assert(owners.contains(p));
                assert(old(rt).owner_children(p)[j] == Owner { id: before.owners@[r as int].children@[j] });
            }
            assert forall|o: Owner| old(rt).has_owner(o) && !owners.contains(o) implies #[trigger] same_owner(old(rt), rt, o) by {
                assert(!d.contains(o.id));
                assert(rt.st.owners@[o.index()] == before.owners@[o.index()]);
            }
            assert forall|e: Effect| old(rt).has_effect(e) && #[trigger] rt.is_alive(e) implies old(rt).is_alive(e) by {
                assert(before.alive(e.index() as usize));
            }
            assert forall|e: Effect| old(rt).has_effect(e) && old(rt).is_alive(e)
                && !(exists|q: Owner, i: int| owners.contains(q) && 0 <= i < old(rt).owner_effects(q).len() && #[trigger] old(rt).owner_effects(q)[i] == e)
                implies #[trigger] rt.is_alive(e) by {
                let f = e.index() as usize;
                if owns_effect(before.owners@, d, f) {
                    let (q, i) = choose|q: usize, i: int| d.contains(q) && 0 <= i < before.owners@[q as int].effects@.len()
                        && #[trigger] before.owners@[q as int].effects@[i] == f;
                    let qo = Owner { id: q };
                    assert(owners.contains(qo));
                    assert(old(rt).owner_effects(qo)[i] == Effect { id: f });
                    assert(Effect { id: f } == e);
                }
            }
            use_type_invariant(&*rt);
            rt.lemma_tracks_reads();
            assert forall|q: Owner, i: int, s: Signal| owners.contains(q) && 0 <= i < old(rt).owner_effects(q).len() && old(rt).has_signal(s)
                implies !#[trigger] rt.subscribers(s).contains(#[trigger] old(rt).owner_effects(q)[i].index() as usize) by {
                let x = old(rt).owner_effects(q)[i];
                assert(x == Effect { id: before.owners@[q.id as int].effects@[i] });
                assert(before.owner_ok(q.id as int));
                assert(rt.has_effect(x));
                assert(!rt.is_alive(x));
            }
            assert forall|q: Owner, i: int| owners.contains(q) && 0 <= i < old(rt).owner_effects(q).len()
                implies !rt.queued().contains(#[trigger] old(rt).owner_effects(q)[i].index() as usize) by {
                let x = old(rt).owner_effects(q)[i];
                assert(x == Effect { id: before.owners@[q.id as int].effects@[i] });
                assert(before.owner_ok(q.id as int));
                assert(rt.has_effect(x));
                assert(!rt.is_alive(x));
            }
            let c = before.owners@[self.id as int].cleanups@.len() as int;
            assert(old(rt).owner_cleanup_count(*self) == c);
            assert(old(rt).cleanup_log().is_prefix_of(rt.cleanup_log())) by {
                assert(old(rt).cleanup_log() =~= rt.cleanup_log().subrange(0, old(rt).cleanup_log().len() as int)) by {
                    assert forall|j: int| 0 <= j < old(rt).cleanup_log().len() implies
                        old(rt).cleanup_log()[j] == rt.cleanup_log().subrange(0, old(rt).cleanup_log().len() as int)[j] by {
                        assert(rt.st.cleaned@.subrange(0, before.cleaned@.len() as int)[j] == rt.st.cleaned@[j]);
                    }
                }
            }
            assert forall|i: int| rt.cleanup_log().len() - c <= i < rt.cleanup_log().len()
                implies #[trigger] rt.cleanup_log()[i] == *self by {
                assert(rt.st.cleaned@[i] == self.id);
            }
            assert forall|i: int| old(rt).cleanup_log().len() <= i < rt.cleanup_log().len() - c
                implies owners.contains(#[trigger] rt.cleanup_log()[i]) && rt.cleanup_log()[i] != *self by {
                assert(d.contains(rt.st.cleaned@[i]) && rt.st.cleaned@[i] != self.id);
            }
            assert(disposed(old(rt), rt, *self, owners));
        }
        proof { use_type_invariant(&*rt); rt.lemma_tracks_reads(); }
    }
}

/// A read right after a write gives the written value when no effect ran
/// in between: inside a batch, or when nothing subscribes to the signal
/// and nothing is queued.
pub proof fn lemma_write_then_read<V: Clone, F: FnMut(&mut Tracker<'_, V>), C: FnOnce()>(
    pre: &Runtime<V, F, C>,
    post: &Runtime<V, F, C>,
    signal: Signal,
    value: V,
)
    requires
        written(pre, post, signal, value),
        pre.batch_depth() > 0 || (pre.subscribers(signal).len() == 0 && pre.queued().len() == 0),
    ensures
        post.value(signal) == value,
{
}

/// A read after a write gives the written value unless an effect body
/// wrote the signal again while the write's subscribers ran.
pub proof fn lemma_write_survives_unless_rewritten<V: Clone, F: FnMut(&mut Tracker<'_, V>), C: FnOnce()>(
    pre: &Runtime<V, F, C>,
    post: &Runtime<V, F, C>,
    signal: Signal,
    value: V,
)
    requires
        pre.has_signal(signal),
        written(pre, post, signal, value),
        !post.effect_writes().skip(pre.effect_writes().len() as int).contains(signal.index() as usize),
    ensures
        post.value(signal) == value,
{
}

/// A write outside any batch, with nothing queued, whose subscribers'
/// runs write nothing runs each subscriber exactly once, in subscription
/// order, and nothing else; the signal then holds the written value.
pub proof fn lemma_write_runs_each_subscriber_once<V: Clone, F: FnMut(&mut Tracker<'_, V>), C: FnOnce()>(
    pre: &Runtime<V, F, C>,
    post: &Runtime<V, F, C>,
    signal: Signal,
    value: V,
)
    requires
        tracks_reads(pre),
        pre.has_signal(signal),
        written(pre, post, signal, value),
        pre.batch_depth() == 0,
        pre.queued().len() == 0,
        post.effect_writes() == pre.effect_writes(),
    ensures
        post.runs() == pre.runs() + pre.subscribers(signal),
        pre.subscribers(signal).no_duplicates(),
        post.queued().len() == 0,
        post.value(signal) == value,
{
    assert(pre.subscribers(signal) + pre.queued() =~= pre.subscribers(signal));
    assert(pre.runs() + pre.subscribers(signal) + pre.queued() =~= pre.runs() + pre.subscribers(signal));
    assert(post.effect_writes().skip(pre.effect_writes().len() as int) =~= Seq::<usize>::empty());
}

/// Closing the outermost batch, when the runs it makes write nothing,
/// runs every queued effect exactly once, in the order first queued, and
/// nothing else.
pub proof fn lemma_batch_runs_each_queued_once<V: Clone, F: FnMut(&mut Tracker<'_, V>), C: FnOnce()>(
    pre: &Runtime<V, F, C>,
    post: &Runtime<V, F, C>,
)
    requires
        tracks_reads(pre),
        batch_closed(pre, post),
        post.batch_depth() == 0,
        post.effect_writes() == pre.effect_writes(),
    ensures
        post.runs() == pre.runs() + pre.queued(),
        pre.queued().no_duplicates(),
        post.queued().len() == 0,
{
}

/// Once an owner is disposed, a write outside any batch whose runs write
/// nothing runs none of the effects that the disposed owners held.
pub proof fn lemma_disposed_effects_stay_silent<V: Clone, F: FnMut(&mut Tracker<'_, V>), C: FnOnce()>(
    pre: &Runtime<V, F, C>,
    mid: &Runtime<V, F, C>,
    post: &Runtime<V, F, C>,
    root: Owner,
    scope: Set<Owner>,
    signal: Signal,
    value: V,
    q: Owner,
    i: int,
)
    requires
        disposed(pre, mid, root, scope),
        mid.has_signal(signal),
        written(mid, post, signal, value),
        mid.batch_depth() == 0,
        post.effect_writes() == mid.effect_writes(),
        scope.contains(q),
        0 <= i < pre.owner_effects(q).len(),
    ensures
        !post.runs().skip(mid.runs().len() as int).contains(pre.owner_effects(q)[i].index() as usize),
{
    let x = pre.owner_effects(q)[i].index() as usize;
    let tail = post.runs().skip(mid.runs().len() as int);
    assert(tail =~= mid.subscribers(signal) + mid.queued());
    assert(!mid.subscribers(signal).contains(x));
    assert(!mid.queued().contains(x));
    if tail.contains(x) {
        let k = choose|k: int| 0 <= k < tail.len() && tail[k] == x;
        if k < mid.subscribers(signal).len() {
            assert(mid.subscribers(signal)[k] == x);
        } else {
            assert(mid.queued()[k - mid.subscribers(signal).len()] == x);
        }
    }
}

/// A write to a signal nobody subscribes to runs no effect.
pub proof fn lemma_unsubscribed_write_runs_nothing<V: Clone, F: FnMut(&mut Tracker<'_, V>), C: FnOnce()>(
    pre: &Runtime<V, F, C>,
    post: &Runtime<V, F, C>,
    signal: Signal,
    value: V,
)
    requires
        written(pre, post, signal, value),
        pre.subscribers(signal).len() == 0,
        pre.queued().len() == 0,
    ensures
        post.runs() == pre.runs(),
{
}

/// A write outside any batch runs every subscriber of the signal, each
/// once and in subscription order, before any other effect.
pub proof fn lemma_write_runs_subscribers<V: Clone, F: FnMut(&mut Tracker<'_, V>), C: FnOnce()>(
    pre: &Runtime<V, F, C>,
    post: &Runtime<V, F, C>,
    signal: Signal,
    value: V,
)
    requires
        written(pre, post, signal, value),
        pre.batch_depth() == 0,
    ensures
        forall|i: int| 0 <= i < pre.subscribers(signal).len()
            ==> #[trigger] post.runs()[pre.runs().len() + i] == pre.subscribers(signal)[i],
{
    assert forall|i: int| 0 <= i < pre.subscribers(signal).len()
        implies #[trigger] post.runs()[pre.runs().len() + i] == pre.subscribers(signal)[i] by {
        let lo = pre.runs().len() as int;
        let hi = lo + pre.subscribers(signal).len();
        assert(post.runs().subrange(lo, hi)[i] == post.runs()[lo + i]);
    }
}

/// A write outside any batch first re-runs exactly the live effects whose
/// latest run read the signal through [`Tracker::get`].
pub proof fn lemma_write_reruns_readers<V: Clone, F: FnMut(&mut Tracker<'_, V>), C: FnOnce()>(
    pre: &Runtime<V, F, C>,
    post: &Runtime<V, F, C>,
    signal: Signal,
    value: V,
)
    requires
        tracks_reads(pre),
        pre.has_signal(signal),
        written(pre, post, signal, value),
        pre.batch_depth() == 0,
    ensures
        forall|e: Effect| pre.has_effect(e) && pre.is_alive(e) ==> (
            #[trigger] pre.last_reads(e).contains(signal.index() as usize)
                <==> post.runs().subrange(pre.runs().len() as int, (pre.runs().len() + pre.subscribers(signal).len()) as int)
                    .contains(e.index() as usize)),
{
    assert forall|e: Effect| pre.has_effect(e) && pre.is_alive(e) implies (
        #[trigger] pre.last_reads(e).contains(signal.index() as usize)
            <==> post.runs().subrange(pre.runs().len() as int, (pre.runs().len() + pre.subscribers(signal).len()) as int)
                .contains(e.index() as usize)) by {
        assert(pre.subscribers(signal).contains(e.index() as usize) <==> pre.last_reads(e).contains(signal.index() as usize));
    }
}

/// Two writes inside a batch run nothing; every effect subscribed to
/// either signal is queued exactly once.
pub proof fn lemma_batched_writes_queue_once<V: Clone, F: FnMut(&mut Tracker<'_, V>), C: FnOnce()>(
    pre: &Runtime<V, F, C>,
    mid: &Runtime<V, F, C>,
    post: &Runtime<V, F, C>,
    first: Signal,
    first_value: V,
    second: Signal,
    second_value: V,
)
    requires
        pre.batch_depth() > 0,
        pre.queued().len() == 0,
        pre.has_signal(second),
        written(pre, mid, first, first_value),
        written(mid, post, second, second_value),
    ensures
        post.runs() == pre.runs(),
        post.queued().no_duplicates(),
        forall|e: usize| #[trigger] post.queued().contains(e)
            <==> (pre.subscribers(first).contains(e) || pre.subscribers(second).contains(e)),
{
    lemma_append_new(pre.queued(), pre.subscribers(first));
    lemma_append_new(mid.queued(), mid.subscribers(second));
    assert(mid.subscribers(second) == pre.subscribers(second));
}

/// Every cleanup registered with an owner runs exactly once: on the first
/// dispose that reaches the owner, and never again on a later one.
pub proof fn lemma_cleanups_run_once<V: Clone, F: FnMut(&mut Tracker<'_, V>), C: FnOnce()>(
    pre: &Runtime<V, F, C>,
    mid: &Runtime<V, F, C>,
    post: &Runtime<V, F, C>,
    root: Owner,
    first: Set<Owner>,
    second: Set<Owner>,
)
    requires
        disposed(pre, mid, root, first),
        disposed(mid, post, root, second),
    ensures
        forall|q: Owner| #[trigger] first.contains(q) ==> {
            &&& mid.cleanups_run(q) == pre.cleanups_run(q) + pre.owner_cleanup_count(q)
            &&& post.cleanups_run(q) == mid.cleanups_run(q)
        },
{
    assert forall|q: Owner| #[trigger] first.contains(q) implies post.cleanups_run(q) == mid.cleanups_run(q) by {
        if !second.contains(q) {
            assert(same_owner(mid, post, q));
        }
    }
}

} // verus!
