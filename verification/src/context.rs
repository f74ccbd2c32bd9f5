//! Scoped context values: a stack of scopes, each holding the values
//! provided while it was the innermost one. A lookup searches from the
//! innermost scope outward, and within a scope the latest value provided
//! under a key wins.
//!
//! Values are filed under a `u64` key that stands for what they are (the
//! kind of value a hook asks for); one stack holds values of one type `T`,
//! typically an enum of everything a UI provides.

use vstd::prelude::*;

verus! {

/// A stack of context scopes.
pub struct ContextStack<T> {
    frames: Vec<Vec<(u64, T)>>,
}

/// The value filed last under `key` in `frame`, if any.
pub open spec fn frame_lookup<T>(frame: Seq<(u64, T)>, key: u64) -> Option<T>
    decreases frame.len(),
{
    if frame.len() == 0 {
        None
    } else if frame.last().0 == key {
        Some(frame.last().1)
    } else {
        frame_lookup(frame.drop_last(), key)
    }
}

/// The value under `key` in the innermost scope that has one.
pub open spec fn lookup<T>(frames: Seq<Seq<(u64, T)>>, key: u64) -> Option<T>
    decreases frames.len(),
{
    if frames.len() == 0 {
        None
    } else {
        match frame_lookup(frames.last(), key) {
            Some(v) => Some(v),
            None => lookup(frames.drop_last(), key),
        }
    }
}

/// `frames` with a new, empty innermost scope.
pub open spec fn opened<T>(frames: Seq<Seq<(u64, T)>>) -> Seq<Seq<(u64, T)>> {
    frames.push(Seq::empty())
}

/// `frames` without its innermost scope (unchanged when there is none).
pub open spec fn closed<T>(frames: Seq<Seq<(u64, T)>>) -> Seq<Seq<(u64, T)>> {
    if frames.len() == 0 { frames } else { frames.drop_last() }
}

/// `frames` with `value` filed under `key` in the innermost scope.
pub open spec fn provided<T>(frames: Seq<Seq<(u64, T)>>, key: u64, value: T) -> Seq<Seq<(u64, T)>>
    recommends
        frames.len() > 0,
{
    frames.update(frames.len() - 1, frames.last().push((key, value)))
}

impl<T> View for ContextStack<T> {
    type V = Seq<Seq<(u64, T)>>;

    closed spec fn view(&self) -> Seq<Seq<(u64, T)>> {
        self.frames@.map_values(|f: Vec<(u64, T)>| f@)
    }
}

impl<T> ContextStack<T> {
    /// A stack with no scope open.
    pub fn new() -> (r: Self)
        ensures
            r@ == Seq::<Seq<(u64, T)>>::empty(),
    {
        let r = ContextStack { frames: Vec::new() };
        assert(r@ =~= Seq::<Seq<(u64, T)>>::empty());
        r
    }

    /// Opens a scope, runs `f` in it, and closes it again, whatever `f`
    /// did meanwhile; returns what `f` returned.
    pub fn with_context_scope<R, G: FnOnce(&mut Self) -> R>(&mut self, f: G) -> (result: R)
        requires
            forall|s: &mut Self| call_requires(f, (s,)),
        ensures
            exists|s: &mut Self| {
                &&& s@ == opened(old(self)@)
                &&& s@.len() == old(self)@.len() + 1
                &&& s@.last() == Seq::<(u64, T)>::empty()
                &&& call_ensures(f, (s,), result)
                &&& final(self)@ == closed(final(s)@)
                &&& final(s)@.len() == old(self)@.len() + 1 ==> final(self)@.len() == old(self)@.len()
                &&& final(s)@.len() == old(self)@.len() + 1 && final(s)@.subrange(0, old(self)@.len() as int) == old(self)@
                    ==> final(self)@ == old(self)@
            },
    {
        self.frames.push(Vec::new());
        assert(self@ =~= opened(old(self)@));
        let result = f(self);
        let ghost inner = self@;
        if self.frames.len() > 0 {
            let _ = self.frames.pop();
        }
        assert(self@ =~= closed(inner));
        proof {
            if inner.len() == old(self)@.len() + 1 && inner.subrange(0, old(self)@.len() as int) == old(self)@ {
                assert(self@ =~= old(self)@);
            }
        }
        result
    }

    /// Whether a scope is open.
    pub fn in_context_scope(&self) -> (r: bool)
        ensures
            r == (self@.len() > 0),
    {
        self.frames.len() > 0
    }

    /// Checks that a scope is open before a hook named `hook_name` runs;
    /// hooks only work while a scope is open, so callers must hold one.
    pub fn require_context_scope(&self, hook_name: &str)
        requires
            self@.len() > 0,
    {
        let _ = hook_name;
    }

    /// Files `value` under `key` in the innermost scope, for the rest of
    /// that scope.
    pub fn provide_context(&mut self, key: u64, value: T)
        requires
            old(self)@.len() > 0,
        ensures
            final(self)@ == provided(old(self)@, key, value),
    {
        let last = self.frames.len() - 1;
        let mut frame: Vec<(u64, T)> = Vec::new();
        std::mem::swap(&mut frame, &mut self.frames[last]);
        frame.push((key, value));
        self.frames.set(last, frame);
        assert(self@ =~= provided(old(self)@, key, value));
    }
}

impl<T: Clone> ContextStack<T> {
    /// The value under `key` in the innermost scope that has one, or
    /// `None` (also when no scope is open).
    pub fn try_use_context(&self, key: u64) -> (r: Option<T>)
        ensures
            r is None <==> lookup(self@, key) is None,
            r is Some ==> cloned::<T>(lookup(self@, key)->0, r->0),
    {
        let mut i = self.frames.len();
        assert(self@.subrange(0, i as int) =~= self@);
        while i > 0
            invariant
                i <= self@.len(),
                self@.len() == self.frames@.len(),
                lookup(self@, key) == lookup(self@.subrange(0, i as int), key),
            decreases i,
        {
            let frame = &self.frames[i - 1];
            let ghost outer = self@.subrange(0, i - 1);
            assert(self@.subrange(0, i as int).drop_last() =~= outer);
            assert(self@.subrange(0, i as int).last() == frame@);
            let mut j = frame.len();
            assert(frame@.subrange(0, j as int) =~= frame@);
            while j > 0
                invariant
                    j <= frame@.len(),
                    frame_lookup(frame@, key) == frame_lookup(frame@.subrange(0, j as int), key),
                    lookup(self@, key) == (match frame_lookup(frame@, key) {
                        Some(v) => Some(v),
                        None => lookup(outer, key),
                    }),
                decreases j,
            {
                let ghost part = frame@.subrange(0, j as int);
                assert(part.drop_last() =~= frame@.subrange(0, j - 1));
                if frame[j - 1].0 == key {
                    return Some(frame[j - 1].1.clone());
                }
                j = j - 1;
            }
            assert(frame@.subrange(0, 0) =~= Seq::<(u64, T)>::empty());
            i = i - 1;
        }
        assert(self@.subrange(0, 0) =~= Seq::<Seq<(u64, T)>>::empty());
        None
    }

    /// The value under `key` in the innermost scope that has one; a caller
    /// must know that some open scope holds one.
    pub fn use_context(&self, key: u64) -> (r: T)
        requires
            lookup(self@, key) is Some,
        ensures
            cloned::<T>(lookup(self@, key)->0, r),
    {
        self.try_use_context(key).unwrap()
    }
}

/// Outside every scope nothing is found.
pub proof fn lemma_nothing_outside_scopes<T>(key: u64)
    ensures
        lookup(Seq::<Seq<(u64, T)>>::empty(), key) is None,
{
}

/// A value just provided is what a lookup of its key finds.
pub proof fn lemma_provided_is_found<T>(frames: Seq<Seq<(u64, T)>>, key: u64, value: T)
    requires
        frames.len() > 0,
    ensures
        lookup(provided(frames, key, value), key) == Some(value),
{
    let p = provided(frames, key, value);
    assert(p.last() == frames.last().push((key, value)));
}

/// Providing under one key leaves what every other key finds unchanged.
pub proof fn lemma_provided_keeps_other_keys<T>(frames: Seq<Seq<(u64, T)>>, key: u64, value: T, other: u64)
    requires
        frames.len() > 0,
        other != key,
    ensures
        lookup(provided(frames, key, value), other) == lookup(frames, other),
{
    let p = provided(frames, key, value);
    assert(p.last().drop_last() =~= frames.last());
    assert(p.drop_last() =~= frames.drop_last());
}

/// Inside a nested scope, a key the scope provided shadows the outer
/// value; other keys fall back to the enclosing scopes.
pub proof fn lemma_inner_scope_shadows<T>(frames: Seq<Seq<(u64, T)>>, inner: Seq<(u64, T)>, key: u64)
    ensures
        lookup(opened(frames).update(frames.len() as int, inner), key) == (match frame_lookup(inner, key) {
            Some(v) => Some(v),
            None => lookup(frames, key),
        }),
{
    let s = opened(frames).update(frames.len() as int, inner);
    assert(s.drop_last() =~= frames);
}

/// Closing a scope restores the enclosing scopes exactly as they were
/// when it opened, whatever it provided meanwhile.
pub proof fn lemma_scope_restores<T>(frames: Seq<Seq<(u64, T)>>, inner: Seq<(u64, T)>)
    ensures
        closed(opened(frames).update(frames.len() as int, inner)) == frames,
{
    assert(opened(frames).update(frames.len() as int, inner).drop_last() =~= frames);
}

} // verus!
