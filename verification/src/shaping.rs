//! A least-recently-used cache of shaped text runs, keyed by everything
//! that decides a run's shape, so unchanged text is shaped once instead of
//! on every measurement and every paint.

use vstd::prelude::*;

verus! {

/// What a run is looked up by: its text, the bit patterns of its font size
/// and wrap width, its font family and whether it is bold.
pub type ShapeKeyView = (Seq<char>, u32, u32, Seq<char>, bool);

struct ShapeKey {
    text: String,
    font_size_bits: u32,
    max_width_bits: u32,
    family: String,
    bold: bool,
}

impl View for ShapeKey {
    type V = ShapeKeyView;

    closed spec fn view(&self) -> ShapeKeyView {
        (self.text@, self.font_size_bits, self.max_width_bits, self.family@, self.bold)
    }
}

fn same_key(a: &ShapeKey, b: &ShapeKey) -> (r: bool)
    ensures
        r == (a@ == b@),
{
    a.font_size_bits == b.font_size_bits && a.max_width_bits == b.max_width_bits && a.bold == b.bold
        && a.text == b.text && a.family == b.family
}

/// Entries a cache made with [`ShapeCache::new`] holds at most.
pub const DEFAULT_CAPACITY: usize = 512;

/// `k` is the entry, among those `stamps` records, used least recently.
pub open spec fn least_recent(stamps: Map<ShapeKeyView, u64>, k: ShapeKeyView) -> bool {
    &&& stamps.contains_key(k)
    &&& forall|j: ShapeKeyView| #[trigger] stamps.contains_key(j) ==> stamps[k] <= stamps[j]
}

struct Slots<V> {
    keys: Vec<ShapeKey>,
    runs: Vec<V>,
    last_used: Vec<u64>,
    capacity: usize,
    clock: u64,
}

impl<V> Slots<V> {
    spec fn wf(&self) -> bool {
        &&& self.runs@.len() == self.keys@.len()
        &&& self.last_used@.len() == self.keys@.len()
        &&& 1 <= self.capacity
        &&& self.keys@.len() <= self.capacity
        &&& forall|i: int, j: int| 0 <= i < j < self.keys@.len() ==> #[trigger] self.keys@[i]@ != #[trigger] self.keys@[j]@
        &&& forall|i: int| 0 <= i < self.keys@.len() ==> #[trigger] self.last_used@[i] <= self.clock
        &&& forall|i: int, j: int| 0 <= i < j < self.keys@.len()
            ==> #[trigger] self.last_used@[i] != #[trigger] self.last_used@[j]
    }

    spec fn holds(&self, k: ShapeKeyView) -> bool {
        exists|i: int| 0 <= i < self.keys@.len() && #[trigger] self.keys@[i]@ == k
    }

    spec fn slot(&self, k: ShapeKeyView) -> int {
        choose|i: int| 0 <= i < self.keys@.len() && #[trigger] self.keys@[i]@ == k
    }

    spec fn cached(&self) -> Map<ShapeKeyView, V> {
        Map::new(|k: ShapeKeyView| self.holds(k), |k: ShapeKeyView| self.runs@[self.slot(k)])
    }

    spec fn stamps(&self) -> Map<ShapeKeyView, u64> {
        Map::new(|k: ShapeKeyView| self.holds(k), |k: ShapeKeyView| self.last_used@[self.slot(k)])
    }

    /// The entry at `i` is the one its key finds.
    proof fn lemma_slot(&self, i: int)
        requires
            self.wf(),
            0 <= i < self.keys@.len(),
        ensures
            self.holds(self.keys@[i]@),
            self.slot(self.keys@[i]@) == i,
            self.cached().contains_key(self.keys@[i]@),
            self.cached()[self.keys@[i]@] == self.runs@[i],
            self.stamps().contains_key(self.keys@[i]@),
            self.stamps()[self.keys@[i]@] == self.last_used@[i],
    {
        let k = self.keys@[i]@;
        assert(self.holds(k));
        let j = self.slot(k);
        if j != i {
            if j < i {
                assert(self.keys@[j]@ != self.keys@[i]@);
            } else {
                assert(self.keys@[i]@ != self.keys@[j]@);
            }
        }
    }

    fn empty(capacity: usize) -> (r: Self)
        requires
            1 <= capacity,
        ensures
            r.wf(),
            r.keys@.len() == 0,
            r.capacity == capacity,
            r.clock == 0,
            r.cached() == Map::<ShapeKeyView, V>::empty(),
            r.stamps() == Map::<ShapeKeyView, u64>::empty(),
    {
        let r = Slots { keys: Vec::new(), runs: Vec::new(), last_used: Vec::new(), capacity, clock: 0 };
        assert(r.cached() =~= Map::<ShapeKeyView, V>::empty());
        assert(r.stamps() =~= Map::<ShapeKeyView, u64>::empty());
        r
    }

    /// Index of the entry for `key`, if cached.
    fn find(&self, key: &ShapeKey) -> (r: Option<usize>)
        ensures
            match r {
                Some(i) => i < self.keys@.len() && self.keys@[i as int]@ == key@,
                None => !self.holds(key@),
            },
    {
        let mut i: usize = 0;
        while i < self.keys.len()
            invariant
                i <= self.keys@.len(),
                forall|j: int| 0 <= j < i ==> #[trigger] self.keys@[j]@ != key@,
            decreases self.keys@.len() - i,
        {
            if same_key(&self.keys[i], key) {
                return Some(i);
            }
            i = i + 1;
        }
        None
    }

    /// Marks entry `i` as used at the current clock, which no other entry
    /// was last used at.
    fn touch(&mut self, i: usize)
        requires
            old(self).wf(),
            i < old(self).keys@.len(),
            forall|j: int| 0 <= j < old(self).keys@.len() ==> #[trigger] old(self).last_used@[j] < old(self).clock,
        ensures
            final(self).wf(),
            final(self).keys@ == old(self).keys@,
            final(self).runs@ == old(self).runs@,
            final(self).capacity == old(self).capacity,
            final(self).clock == old(self).clock,
            final(self).cached() == old(self).cached(),
            final(self).stamps() == old(self).stamps().insert(old(self).keys@[i as int]@, old(self).clock),
    {
        let ghost pre = *self;
        let clock = self.clock;
        self.last_used.set(i, clock);
        proof {
            assert(self.cached() =~= pre.cached());
            let k = pre.keys@[i as int]@;
            self.lemma_slot(i as int);
            assert forall|q: ShapeKeyView| #[trigger] self.stamps().contains_key(q) <==> pre.stamps().insert(k, clock).contains_key(q) by {}
            assert forall|q: ShapeKeyView| self.stamps().contains_key(q) implies #[trigger] self.stamps()[q] == pre.stamps().insert(k, clock)[q] by {
                if q != k {
                    let j = self.slot(q);
                    assert(self.keys@[j]@ == q);
                    assert(j != i);
                }
            }
            assert(self.stamps() =~= pre.stamps().insert(k, clock));
        }
    }

    /// Drops entry `i`.
    fn evict(&mut self, i: usize)
        requires
            old(self).wf(),
            i < old(self).keys@.len(),
        ensures
            final(self).wf(),
            final(self).keys@.len() == old(self).keys@.len() - 1,
            final(self).capacity == old(self).capacity,
            final(self).clock == old(self).clock,
            final(self).cached() == old(self).cached().remove(old(self).keys@[i as int]@),
            final(self).stamps() == old(self).stamps().remove(old(self).keys@[i as int]@),
            forall|j: int| 0 <= j < final(self).keys@.len()
                ==> #[trigger] final(self).last_used@[j] == old(self).last_used@[if j < i { j } else { j + 1 }],
    {
        let ghost pre = *self;
        let ghost k = pre.keys@[i as int]@;
        self.keys.remove(i);
        self.runs.remove(i);
        self.last_used.remove(i);
        proof {
            let n = pre.keys@.len() as int;
            assert forall|j: int| 0 <= j < n - 1 implies #[trigger] self.keys@[j] == pre.keys@[if j < i { j } else { j + 1 }] by {}
            assert forall|a: int, b: int| 0 <= a < b < self.keys@.len() implies #[trigger] self.keys@[a]@ != #[trigger] self.keys@[b]@ by {
                let a0 = if a < i { a } else { a + 1 };
                let b0 = if b < i { b } else { b + 1 };
                assert(pre.keys@[a0]@ != pre.keys@[b0]@);
            }
            assert forall|a: int, b: int| 0 <= a < b < self.keys@.len() implies #[trigger] self.last_used@[a] != #[trigger] self.last_used@[b] by {
                let a0 = if a < i { a } else { a + 1 };
                let b0 = if b < i { b } else { b + 1 };
                assert(pre.last_used@[a0] != pre.last_used@[b0]);
            }
            assert forall|j: int| 0 <= j < self.keys@.len() implies #[trigger] self.last_used@[j] <= self.clock by {
                let j0 = if j < i { j } else { j + 1 };
                assert(pre.last_used@[j0] <= pre.clock);
            }
            assert forall|q: ShapeKeyView| #[trigger] self.holds(q) <==> (pre.holds(q) && q != k) by {
                if self.holds(q) {
                    let j = choose|j: int| 0 <= j < self.keys@.len() && #[trigger] self.keys@[j]@ == q;
                    let j0 = if j < i { j } else { j + 1 };
                    assert(pre.keys@[j0]@ == q);
                    assert(j0 != i);
                    if j0 < i {
                        assert(pre.keys@[j0]@ != pre.keys@[i as int]@);
                    } else {
                        assert(pre.keys@[i as int]@ != pre.keys@[j0]@);
                    }
                }
                if pre.holds(q) && q != k {
                    let j0 = choose|j: int| 0 <= j < pre.keys@.len() && #[trigger] pre.keys@[j]@ == q;
                    assert(j0 != i);
                    let j = if j0 < i { j0 } else { j0 - 1 };
                    assert(self.keys@[j]@ == q);
                }
            }
            assert forall|q: ShapeKeyView| self.holds(q) implies
                #[trigger] self.runs@[self.slot(q)] == pre.runs@[pre.slot(q)] && self.last_used@[self.slot(q)] == pre.last_used@[pre.slot(q)] by {
                let j = self.slot(q);
                let j0 = if j < i { j } else { j + 1 };
                assert(pre.keys@[j0]@ == q);
                pre.lemma_slot(j0);
            }
            assert(self.cached() =~= pre.cached().remove(k));
            assert(self.stamps() =~= pre.stamps().remove(k));
        }
    }

    /// Caches `run` for `key`, used at the current clock.
    fn add(&mut self, key: ShapeKey, run: V)
        requires
            old(self).wf(),
            !old(self).holds(key@),
            old(self).keys@.len() < old(self).capacity,
            forall|j: int| 0 <= j < old(self).keys@.len() ==> #[trigger] old(self).last_used@[j] < old(self).clock,
        ensures
            final(self).wf(),
            final(self).keys@.len() == old(self).keys@.len() + 1,
            final(self).capacity == old(self).capacity,
            final(self).clock == old(self).clock,
            final(self).cached() == old(self).cached().insert(key@, run),
            final(self).stamps() == old(self).stamps().insert(key@, old(self).clock),
    {
        let ghost pre = *self;
        let ghost k = key@;
        let clock = self.clock;
        self.keys.push(key);
        self.runs.push(run);
        self.last_used.push(clock);
        proof {
            let n = pre.keys@.len() as int;
            assert forall|a: int, b: int| 0 <= a < b < self.keys@.len() implies #[trigger] self.keys@[a]@ != #[trigger] self.keys@[b]@ by {
                if b == n {
                    assert(self.keys@[a] == pre.keys@[a]);
                } else {
                    assert(self.keys@[a] == pre.keys@[a] && self.keys@[b] == pre.keys@[b]);
                }
            }
            assert forall|a: int, b: int| 0 <= a < b < self.keys@.len() implies #[trigger] self.last_used@[a] != #[trigger] self.last_used@[b] by {
                if b == n {
                    assert(self.last_used@[a] == pre.last_used@[a]);
                }
            }
            assert forall|q: ShapeKeyView| #[trigger] self.holds(q) <==> (pre.holds(q) || q == k) by {
                if self.holds(q) && q != k {
                    let j = choose|j: int| 0 <= j < self.keys@.len() && #[trigger] self.keys@[j]@ == q;
                    assert(j != n);
                    assert(pre.keys@[j]@ == q);
                }
                if pre.holds(q) {
                    let j = choose|j: int| 0 <= j < pre.keys@.len() && #[trigger] pre.keys@[j]@ == q;
                    assert(self.keys@[j]@ == q);
                }
                if q == k {
                    assert(self.keys@[n]@ == q);
                }
            }
            self.lemma_slot(n);
            assert forall|q: ShapeKeyView| self.holds(q) && q != k implies
                #[trigger] self.runs@[self.slot(q)] == pre.runs@[pre.slot(q)] && self.last_used@[self.slot(q)] == pre.last_used@[pre.slot(q)] by {
                let j = self.slot(q);
                assert(j != n);
                assert(pre.keys@[j]@ == q);
                pre.lemma_slot(j);
            }
            assert(self.cached() =~= pre.cached().insert(k, run));
            assert(self.stamps() =~= pre.stamps().insert(k, clock));
        }
    }

    /// Index of the entry used least recently; there must be one.
    fn oldest(&self) -> (r: usize)
        requires
            self.keys@.len() > 0,
            self.last_used@.len() == self.keys@.len(),
        ensures
            r < self.keys@.len(),
            forall|j: int| 0 <= j < self.keys@.len() ==> self.last_used@[r as int] <= #[trigger] self.last_used@[j],
    {
        let mut best: usize = 0;
        let mut i: usize = 1;
        while i < self.last_used.len()
            invariant
                self.last_used@.len() == self.keys@.len(),
                1 <= i <= self.keys@.len(),
                best < i,
                forall|j: int| 0 <= j < i ==> self.last_used@[best as int] <= #[trigger] self.last_used@[j],
            decreases self.keys@.len() - i,
        {
            if self.last_used[i] < self.last_used[best] {
                best = i;
            }
            i = i + 1;
        }
        best
    }
}

/// What one lookup of `key` did to the cache, `run` being the run it
/// returned: the clock advanced by one and `key` is cached, last used now.
/// A hit returns a copy of the cached run and leaves the runs as they were;
/// a miss caches a copy of `run`, in place of the entry used least recently
/// when the cache was full.
pub open spec fn shaped<V: Clone>(pre: &ShapeCache<V>, post: &ShapeCache<V>, key: ShapeKeyView, run: V) -> bool {
    &&& post.clock() == pre.clock() + 1
    &&& post.limit() == pre.limit()
    &&& post.size() <= post.limit()
    &&& post.cached().contains_key(key)
    &&& pre.cached().contains_key(key) ==> {
        &&& cloned::<V>(pre.cached()[key], run)
        &&& post.cached() == pre.cached()
        &&& post.stamps() == pre.stamps().insert(key, post.clock() as u64)
        &&& post.size() == pre.size()
    }
    &&& !pre.cached().contains_key(key) ==> {
        &&& cloned::<V>(run, post.cached()[key])
        &&& pre.size() < pre.limit() ==> {
            &&& post.cached() == pre.cached().insert(key, post.cached()[key])
            &&& post.stamps() == pre.stamps().insert(key, post.clock() as u64)
            &&& post.size() == pre.size() + 1
        }
        &&& pre.size() >= pre.limit() ==> exists|gone: ShapeKeyView| {
            &&& least_recent(pre.stamps(), gone)
            &&& post.cached() == pre.cached().remove(gone).insert(key, post.cached()[key])
            &&& post.stamps() == pre.stamps().remove(gone).insert(key, post.clock() as u64)
            &&& post.size() == pre.size()
        }
    }
}

/// Looking the same key up twice in a row hits the cache the second time:
/// the second lookup returns a copy of what the first left cached, and
/// neither the cached runs nor their number change.
pub proof fn lemma_repeat_lookup_hits<V: Clone>(
    pre: &ShapeCache<V>,
    mid: &ShapeCache<V>,
    post: &ShapeCache<V>,
    key: ShapeKeyView,
    first: V,
    second: V,
)
    requires
        shaped(pre, mid, key, first),
        shaped(mid, post, key, second),
    ensures
        cloned::<V>(mid.cached()[key], second),
        post.cached() == mid.cached(),
        post.size() == mid.size(),
{
}

/// A lookup never evicts an entry used more recently than another cached
/// entry: with two or more entries, the one used last stays cached.
pub proof fn lemma_eviction_spares_recent<V: Clone>(
    pre: &ShapeCache<V>,
    post: &ShapeCache<V>,
    key: ShapeKeyView,
    run: V,
    kept: ShapeKeyView,
    older: ShapeKeyView,
)
    requires
        shaped(pre, post, key, run),
        pre.cached().contains_key(kept),
        pre.cached().contains_key(older),
        pre.stamps()[older] < pre.stamps()[kept],
    ensures
        post.cached().contains_key(kept),
{
    pre.lemma_stamped_keys();
    assert(pre.stamps().contains_key(older));
}

/// An LRU cache from a [`ShapeKeyView`] to the shaped run `V` made for it.
/// A hit refreshes the entry's use; a miss past capacity evicts the entry
/// used least recently.
pub struct ShapeCache<V> {
    slots: Slots<V>,
}

impl<V> ShapeCache<V> {
    #[verifier::type_invariant]
    spec fn inv(self) -> bool {
        self.slots.wf()
    }

    /// The run cached for each key.
    pub closed spec fn cached(&self) -> Map<ShapeKeyView, V> {
        self.slots.cached()
    }

    /// When each cached key was last used, on the cache's clock.
    pub closed spec fn stamps(&self) -> Map<ShapeKeyView, u64> {
        self.slots.stamps()
    }

    /// Number of cached runs.
    pub closed spec fn size(&self) -> nat {
        self.slots.keys@.len()
    }

    /// Every cached key has a stamp, and only those.
    pub proof fn lemma_stamped_keys(&self)
        ensures
            self.cached().dom() == self.stamps().dom(),
    {
        assert(self.cached().dom() =~= self.stamps().dom());
    }

    /// Most runs the cache holds.
    pub closed spec fn limit(&self) -> nat {
        self.slots.capacity as nat
    }

    /// Number of lookups made so far.
    pub closed spec fn clock(&self) -> nat {
        self.slots.clock as nat
    }

    /// An empty cache holding up to [`DEFAULT_CAPACITY`] runs.
    pub fn new() -> (cache: Self)
        ensures
            cache.limit() == DEFAULT_CAPACITY,
            cache.size() == 0,
            cache.clock() == 0,
            cache.cached() == Map::<ShapeKeyView, V>::empty(),
            cache.stamps() == Map::<ShapeKeyView, u64>::empty(),
    {
        ShapeCache::with_capacity(DEFAULT_CAPACITY)
    }

    /// An empty cache holding up to `capacity` runs (at least one).
    pub fn with_capacity(capacity: usize) -> (cache: Self)
        ensures
            cache.limit() == if capacity == 0 { 1 } else { capacity },
            cache.size() == 0,
            cache.clock() == 0,
            cache.cached() == Map::<ShapeKeyView, V>::empty(),
            cache.stamps() == Map::<ShapeKeyView, u64>::empty(),
    {
        ShapeCache { slots: Slots::empty(if capacity == 0 { 1 } else { capacity }) }
    }

    pub fn len(&self) -> (r: usize)
        ensures
            r == self.size(),
    {
        self.slots.keys.len()
    }

    /// The run for `(text, font_size_bits, max_width_bits, family, bold)`:
    /// the cached one when there is one, whose use is then refreshed;
    /// otherwise the one `make` returns, a copy of which is cached, in
    /// place of the entry used least recently when the cache is full.
    pub fn shape<F: FnOnce() -> V>(
        &mut self,
        text: &str,
        font_size_bits: u32,
        max_width_bits: u32,
        family: &str,
        bold: bool,
        make: F,
    ) -> (run: V)
        where V: Clone,
        requires
            old(self).clock() < u64::MAX,
            call_requires(make, ()),
        ensures
            shaped(old(self), final(self), (text@, font_size_bits, max_width_bits, family@, bold), run),
            !old(self).cached().contains_key((text@, font_size_bits, max_width_bits, family@, bold))
                ==> call_ensures(make, (), run),
    {
        proof { use_type_invariant(&*self); }
        let key = ShapeKey {
            text: text.to_owned(),
            font_size_bits,
            max_width_bits,
            family: family.to_owned(),
            bold,
        };
        let ghost k = key@;
        let mut slots = Slots::empty(1);
        std::mem::swap(&mut slots, &mut self.slots);
        let ghost pre = slots;
        slots.clock = slots.clock + 1;
        proof {
            assert(slots.cached() =~= pre.cached());
            assert(slots.stamps() =~= pre.stamps());
            assert forall|j: int| 0 <= j < slots.keys@.len() implies #[trigger] slots.last_used@[j] < slots.clock by {
                assert(pre.last_used@[j] <= pre.clock);
            }
        }
        match slots.find(&key) {
            Some(i) => {
                proof { pre.lemma_slot(i as int); }
                slots.touch(i);
                let run = slots.runs[i].clone();
                self.slots = slots;
                run
            },
            None => {
                let run = make();
                let ghost mut gone = k;
                if slots.keys.len() >= slots.capacity {
                    let j = slots.oldest();
                    proof {
                        pre.lemma_slot(j as int);
                        gone = pre.keys@[j as int]@;
                        assert forall|q: ShapeKeyView| #[trigger] pre.stamps().contains_key(q) implies pre.stamps()[gone] <= pre.stamps()[q] by {
                            let m = pre.slot(q);
                            pre.lemma_slot(m);
                        }
                        assert(least_recent(pre.stamps(), gone));
                    }
                    slots.evict(j);
                }
                let ghost trimmed = slots;
                proof {
                    assert(!slots.cached().contains_key(k));
                    assert forall|j: int| 0 <= j < slots.keys@.len() implies #[trigger] slots.last_used@[j] < slots.clock by {}
                }
                let copy = run.clone();
                slots.add(key, copy);
                self.slots = slots;
                proof {
                    assert(self.cached() == trimmed.cached().insert(k, copy));
                    assert(self.cached()[k] == copy);
                    assert(cloned::<V>(run, copy));
                    assert(call_ensures(make, (), run));
                    assert(old(self).cached() == pre.cached());
                    assert(old(self).stamps() == pre.stamps());
                    assert(k == (text@, font_size_bits, max_width_bits, family@, bold));
                    assert(self.clock() as u64 == slots.clock);
                    if pre.keys@.len() >= pre.capacity {
                        assert(self.cached() == pre.cached().remove(gone).insert(k, copy));
                        assert(self.stamps() == pre.stamps().remove(gone).insert(k, slots.clock));
                        assert(self.size() == pre.keys@.len());
                        assert(least_recent(old(self).stamps(), gone));
                        assert(self.stamps() == old(self).stamps().remove(gone).insert(k, self.clock() as u64));
                    } else {
                        assert(self.cached() == pre.cached().insert(k, copy));
                        assert(self.stamps() == pre.stamps().insert(k, slots.clock));
                        assert(self.size() == pre.keys@.len() + 1);
                    }
                }
                run
            },
        }
    }

    pub fn is_empty(&self) -> (r: bool)
        ensures
            r == (self.size() == 0),
    {
        self.slots.keys.len() == 0
    }
}

/// What a text layout is looked up by: the font face, the text, the bit
/// patterns of its size and box width, and its alignment.
pub type LayoutKeyView = (u64, Seq<char>, u32, u32, u8);

/// A layout cache advances its frame counter by one per frame and, every
/// this many frames, drops what it has not used for a while.
pub const EVICT_EVERY_FRAMES: u64 = 120;

/// Frames a cached layout may go unused before an eviction drops it.
pub const EVICT_UNUSED_FOR_FRAMES: u64 = 600;

struct LayoutEntry<L> {
    face: u64,
    text: String,
    size_bits: u32,
    width_bits: u32,
    align: u8,
    layout: L,
    used: u64,
}

impl<L> LayoutEntry<L> {
    spec fn key(&self) -> LayoutKeyView {
        (self.face, self.text@, self.size_bits, self.width_bits, self.align)
    }

    spec fn entry(&self) -> (LayoutKeyView, L, u64) {
        (self.key(), self.layout, self.used)
    }
}

/// Each entry as its key, layout and last use.
spec fn views<L>(entries: Seq<LayoutEntry<L>>) -> Seq<(LayoutKeyView, L, u64)> {
    entries.map_values(|e: LayoutEntry<L>| e.entry())
}

/// No key occurs twice among `entries`.
pub open spec fn distinct_keys<L>(entries: Seq<(LayoutKeyView, L, u64)>) -> bool {
    forall|i: int, j: int| 0 <= i < j < entries.len() ==> #[trigger] entries[i].0 != #[trigger] entries[j].0
}

/// The first frame an eviction at frame `frame` keeps layouts used in.
pub open spec fn horizon(frame: u64) -> u64 {
    if frame >= EVICT_UNUSED_FOR_FRAMES { (frame - EVICT_UNUSED_FOR_FRAMES) as u64 } else { 0 }
}

/// Whether a cached entry was used at or after the horizon of `frame`.
pub open spec fn recent_at<L>(frame: u64) -> spec_fn((LayoutKeyView, L, u64)) -> bool {
    |e: (LayoutKeyView, L, u64)| e.2 >= horizon(frame)
}

/// Memoized text layouts, each stamped with the frame it was last used
/// in: a repeated request within the cache's lifetime reuses the layout
/// made for it, and layouts unused for [`EVICT_UNUSED_FOR_FRAMES`] frames
/// are dropped at the next eviction.
pub struct LayoutCache<L> {
    entries: Vec<LayoutEntry<L>>,
    frame: u64,
}

impl<L> LayoutCache<L> {
    /// The cached layouts, in the order first made: key, layout, and the
    /// frame each was last used in.
    pub closed spec fn entries(&self) -> Seq<(LayoutKeyView, L, u64)> {
        views(self.entries@)
    }

    /// The current frame.
    pub closed spec fn frame(&self) -> u64 {
        self.frame
    }

    #[verifier::type_invariant]
    spec fn inv(&self) -> bool {
        distinct_keys(self.entries())
    }

    /// An empty cache at frame 0.
    pub fn new() -> (r: Self)
        ensures
            r.entries() == Seq::<(LayoutKeyView, L, u64)>::empty(),
            r.frame() == 0,
    {
        let r = LayoutCache { entries: Vec::new(), frame: 0 };
        proof { assert(r.entries() =~= Seq::<(LayoutKeyView, L, u64)>::empty()); }
        r
    }

    /// Number of cached layouts.
    pub fn len(&self) -> (n: usize)
        ensures
            n == self.entries().len(),
    {
        self.entries.len()
    }

    /// The layout for the given request: the cached one, stamped with the
    /// current frame, or else the one `make` makes, which is cached.
    pub fn layout<F: FnOnce() -> L>(
        &mut self,
        face: u64,
        text: &str,
        size_bits: u32,
        width_bits: u32,
        align: u8,
        make: F,
    ) -> (r: L)
        where L: Clone,
        requires
            call_requires(make, ()),
        ensures
            final(self).frame() == old(self).frame(),
            distinct_keys(final(self).entries()),
            ({
                let k = (face, text@, size_bits, width_bits, align);
                if exists|i: int| 0 <= i < old(self).entries().len() && #[trigger] old(self).entries()[i].0 == k {
                    exists|i: int| {
                        &&& 0 <= i < old(self).entries().len()
                        &&& #[trigger] old(self).entries()[i].0 == k
                        &&& final(self).entries() == old(self).entries().update(i, (k, old(self).entries()[i].1, old(self).frame()))
                        &&& cloned::<L>(old(self).entries()[i].1, r)
                    }
                } else {
                    &&& call_ensures(make, (), r)
                    &&& final(self).entries().len() == old(self).entries().len() + 1
                    &&& final(self).entries().drop_last() == old(self).entries()
                    &&& final(self).entries().last().0 == k
                    &&& final(self).entries().last().2 == old(self).frame()
                    &&& cloned::<L>(r, final(self).entries().last().1)
                }
            }),
    {
        proof { use_type_invariant(&*self); }
        let ghost k = (face, text@, size_bits, width_bits, align);
        let ghost pre = self.entries();
        let wanted = text.to_owned();
        let mut i: usize = 0;
        while i < self.entries.len()
            invariant
                i <= self.entries@.len(),
                *self == *old(self),
                pre == self.entries(),
                distinct_keys(pre),
                wanted@ == text@,
                k == (face, text@, size_bits, width_bits, align),
                forall|j: int| 0 <= j < i ==> #[trigger] pre[j].0 != k,
            decreases self.entries@.len() - i,
        {
            proof { assert(pre[i as int] == self.entries@[i as int].entry()); }
            let e = &self.entries[i];
            if e.face == face && e.size_bits == size_bits && e.width_bits == width_bits && e.align == align
                && e.text == wanted {
                let frame = self.frame;
                let mut entries: Vec<LayoutEntry<L>> = Vec::new();
                std::mem::swap(&mut entries, &mut self.entries);
                let ghost old_entries = entries@;
                let mut entry = entries.remove(i);
                entry.used = frame;
                let r = entry.layout.clone();
                entries.insert(i, entry);
                proof {
                    assert(entries@ =~= old_entries.update(i as int, entry));
                    assert(entry.entry() == (k, pre[i as int].1, frame));
                    assert(views(entries@) =~= pre.update(i as int, (k, pre[i as int].1, frame)));
                    assert forall|a: int, b: int| 0 <= a < b < pre.len() implies
                        #[trigger] pre.update(i as int, (k, pre[i as int].1, frame))[a].0
                            != #[trigger] pre.update(i as int, (k, pre[i as int].1, frame))[b].0 by {
                        assert(pre[a].0 != pre[b].0);
                    }
                }
                proof {
                    assert(entry.layout == pre[i as int].1);
                    assert(cloned::<L>(pre[i as int].1, r));
                    assert(views(entries@) == pre.update(i as int, (k, pre[i as int].1, frame)));
                }
                *self = LayoutCache { entries, frame };
                proof {
                    assert(self.entries() == old(self).entries().update(i as int, (k, old(self).entries()[i as int].1, old(self).frame())));
                    assert(old(self).entries()[i as int].0 == k);
                }
                return r;
            }
            i = i + 1;
        }
        let made = make();
        let copy = made.clone();
        let entry = LayoutEntry {
            face,
            text: text.to_owned(),
            size_bits,
            width_bits,
            align,
            layout: copy,
            used: self.frame,
        };
        let frame = self.frame;
        let mut entries: Vec<LayoutEntry<L>> = Vec::new();
        std::mem::swap(&mut entries, &mut self.entries);
        entries.push(entry);
        proof {
            let post = views(entries@);
            assert(post.drop_last() =~= pre);
            assert forall|a: int, b: int| 0 <= a < b < post.len() implies #[trigger] post[a].0 != #[trigger] post[b].0 by {
                if b == post.len() - 1 {
                    assert(post[a] == pre[a]);
                } else {
                    assert(post[a] == pre[a] && post[b] == pre[b]);
                }
            }
        }
        *self = LayoutCache { entries, frame };
        made
    }

    /// Ends the frame: the counter advances, and every
    /// [`EVICT_EVERY_FRAMES`] frames the layouts last used before
    /// [`horizon`] of the new frame are dropped.
    pub fn end_frame(&mut self)
        requires
            old(self).frame() < u64::MAX,
        ensures
            final(self).frame() == old(self).frame() + 1,
            (old(self).frame() + 1) % (EVICT_EVERY_FRAMES as int) != 0 ==> final(self).entries() == old(self).entries(),
            (old(self).frame() + 1) % (EVICT_EVERY_FRAMES as int) == 0 ==> final(self).entries()
                == old(self).entries().filter(recent_at::<L>((old(self).frame() + 1) as u64)),
            distinct_keys(final(self).entries()),
    {
        proof { use_type_invariant(&*self); }
        let frame = self.frame + 1;
        let mut entries: Vec<LayoutEntry<L>> = Vec::new();
        std::mem::swap(&mut entries, &mut self.entries);
        let ghost all = views(entries@);
        if frame % EVICT_EVERY_FRAMES != 0 {
            *self = LayoutCache { entries, frame };
            return;
        }
        let cut = if frame >= EVICT_UNUSED_FOR_FRAMES { frame - EVICT_UNUSED_FOR_FRAMES } else { 0 };
        let ghost keep = recent_at::<L>(frame);
        let mut kept: Vec<LayoutEntry<L>> = Vec::new();
        let ghost n = entries@.len();
        while entries.len() > 0
            invariant
                entries@.len() <= n,
                n == all.len(),
                cut == horizon(frame),
                keep == recent_at::<L>(frame),
                views(entries@) == all.skip(n - entries@.len()),
                views(kept@) == all.take(n - entries@.len()).filter(keep),
            decreases entries@.len(),
        {
            let ghost i = n - entries@.len();
            let ghost before = views(kept@);
            let ghost prev = entries@;
            proof {
                assert(views(prev)[0] == all.skip(i)[0]);
                assert(all.skip(i)[0] == all[i]);
            }
            let e = entries.remove(0);
            proof {
                assert forall|j: int| 0 <= j < entries@.len() implies
                    #[trigger] views(entries@)[j] == all.skip(i + 1)[j] by {
                    assert(entries@[j] == prev[j + 1]);
                    assert(views(prev)[j + 1] == all.skip(i)[j + 1]);
                }
                assert(views(entries@) =~= all.skip(i + 1));
                reveal(Seq::filter);
                assert(all.take(i + 1).drop_last() =~= all.take(i));
                assert(all.take(i + 1).last() == all[i]);
                assert(all[i] == e.entry());
            }
            proof {
                assert(e.entry().2 == e.used);
                assert(all[i].2 == e.used);
                assert(keep(all[i]) == (all[i].2 >= horizon(frame)));
                assert(keep(all[i]) == (e.used >= cut));
            }
            if e.used >= cut {
                kept.push(e);
                proof {
                    assert(views(kept@) =~= before.push(all[i]));
                    assert(all.take(i + 1).filter(keep) == all.take(i).filter(keep).push(all[i]));
                }
            } else {
                proof {
                    assert(views(kept@) =~= before);
                    assert(all.take(i + 1).filter(keep) == all.take(i).filter(keep));
                }
            }
        }
        proof {
            assert(all.take(n as int) =~= all);
            broadcast use vstd::seq_lib::group_filter_ensures;
            let post = all.filter(keep);
            assert forall|a: int, b: int| 0 <= a < b < post.len() implies #[trigger] post[a].0 != #[trigger] post[b].0 by {
                lemma_filter_keeps_order(all, keep, a, b);
            }
        }
        *self = LayoutCache { entries: kept, frame };
    }
}

/// Two entries of a filtered sequence come from two entries of the
/// original, in the same order.
proof fn lemma_filter_keeps_order<A>(s: Seq<A>, p: spec_fn(A) -> bool, a: int, b: int)
    requires
        0 <= a < b < s.filter(p).len(),
    ensures
        exists|x: int, y: int| 0 <= x < y < s.len() && s[x] == s.filter(p)[a] && s[y] == s.filter(p)[b],
    decreases s.len(),
{
    reveal(Seq::filter);
    let f = s.filter(p);
    let d = s.drop_last();
    let fd = d.filter(p);
    if p(s.last()) && b == f.len() - 1 {
        assert(f[a] == fd[a]);
        broadcast use vstd::seq_lib::group_filter_ensures;
        assert(fd.contains(fd[a]));
        lemma_filter_member(d, p, a);
        let x = choose|x: int| 0 <= x < d.len() && d[x] == fd[a];
        assert(s[x] == d[x]);
        assert(s[s.len() - 1] == f[b]);
    } else {
        assert(f[a] == fd[a] && f[b] == fd[b]);
        lemma_filter_keeps_order(d, p, a, b);
        let (x, y) = choose|x: int, y: int| 0 <= x < y < d.len() && d[x] == fd[a] && d[y] == fd[b];
        assert(s[x] == d[x] && s[y] == d[y]);
    }
}

/// Every entry of a filtered sequence is an entry of the original.
proof fn lemma_filter_member<A>(s: Seq<A>, p: spec_fn(A) -> bool, a: int)
    requires
        0 <= a < s.filter(p).len(),
    ensures
        exists|x: int| 0 <= x < s.len() && s[x] == s.filter(p)[a],
    decreases s.len(),
{
    reveal(Seq::filter);
    let f = s.filter(p);
    let d = s.drop_last();
    if p(s.last()) && a == f.len() - 1 {
        assert(s[s.len() - 1] == f[a]);
    } else {
        assert(f[a] == d.filter(p)[a]);
        lemma_filter_member(d, p, a);
        let x = choose|x: int| 0 <= x < d.len() && d[x] == d.filter(p)[a];
        assert(s[x] == d[x]);
    }
}

} // verus!
