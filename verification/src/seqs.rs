//! Sequence helpers shared by the stateful modules.

use vstd::prelude::*;

verus! {

/// `s` with every occurrence of `x` removed, order otherwise kept.
pub open spec fn without(s: Seq<usize>, x: usize) -> Seq<usize>
    decreases s.len(),
{
    if s.len() == 0 {
        s
    } else {
        let rest = without(s.drop_last(), x);
        if s.last() == x {
            rest
        } else {
            rest.push(s.last())
        }
    }
}

/// `s` followed by the items of `t` that are not yet in it (each once).
pub open spec fn append_new(s: Seq<usize>, t: Seq<usize>) -> Seq<usize>
    decreases t.len(),
{
    if t.len() == 0 {
        s
    } else {
        let front = append_new(s, t.drop_last());
        if front.contains(t.last()) {
            front
        } else {
            front.push(t.last())
        }
    }
}

pub proof fn lemma_without(s: Seq<usize>, x: usize)
    ensures
        forall|y: usize| #[trigger] without(s, x).contains(y) <==> (s.contains(y) && y != x),
        s.no_duplicates() ==> without(s, x).no_duplicates(),
        !s.contains(x) ==> without(s, x) == s,
        without(s, x).len() <= s.len(),
    decreases s.len(),
{
    if s.len() > 0 {
        let d = s.drop_last();
        lemma_without(d, x);
        assert(s == d.push(s.last()));
        let w = without(s, x);
        let wd = without(d, x);
        assert(w == wd || w == wd.push(s.last()));
        assert forall|y: usize| #[trigger] w.contains(y) <==> (s.contains(y) && y != x) by {
            if s.contains(y) && y != x {
                let i = choose|i: int| 0 <= i < s.len() && s[i] == y;
                if i < s.len() - 1 {
                    assert(d[i] == y);
                    assert(d.contains(y));
                    assert(wd.contains(y));
                    let k = choose|k: int| 0 <= k < wd.len() && wd[k] == y;
                    assert(w[k] == y);
                } else {
                    assert(w[w.len() - 1] == y);
                }
            }
            if w.contains(y) {
                let i = choose|i: int| 0 <= i < w.len() && w[i] == y;
                if i < wd.len() {
                    assert(wd[i] == y);
                    assert(wd.contains(y));
                    let k = choose|k: int| 0 <= k < d.len() && d[k] == y;
                    assert(s[k] == y);
                } else {
                    assert(s[s.len() - 1] == y);
                }
            }
        }
        if s.no_duplicates() {
            assert(d.no_duplicates());
            if s.last() != x {
                assert(!d.contains(s.last()));
                assert(!without(d, x).contains(s.last()));
            }
        }
        if !s.contains(x) {
            assert(!d.contains(x)) by {
                if d.contains(x) {
                    let k = choose|k: int| 0 <= k < d.len() && d[k] == x;
                    assert(s[k] == x);
                }
            }
            assert(s[s.len() - 1] != x);
        }
    }
}

pub proof fn lemma_append_new(s: Seq<usize>, t: Seq<usize>)
    ensures
        forall|y: usize| #[trigger] append_new(s, t).contains(y) <==> (s.contains(y) || t.contains(y)),
        s.no_duplicates() ==> append_new(s, t).no_duplicates(),
        append_new(s, t).subrange(0, s.len() as int) == s,
        s.len() <= append_new(s, t).len(),
        t.len() == 0 ==> append_new(s, t) == s,
    decreases t.len(),
{
    if t.len() > 0 {
        let d = t.drop_last();
        lemma_append_new(s, d);
        let front = append_new(s, d);
        assert(t == d.push(t.last()));
        assert forall|y: usize| #[trigger] append_new(s, t).contains(y) <==> (s.contains(y) || t.contains(y)) by {
            if t.contains(y) {
                let i = choose|i: int| 0 <= i < t.len() && t[i] == y;
                if i < t.len() - 1 {
                    assert(d[i] == y);
                    assert(d.contains(y));
                } else if !front.contains(y) {
                    assert(append_new(s, t).last() == y);
                }
            }
            if d.contains(y) {
                let k = choose|k: int| 0 <= k < d.len() && d[k] == y;
                assert(t[k] == y);
            }
            if append_new(s, t).contains(y) && !front.contains(y) {
                assert(t[t.len() - 1] == y);
            }
            if front.contains(y) {
                if !front.contains(t.last()) {
                    let k = choose|k: int| 0 <= k < front.len() && front[k] == y;
                    assert(append_new(s, t)[k] == y);
                }
            }
        }
        if !front.contains(t.last()) {
            assert(append_new(s, t).subrange(0, s.len() as int) == front.subrange(0, s.len() as int));
        }
    }
}

/// Whether `x` occurs in `v`.
pub fn contains_index(v: &Vec<usize>, x: usize) -> (r: bool)
    ensures
        r == v@.contains(x),
{
    let mut i: usize = 0;
    while i < v.len()
        invariant
            i <= v@.len(),
            forall|k: int| 0 <= k < i ==> v@[k] != x,
        decreases v@.len() - i,
    {
        if v[i] == x {
            assert(v@[i as int] == x);
            return true;
        }
        i = i + 1;
    }
    false
}

/// A copy of `v` without `x`.
pub fn copy_without(v: &Vec<usize>, x: usize) -> (r: Vec<usize>)
    ensures
        r@ == without(v@, x),
{
    let mut r: Vec<usize> = Vec::new();
    let mut i: usize = 0;
    while i < v.len()
        invariant
            i <= v@.len(),
            r@ == without(v@.take(i as int), x),
        decreases v@.len() - i,
    {
        assert(v@.take(i as int + 1).drop_last() == v@.take(i as int));
        if v[i] != x {
            r.push(v[i]);
        }
        i = i + 1;
    }
    assert(v@.take(v@.len() as int) == v@);
    r
}

/// Appends to `v` the items of `t` it does not hold yet, in order.
pub fn push_new(v: &mut Vec<usize>, t: &Vec<usize>)
    ensures
        final(v)@ == append_new(old(v)@, t@),
{
    let mut i: usize = 0;
    while i < t.len()
        invariant
            i <= t@.len(),
            v@ == append_new(old(v)@, t@.take(i as int)),
        decreases t@.len() - i,
    {
        assert(t@.take(i as int + 1).drop_last() == t@.take(i as int));
        if !contains_index(v, t[i]) {
            v.push(t[i]);
        }
        i = i + 1;
    }
    assert(t@.take(t@.len() as int) == t@);
}

} // verus!
