//! An ordered association table with `String` keys.
//!
//! The original keeps its dictionaries (field maps, foreign-key maps, join
//! graphs, fragment tables) in hash maps. Here they are ordered vectors of
//! pairs, so that a table's view is a sequence in insertion order and
//! contracts can speak both of lookup and of that order.

use vstd::prelude::*;

verus! {

/// True when no key occurs twice.
pub open spec fn sm_wf<T>(s: Seq<(Seq<char>, T)>) -> bool {
    forall|i: int, j: int|
        0 <= i < j < s.len() ==> (#[trigger] s[i]).0 != (#[trigger] s[j]).0
}

/// True when some entry has the key.
pub open spec fn sm_contains<T>(s: Seq<(Seq<char>, T)>, k: Seq<char>) -> bool {
    exists|i: int| 0 <= i < s.len() && (#[trigger] s[i]).0 == k
}

/// The index of the entry with the key; meaningful under `sm_contains`
/// and `sm_wf`, where it is unique.
pub open spec fn sm_index<T>(s: Seq<(Seq<char>, T)>, k: Seq<char>) -> int {
    choose|i: int| 0 <= i < s.len() && (#[trigger] s[i]).0 == k
}

/// The value at the key; meaningful under `sm_contains` and `sm_wf`.
pub open spec fn sm_get<T>(s: Seq<(Seq<char>, T)>, k: Seq<char>) -> T {
    s[sm_index(s, k)].1
}

/// The table after binding the key: an existing entry is replaced in
/// place, a new key is appended.
pub open spec fn sm_insert<T>(s: Seq<(Seq<char>, T)>, k: Seq<char>, v: T) -> Seq<
    (Seq<char>, T),
> {
    if sm_contains(s, k) {
        s.update(sm_index(s, k), (k, v))
    } else {
        s.push((k, v))
    }
}

/// An association table with `String` keys and insertion-ordered entries.
#[derive(Debug, PartialEq)]
pub struct StrMap<V> {
    pub entries: Vec<(String, V)>,
}

impl<V: View> View for StrMap<V> {
    type V = Seq<(Seq<char>, V::V)>;

    open spec fn view(&self) -> Seq<(Seq<char>, V::V)> {
        Seq::new(self.entries@.len(), |i: int| (self.entries@[i].0@, self.entries@[i].1@))
    }
}

impl<V: View> StrMap<V> {
    /// The table's keys never repeat.
    pub open spec fn wf(&self) -> bool {
        sm_wf(self@)
    }

    pub fn new() -> (r: Self)
        ensures
            r@ == Seq::<(Seq<char>, V::V)>::empty(),
            r.wf(),
    {
        let r = StrMap { entries: Vec::new() };
        proof {
            assert(r@ =~= Seq::<(Seq<char>, V::V)>::empty());
        }
        r
    }

    pub fn len(&self) -> (n: usize)
        ensures
            n == self@.len(),
    {
        self.entries.len()
    }

    /// The position of the key's entry, if the key is bound.
    pub fn index_of(&self, k: &str) -> (r: Option<usize>)
        requires
            self.wf(),
        ensures
            match r {
                Some(i) => i < self@.len() && self@[i as int].0 == k@ && sm_contains(
                    self@,
                    k@,
                ) && sm_index(self@, k@) == i,
                None => !sm_contains(self@, k@),
            },
    {
        let mut i: usize = 0;
        while i < self.entries.len()
            invariant
                self.wf(),
                i <= self@.len(),
                forall|j: int| 0 <= j < i ==> (#[trigger] self@[j]).0 != k@,
            decreases self@.len() - i,
        {
            if crate::strutil::str_eq(self.entries[i].0.as_str(), k) {
                proof {
                    let w = sm_index(self@, k@);
                    assert(self@[i as int].0 == k@);
                    assert(0 <= w < self@.len() && self@[w].0 == k@);
                    assert(w == i);
                }
                return Some(i);
            }
            i = i + 1;
        }
        None
    }

    /// The value bound to the key, if any.
    pub fn get<'a>(&'a self, k: &str) -> (r: Option<&'a V>)
        requires
            self.wf(),
        ensures
            match r {
                Some(v) => sm_contains(self@, k@) && v@ == sm_get(self@, k@),
                None => !sm_contains(self@, k@),
            },
    {
        match self.index_of(k) {
            Some(i) => Some(&self.entries[i].1),
            None => None,
        }
    }

    /// Binds the key: replaces the existing entry or appends a new one.
    pub fn insert(&mut self, k: String, v: V)
        requires
            old(self).wf(),
        ensures
            final(self).wf(),
            final(self)@ == sm_insert(old(self)@, k@, v@),
    {
        let ghost s0 = self@;
        match self.index_of(k.as_str()) {
            Some(i) => {
                self.entries.set(i, (k, v));
                proof {
                    assert(self@ =~= s0.update(sm_index(s0, k@), (k@, v@)));
                    assert(self.wf());
                }
            },
            None => {
                self.entries.push((k, v));
                proof {
                    assert(self@ =~= s0.push((k@, v@)));
                    assert forall|i: int, j: int| 0 <= i < j < self@.len() implies (
                    #[trigger] self@[i]).0 != (#[trigger] self@[j]).0 by {
                        if j == self@.len() - 1 {
                            assert(!sm_contains(s0, k@));
                            assert(self@[i].0 == s0[i].0);
                        }
                    }
                }
            },
        }
    }
}

impl<V: Clone> Clone for StrMap<V> {
    fn clone(&self) -> Self {
        StrMap { entries: self.entries.clone() }
    }
}


/// Binding one key neither adds nor moves any other key's entry.
pub proof fn lemma_sm_insert_other<T>(s: Seq<(Seq<char>, T)>, k2: Seq<char>, v: T, k: Seq<char>)
    requires
        sm_wf(s),
        k != k2,
    ensures
        sm_wf(sm_insert(s, k2, v)),
        sm_contains(sm_insert(s, k2, v), k) == sm_contains(s, k),
        sm_contains(s, k) ==> sm_get(sm_insert(s, k2, v), k) == sm_get(s, k),
{
    let out = sm_insert(s, k2, v);
    if sm_contains(s, k2) {
        let i2 = sm_index(s, k2);
        assert(out == s.update(i2, (k2, v)));
        assert forall|a: int, b: int| 0 <= a < b < out.len() implies (#[trigger] out[a]).0
            != (#[trigger] out[b]).0 by {
            assert(out[a] == if a == i2 { (k2, v) } else { s[a] });
            assert(out[b] == if b == i2 { (k2, v) } else { s[b] });
        }
        if sm_contains(s, k) {
            let i = sm_index(s, k);
            assert(i != i2);
            assert(out[i].0 == k);
            let w = sm_index(out, k);
            assert(out[w].0 == k);
            assert(w == i) by {
                if w != i {
                    assert(out[w] == if w == i2 { (k2, v) } else { s[w] });
                }
            }
        } else {
            if sm_contains(out, k) {
                let w = sm_index(out, k);
                assert(out[w].0 == k);
                assert(out[w] == if w == i2 { (k2, v) } else { s[w] });
            }
        }
    } else {
        assert(out == s.push((k2, v)));
        assert forall|a: int, b: int| 0 <= a < b < out.len() implies (#[trigger] out[a]).0
            != (#[trigger] out[b]).0 by {
            if b == out.len() - 1 {
                assert(out[a] == s[a]);
            } else {
                assert(out[a] == s[a]);
                assert(out[b] == s[b]);
            }
        }
        if sm_contains(s, k) {
            let i = sm_index(s, k);
            assert(out[i].0 == k);
            let w = sm_index(out, k);
            assert(out[w].0 == k);
            assert(w == i) by {
                if w != i {
                    if w == out.len() - 1 {
                        assert(out[w].0 == k2);
                    } else {
                        assert(out[w] == s[w]);
                    }
                }
            }
        } else {
            if sm_contains(out, k) {
                let w = sm_index(out, k);
                assert(out[w].0 == k);
                if w < s.len() {
                    assert(out[w] == s[w]);
                } else {
                    assert(out[w].0 == k2);
                }
            }
        }
    }
}

/// Binding one key makes that key's entry the bound value.
pub proof fn lemma_sm_insert_same<T>(s: Seq<(Seq<char>, T)>, k: Seq<char>, v: T)
    requires
        sm_wf(s),
    ensures
        sm_wf(sm_insert(s, k, v)),
        sm_contains(sm_insert(s, k, v), k),
        sm_get(sm_insert(s, k, v), k) == v,
{
    let out = sm_insert(s, k, v);
    if sm_contains(s, k) {
        let i = sm_index(s, k);
        assert(out == s.update(i, (k, v)));
        assert forall|a: int, b: int| 0 <= a < b < out.len() implies (#[trigger] out[a]).0
            != (#[trigger] out[b]).0 by {
            assert(out[a] == if a == i { (k, v) } else { s[a] });
            assert(out[b] == if b == i { (k, v) } else { s[b] });
        }
        assert(out[i].0 == k);
        let w = sm_index(out, k);
        assert(out[w].0 == k);
        assert(w == i) by {
            if w != i {
                assert(out[w] == s[w]);
            }
        }
    } else {
        assert(out == s.push((k, v)));
        assert forall|a: int, b: int| 0 <= a < b < out.len() implies (#[trigger] out[a]).0
            != (#[trigger] out[b]).0 by {
            if b == out.len() - 1 {
                assert(out[a] == s[a]);
            } else {
                assert(out[a] == s[a]);
                assert(out[b] == s[b]);
            }
        }
        let i = out.len() - 1;
        assert(out[i].0 == k);
        let w = sm_index(out, k);
        assert(out[w].0 == k);
        assert(w == i) by {
            if w != i {
                assert(out[w] == s[w]);
            }
        }
    }
}


/// Binding a key never unbinds any other.
pub proof fn lemma_sm_insert_monotone<T>(s: Seq<(Seq<char>, T)>, k: Seq<char>, v: T, n: Seq<char>)
    requires
        sm_wf(s),
        sm_contains(s, n),
    ensures
        sm_contains(sm_insert(s, k, v), n),
{
    if n == k {
        lemma_sm_insert_same(s, k, v);
    } else {
        lemma_sm_insert_other(s, k, v, n);
    }
}

/// A key bound after an insertion of another key was bound before it.
pub proof fn lemma_sm_insert_contains_rev<T>(
    s: Seq<(Seq<char>, T)>,
    k: Seq<char>,
    v: T,
    n: Seq<char>,
)
    requires
        n != k,
        sm_contains(sm_insert(s, k, v), n),
    ensures
        sm_contains(s, n),
{
    let s2 = sm_insert(s, k, v);
    let i = choose|i: int| 0 <= i < s2.len() && (#[trigger] s2[i]).0 == n;
    if sm_contains(s, k) {
        assert(s2[i] == s.update(sm_index(s, k), (k, v))[i]);
        if i == sm_index(s, k) {
            assert(s2[i].0 == k);
        } else {
            assert(s2[i] == s[i]);
        }
    } else {
        if i < s.len() {
            assert(s2[i] == s[i]);
        } else {
            assert(s2[i].0 == k);
        }
    }
}

} // verus!
