//! The daemon's cache of decoded wallpapers: the most recently used
//! images, looked up by path, oldest dropped first.
use vstd::prelude::*;
use std::collections::VecDeque;
use crate::text::str_equal;

verus! {

/// How many decoded images the daemon keeps.
pub const CACHE_CAPACITY: usize = 30;

/// Decoded images by path, oldest first.
pub struct DecodeCache<V> {
    entries: VecDeque<(String, V)>,
}

/// The first position of `k` among the keys, or the length.
pub open spec fn key_index<V>(s: Seq<(Seq<char>, V)>, k: Seq<char>) -> nat
    decreases s.len(),
{
    if s.len() == 0 {
        0
    } else if s[0].0 == k {
        0
    } else {
        1 + key_index(s.drop_first(), k)
    }
}

proof fn lemma_key_index<V>(s: Seq<(Seq<char>, V)>, k: Seq<char>, i: int)
    requires
        0 <= i <= s.len(),
        forall|j: int| 0 <= j < i ==> (#[trigger] s[j]).0 != k,
        i == s.len() || s[i].0 == k,
    ensures
        key_index(s, k) == i,
    decreases i,
{
    if i > 0 {
        let t = s.drop_first();
        assert forall|j: int| 0 <= j < i - 1 implies (#[trigger] t[j]).0 != k by {
            assert(t[j] == s[j + 1]);
        }
        if i - 1 < t.len() {
            assert(t[i - 1] == s[i]);
        }
        lemma_key_index(t, k, i - 1);
    }
}

/// The value a lookup of `k` finds: that of the oldest entry with key `k`.
pub open spec fn lookup<V>(s: Seq<(Seq<char>, V)>, k: Seq<char>) -> Option<V> {
    if key_index(s, k) < s.len() {
        Some(s[key_index(s, k) as int].1)
    } else {
        None
    }
}

/// The entries after taking out the one that a lookup of `k` finds.
pub open spec fn taken<V>(s: Seq<(Seq<char>, V)>, k: Seq<char>) -> Seq<(Seq<char>, V)> {
    if key_index(s, k) < s.len() {
        s.remove(key_index(s, k) as int)
    } else {
        s
    }
}

/// No path occurs twice.
pub open spec fn distinct_keys<V>(s: Seq<(Seq<char>, V)>) -> bool {
    forall|i: int, j: int| 0 <= i < s.len() && 0 <= j < s.len() && i != j ==> s[i].0 != s[j].0
}

/// The entries after storing `(k, v)`: appended, and the oldest dropped when
/// that goes beyond the capacity.
pub open spec fn stored<V>(s: Seq<(Seq<char>, V)>, k: Seq<char>, v: V) -> Seq<(Seq<char>, V)> {
    let t = s.push((k, v));
    if t.len() > CACHE_CAPACITY {
        t.drop_first()
    } else {
        t
    }
}

impl<V> DecodeCache<V> {
    pub closed spec fn view(&self) -> Seq<(Seq<char>, V)> {
        Seq::new(self.entries@.len(), |i: int| (self.entries@[i].0@, self.entries@[i].1))
    }

    /// The cache never holds more than its capacity.
    #[verifier::type_invariant]
    closed spec fn within_capacity(&self) -> bool {
        self.entries@.len() <= CACHE_CAPACITY
    }

    pub fn new() -> (c: Self)
        ensures
            c.view() == Seq::<(Seq<char>, V)>::empty(),
    {
        let c = DecodeCache { entries: VecDeque::new() };
        assert(c.view() =~= Seq::<(Seq<char>, V)>::empty());
        c
    }

    pub fn len(&self) -> (n: usize)
        ensures
            n == self.view().len(),
            n <= CACHE_CAPACITY,
    {
        proof {
            use_type_invariant(self);
        }
        self.entries.len()
    }

    /// Whether an image for `path` is cached.
    pub fn contains(&self, path: &str) -> (r: bool)
        ensures
            r == (key_index(self.view(), path@) < self.view().len()),
    {
        self.position(path).is_some()
    }

    fn position(&self, path: &str) -> (r: Option<usize>)
        ensures
            match r {
                Some(i) => i == key_index(self.view(), path@) && i < self.view().len(),
                None => key_index(self.view(), path@) == self.view().len(),
            },
    {
        let ghost s = self.view();
        let mut i: usize = 0;
        while i < self.entries.len()
            invariant
                s == self.view(),
                i <= s.len(),
                forall|j: int| 0 <= j < i ==> (#[trigger] s[j]).0 != path@,
            decreases s.len() - i,
        {
            if str_equal(self.entries[i].0.as_str(), path) {
                proof {
                    lemma_key_index(s, path@, i as int);
                }
                return Some(i);
            }
            i = i + 1;
        }
        proof {
            lemma_key_index(s, path@, i as int);
        }
        None
    }

    /// Takes the image cached for `path` out of the cache.
    pub fn take(&mut self, path: &str) -> (r: Option<V>)
        ensures
            r == lookup(old(self).view(), path@),
            final(self).view() == taken(old(self).view(), path@),
            match r {
                Some(_) => final(self).view() == old(self).view().remove(
                    key_index(old(self).view(), path@) as int,
                ),
                None => final(self).view() == old(self).view(),
            },
    {
        proof {
            use_type_invariant(&*self);
        }
        match self.position(path) {
            None => None,
            Some(i) => {
                let ghost before = self.view();
                let mut entries: VecDeque<(String, V)> = VecDeque::new();
                std::mem::swap(&mut entries, &mut self.entries);
                let removed = entries.remove(i);
                self.entries = entries;
                match removed {
                    Some(e) => {
                        assert(self.view() =~= before.remove(i as int));
                        Some(e.1)
                    },
                    None => None,
                }
            },
        }
    }

    /// Stores a decoded image as the most recent entry, dropping the oldest
    /// when the cache would go over its capacity.
    pub fn store(&mut self, path: String, v: V)
        ensures
            final(self).view() == stored(old(self).view(), path@, v),
    {
        proof {
            use_type_invariant(&*self);
        }
        let ghost before = self.view();
        let mut entries: VecDeque<(String, V)> = VecDeque::new();
        std::mem::swap(&mut entries, &mut self.entries);
        entries.push_back((path, v));
        let ghost pushed = Seq::new(entries@.len(), |i: int| (entries@[i].0@, entries@[i].1));
        assert(pushed =~= before.push((path@, v)));
        if entries.len() > CACHE_CAPACITY {
            let _ = entries.pop_front();
        }
        self.entries = entries;
        assert(self.view() =~= stored(before, path@, v));
    }
}

/// What a lookup gives back of a store: after storing `v` for a key that
/// was not cached, looking the key up finds `v`, and the cache stays within
/// its capacity.
pub proof fn lemma_store_then_lookup<V>(s: Seq<(Seq<char>, V)>, k: Seq<char>, v: V)
    requires
        s.len() <= CACHE_CAPACITY,
        key_index(s, k) == s.len(),
    ensures
        lookup(stored(s, k, v), k) == Some(v),
        stored(s, k, v).len() <= CACHE_CAPACITY,
{
    let t = s.push((k, v));
    assert forall|j: int| 0 <= j < s.len() implies (#[trigger] t[j]).0 != k by {
        if s[j].0 == k {
            lemma_key_index_first(s, k, j);
        }
    }
    if t.len() > CACHE_CAPACITY {
        let u = t.drop_first();
        assert forall|j: int| 0 <= j < u.len() - 1 implies (#[trigger] u[j]).0 != k by {
            assert(u[j] == t[j + 1]);
        }
        lemma_key_index(u, k, u.len() - 1);
    } else {
        lemma_key_index(t, k, s.len() as int);
    }
}

/// Loading an image takes its entry out and stores it again: in a cache
/// where no path occurs twice, the path then occurs once, as the newest
/// entry with the stored value; the other entries keep their order (the
/// oldest one dropped when the cache is full), no path occurs twice, and the
/// cache stays within its capacity.
pub proof fn lemma_load_keeps_one<V>(s: Seq<(Seq<char>, V)>, k: Seq<char>, v: V)
    requires
        s.len() <= CACHE_CAPACITY,
        distinct_keys(s),
    ensures
        ({
            let rest = taken(s, k);
            let t = stored(rest, k, v);
            &&& forall|j: int| 0 <= j < rest.len() ==> (#[trigger] rest[j]).0 != k
            &&& t.len() <= CACHE_CAPACITY
            &&& t.len() > 0
            &&& t.last() == (k, v)
            &&& t.drop_last() == rest.skip(rest.len() + 1 - t.len())
            &&& distinct_keys(t)
            &&& lookup(t, k) == Some(v)
        }),
{
    let rest = taken(s, k);
    let ki = key_index(s, k);
    if ki < s.len() {
        lemma_key_index_found(s, k);
        assert forall|j: int| 0 <= j < rest.len() implies (#[trigger] rest[j]).0 != k by {
            if j < ki {
                assert(rest[j] == s[j]);
            } else {
                assert(rest[j] == s[j + 1]);
            }
        }
        assert forall|i: int, j: int|
            0 <= i < rest.len() && 0 <= j < rest.len() && i != j implies rest[i].0 != rest[j].0 by {
            let a = if i < ki { i } else { i + 1 };
            let b = if j < ki { j } else { j + 1 };
            assert(rest[i] == s[a]);
            assert(rest[j] == s[b]);
        }
    } else {
        assert forall|j: int| 0 <= j < rest.len() implies (#[trigger] rest[j]).0 != k by {
            if s[j].0 == k {
                lemma_key_index_first(s, k, j);
            }
        }
    }
    let u = rest.push((k, v));
    let t = stored(rest, k, v);
    assert forall|i: int, j: int|
        0 <= i < u.len() && 0 <= j < u.len() && i != j implies u[i].0 != u[j].0 by {
        if i < rest.len() {
            assert(u[i] == rest[i]);
        }
        if j < rest.len() {
            assert(u[j] == rest[j]);
        }
    }
    if u.len() > CACHE_CAPACITY {
        assert(t.drop_last() =~= rest.skip(1));
        assert forall|i: int, j: int|
            0 <= i < t.len() && 0 <= j < t.len() && i != j implies t[i].0 != t[j].0 by {
            assert(t[i] == u[i + 1]);
            assert(t[j] == u[j + 1]);
        }
    } else {
        assert(t.drop_last() =~= rest.skip(0));
    }
    assert forall|j: int| 0 <= j < t.len() - 1 implies (#[trigger] t[j]).0 != k by {
        assert(t[j] == t.drop_last()[j]);
    }
    lemma_key_index(t, k, t.len() - 1);
}

/// The key found by `key_index` is there.
proof fn lemma_key_index_found<V>(s: Seq<(Seq<char>, V)>, k: Seq<char>)
    requires
        key_index(s, k) < s.len(),
    ensures
        s[key_index(s, k) as int].0 == k,
        forall|j: int| 0 <= j < key_index(s, k) ==> (#[trigger] s[j]).0 != k,
    decreases s.len(),
{
    if s[0].0 != k {
        let t = s.drop_first();
        lemma_key_index_found(t, k);
        assert forall|j: int| 0 <= j < key_index(s, k) implies (#[trigger] s[j]).0 != k by {
            if j > 0 {
                assert(s[j] == t[j - 1]);
            }
        }
    }
}

/// A key before the first found position is not there.
proof fn lemma_key_index_first<V>(s: Seq<(Seq<char>, V)>, k: Seq<char>, j: int)
    requires
        0 <= j < s.len(),
        s[j].0 == k,
    ensures
        key_index(s, k) <= j,
    decreases j,
{
    if j > 0 && s[0].0 != k {
        assert(s.drop_first()[j - 1] == s[j]);
        lemma_key_index_first(s.drop_first(), k, j - 1);
    }
}

} // verus!
