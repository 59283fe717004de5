//! Maps over a sorted vector: from numeric identifiers, and from text.

use vstd::prelude::*;

use crate::text::same;

verus! {

/// A map from identifiers, held sorted by identifier.
#[derive(Debug)]
pub struct IdMap<V> {
    pub entries: Vec<(i64, V)>,
}

/// The map that a list of entries stands for.
pub open spec fn entries_map<V>(entries: Seq<(i64, V)>) -> Map<i64, V> {
    Map::new(
        |id: i64| exists|i: int| 0 <= i < entries.len() && (#[trigger] entries[i]).0 == id,
        |id: i64| entries[choose|i: int| 0 <= i < entries.len() && (#[trigger] entries[i]).0 == id].1,
    )
}

/// Whether entries are strictly ordered by identifier.
pub open spec fn sorted<V>(entries: Seq<(i64, V)>) -> bool {
    forall|i: int, j: int| 0 <= i < j < entries.len() ==> (#[trigger] entries[i]).0 < (
    #[trigger] entries[j]).0
}

/// Every entry is found in the map.
pub proof fn lemma_entry<V>(entries: Seq<(i64, V)>, i: int)
    requires
        sorted(entries),
        0 <= i < entries.len(),
    ensures
        entries_map(entries).contains_key(entries[i].0),
        entries_map(entries)[entries[i].0] == entries[i].1,
{
    let id = entries[i].0;
    let j = choose|j: int| 0 <= j < entries.len() && (#[trigger] entries[j]).0 == id;
    assert(entries[i].0 == id);
    assert(j == i) by {
        if j < i {
            assert(entries[j].0 < entries[i].0);
        } else if i < j {
            assert(entries[i].0 < entries[j].0);
        }
    }
}

impl<V> View for IdMap<V> {
    type V = Map<i64, V>;

    open spec fn view(&self) -> Map<i64, V> {
        entries_map(self.entries@)
    }
}

impl<V> IdMap<V> {
    /// The identifiers are strictly increasing.
    pub open spec fn wf(self) -> bool {
        sorted(self.entries@)
    }

    /// The map without entries.
    pub fn new() -> (r: Self)
        ensures
            r.wf(),
            r@ == Map::<i64, V>::empty(),
    {
        let r = IdMap { entries: Vec::new() };
        assert(r@ =~= Map::<i64, V>::empty());
        r
    }

    /// The number of entries.
    pub fn len(&self) -> (r: usize)
        ensures
            r == self.entries@.len(),
    {
        self.entries.len()
    }

    /// Where an identifier stands or belongs, and whether it stands there.
    pub fn position(&self, id: i64) -> (r: (usize, bool))
        requires
            self.wf(),
        ensures
            r.0 <= self.entries@.len(),
            forall|i: int| 0 <= i < r.0 ==> (#[trigger] self.entries@[i]).0 < id,
            r.1 ==> r.0 < self.entries@.len() && self.entries@[r.0 as int].0 == id,
            !r.1 ==> forall|i: int|
                r.0 <= i < self.entries@.len() ==> id < (#[trigger] self.entries@[i]).0,
            r.1 == self@.contains_key(id),
    {
        let mut lo: usize = 0;
        let mut hi: usize = self.entries.len();
        while lo < hi
            invariant
                self.wf(),
                lo <= hi <= self.entries@.len(),
                forall|i: int| 0 <= i < lo ==> (#[trigger] self.entries@[i]).0 < id,
                forall|i: int|
                    hi <= i < self.entries@.len() ==> id <= (#[trigger] self.entries@[i]).0,
            decreases hi - lo,
        {
            let mid: usize = lo + (hi - lo) / 2;
            if self.entries[mid].0 < id {
                lo = mid + 1;
            } else {
                hi = mid;
            }
        }
        if lo < self.entries.len() && self.entries[lo].0 == id {
            proof {
                lemma_entry(self.entries@, lo as int);
            }
            (lo, true)
        } else {
            assert(forall|i: int|
                lo < i < self.entries@.len() ==> self.entries@[lo as int].0 < (
                #[trigger] self.entries@[i]).0);
            (lo, false)
        }
    }

    /// The value of an identifier.
    pub fn get(&self, id: i64) -> (r: Option<&V>)
        requires
            self.wf(),
        ensures
            match r {
                None => !self@.contains_key(id),
                Some(v) => self@.contains_key(id) && *v == self@[id],
            },
    {
        let (p, found) = self.position(id);
        if found {
            proof {
                lemma_entry(self.entries@, p as int);
            }
            Some(&self.entries[p].1)
        } else {
            None
        }
    }

    /// Adds an entry, in place of the one that the identifier had.
    pub fn insert(&mut self, id: i64, v: V)
        requires
            old(self).wf(),
        ensures
            final(self).wf(),
            final(self)@ == old(self)@.insert(id, v),
    {
        let (p, found) = self.position(id);
        let ghost before = self.entries@;
        if found {
            self.entries[p] = (id, v);
            proof {
                assert(self.entries@ == before.update(p as int, (id, v)));
                lemma_update(before, p as int, v);
            }
        } else {
            self.entries.insert(p, (id, v));
            proof {
                lemma_insert(before, p as int, id, v);
            }
        }
    }

    /// The value of an identifier, to be changed in place.
    pub fn get_mut(&mut self, id: i64) -> (r: Option<&mut V>)
        requires
            old(self).wf(),
        ensures
            match r {
                None => !old(self)@.contains_key(id) && *final(self) == *old(self),
                Some(v) => {
                    &&& old(self)@.contains_key(id)
                    &&& *v == old(self)@[id]
                    &&& final(self).wf()
                    &&& final(self)@ == old(self)@.insert(id, *final(v))
                },
            },
    {
        let (p, found) = self.position(id);
        let ghost before = self.entries@;
        if found {
            proof {
                lemma_entry(before, p as int);
                assert forall|v: V| sorted(#[trigger] before.update(p as int, (id, v)))
                    && entries_map(before.update(p as int, (id, v))) == entries_map(before).insert(
                    id,
                    v,
                ) by {
                    lemma_update(before, p as int, v);
                }
            }
            Some(&mut self.entries[p].1)
        } else {
            None
        }
    }
}

/// Changing the value of an entry changes the map at its identifier.
proof fn lemma_update<V>(entries: Seq<(i64, V)>, p: int, v: V)
    requires
        sorted(entries),
        0 <= p < entries.len(),
    ensures
        sorted(entries.update(p, (entries[p].0, v))),
        entries_map(entries.update(p, (entries[p].0, v))) == entries_map(entries).insert(
            entries[p].0,
            v,
        ),
{
    let after = entries.update(p, (entries[p].0, v));
    assert(sorted(after));
    let a = entries_map(after);
    let b = entries_map(entries).insert(entries[p].0, v);
    assert forall|id: i64| a.contains_key(id) <==> b.contains_key(id) by {
        if a.contains_key(id) {
            let i = choose|i: int| 0 <= i < after.len() && (#[trigger] after[i]).0 == id;
            assert(entries[i].0 == id);
        }
        if b.contains_key(id) && id != entries[p].0 {
            let i = choose|i: int| 0 <= i < entries.len() && (#[trigger] entries[i]).0 == id;
            assert(after[i].0 == id);
        }
        if id == entries[p].0 {
            assert(after[p].0 == id);
        }
    }
    assert forall|id: i64| a.contains_key(id) implies a[id] == b[id] by {
        let i = choose|i: int| 0 <= i < after.len() && (#[trigger] after[i]).0 == id;
        lemma_entry(after, i);
        lemma_entry(entries, i);
        if i != p {
            assert(entries[i].0 != entries[p].0) by {
                if i < p {
                    assert(entries[i].0 < entries[p].0);
                } else {
                    assert(entries[p].0 < entries[i].0);
                }
            }
        }
    }
    assert(a =~= b);
}

/// Adding an entry at its place adds it to the map.
proof fn lemma_insert<V>(entries: Seq<(i64, V)>, p: int, id: i64, v: V)
    requires
        sorted(entries),
        0 <= p <= entries.len(),
        forall|i: int| 0 <= i < p ==> (#[trigger] entries[i]).0 < id,
        forall|i: int| p <= i < entries.len() ==> id < (#[trigger] entries[i]).0,
    ensures
        sorted(entries.insert(p, (id, v))),
        entries_map(entries.insert(p, (id, v))) == entries_map(entries).insert(id, v),
{
    let after = entries.insert(p, (id, v));
    assert forall|i: int, j: int| 0 <= i < j < after.len() implies (#[trigger] after[i]).0 < (
    #[trigger] after[j]).0 by {
        let x = if i < p { i } else { i - 1 };
        let y = if j < p { j } else { j - 1 };
        if i != p && j != p {
            assert(entries[x].0 < entries[y].0);
        } else if i == p {
            assert(id < entries[y].0);
        } else {
            assert(entries[x].0 < id);
        }
    }
    let a = entries_map(after);
    let b = entries_map(entries).insert(id, v);
    assert forall|k: i64| a.contains_key(k) <==> b.contains_key(k) by {
        if a.contains_key(k) {
            let i = choose|i: int| 0 <= i < after.len() && (#[trigger] after[i]).0 == k;
            if i != p {
                let x = if i < p { i } else { i - 1 };
                assert(entries[x].0 == k);
            }
        }
        if entries_map(entries).contains_key(k) {
            let i = choose|i: int| 0 <= i < entries.len() && (#[trigger] entries[i]).0 == k;
            let x = if i < p { i } else { i + 1 };
            assert(after[x].0 == k);
        }
        if k == id {
            assert(after[p].0 == k);
        }
    }
    assert forall|k: i64| a.contains_key(k) implies a[k] == b[k] by {
        let i = choose|i: int| 0 <= i < after.len() && (#[trigger] after[i]).0 == k;
        lemma_entry(after, i);
        if i != p {
            let x = if i < p { i } else { i - 1 };
            lemma_entry(entries, x);
            assert(entries[x] == after[i]);
        }
    }
    assert(a =~= b);
}

// ---------- tags ----------

/// A map from text to text.
#[derive(Debug)]
pub struct Tags {
    pub entries: Vec<(String, String)>,
}

/// Whether a key stands at an index.
pub open spec fn tag_index(entries: Seq<(String, String)>, key: Seq<char>, i: int) -> bool {
    0 <= i < entries.len() && entries[i].0@ == key
}

impl View for Tags {
    type V = Map<Seq<char>, Seq<char>>;

    open spec fn view(&self) -> Map<Seq<char>, Seq<char>> {
        Map::new(
            |key: Seq<char>| exists|i: int| #[trigger] tag_index(self.entries@, key, i),
            |key: Seq<char>|
                self.entries@[choose|i: int| #[trigger] tag_index(self.entries@, key, i)].1@,
        )
    }
}

impl Tags {
    /// No key stands twice.
    pub open spec fn wf(self) -> bool {
        forall|i: int, j: int, key: Seq<char>|
            #[trigger] tag_index(self.entries@, key, i) && #[trigger] tag_index(
                self.entries@,
                key,
                j,
            ) ==> i == j
    }

    /// The map without tags.
    pub fn new() -> (r: Self)
        ensures
            r.wf(),
            r@ == Map::<Seq<char>, Seq<char>>::empty(),
    {
        let r = Tags { entries: Vec::new() };
        assert(r@ =~= Map::<Seq<char>, Seq<char>>::empty());
        r
    }

    /// The number of tags.
    pub fn len(&self) -> (r: usize)
        ensures
            r == self.entries@.len(),
    {
        self.entries.len()
    }

    /// The index of a key.
    fn position(&self, key: &str) -> (r: Option<usize>)
        ensures
            match r {
                None => !self@.contains_key(key@),
                Some(i) => self@.contains_key(key@) && tag_index(self.entries@, key@, i as int),
            },
    {
        let mut i: usize = 0;
        while i < self.entries.len()
            invariant
                i <= self.entries@.len(),
                forall|j: int| 0 <= j < i ==> !#[trigger] tag_index(self.entries@, key@, j),
            decreases self.entries@.len() - i,
        {
            if same(self.entries[i].0.as_str(), key) {
                assert(tag_index(self.entries@, key@, i as int));
                return Some(i);
            }
            i = i + 1;
        }
        assert(forall|j: int| !#[trigger] tag_index(self.entries@, key@, j));
        None
    }

    /// The value of a key.
    pub fn get(&self, key: &str) -> (r: Option<&str>)
        requires
            self.wf(),
        ensures
            match r {
                None => !self@.contains_key(key@),
                Some(v) => self@.contains_key(key@) && v@ == self@[key@],
            },
    {
        match self.position(key) {
            None => None,
            Some(i) => {
                proof {
                    let c = choose|j: int| #[trigger] tag_index(self.entries@, key@, j);
                    assert(tag_index(self.entries@, key@, i as int));
                    assert(c == i);
                }
                Some(self.entries[i].1.as_str())
            },
        }
    }

    /// Adds a tag, in place of the one that the key had.
    pub fn insert(&mut self, key: String, value: String)
        requires
            old(self).wf(),
        ensures
            final(self).wf(),
            final(self)@ == old(self)@.insert(key@, value@),
    {
        let ghost before = *self;
        let ghost k = key@;
        let ghost v = value@;
        match self.position(key.as_str()) {
            None => {
                self.entries.push((key, value));
                proof {
                    let n = before.entries@.len() as int;
                    assert forall|i: int, q: Seq<char>| #[trigger]
                        tag_index(self.entries@, q, i) implies (i == n && q == k) || tag_index(
                        before.entries@,
                        q,
                        i,
                    ) by {
                        if i != n {
                            assert(before.entries@[i] == self.entries@[i]);
                        }
                    }
                    assert(!before@.contains_key(k));
                    assert(forall|i: int| !#[trigger] tag_index(before.entries@, k, i));
                    assert(self.wf());
                    assert(tag_index(self.entries@, k, n));
                    lemma_tags_changed(before, *self, k, v);
                }
            },
            Some(i) => {
                self.entries[i] = (key, value);
                proof {
                    assert forall|j: int, q: Seq<char>| #[trigger]
                        tag_index(self.entries@, q, j) == tag_index(before.entries@, q, j) by {}
                    assert(forall|j: int, q: Seq<char>| #[trigger]
                        tag_index(before.entries@, q, j) ==> tag_index(self.entries@, q, j));
                    assert(self.wf());
                    assert(tag_index(self.entries@, k, i as int));
                    lemma_tags_changed(before, *self, k, v);
                }
            },
        }
    }
}

/// Lists that agree on all keys but one are maps that agree on all keys but one.
proof fn lemma_tags_changed(before: Tags, after: Tags, k: Seq<char>, v: Seq<char>)
    requires
        before.wf(),
        after.wf(),
        exists|i: int| #[trigger] tag_index(after.entries@, k, i) && after.entries@[i].1@ == v,
        forall|i: int, q: Seq<char>|
            q != k ==> (#[trigger] tag_index(after.entries@, q, i)) == tag_index(
                before.entries@,
                q,
                i,
            ),
        forall|i: int, q: Seq<char>|
            q != k && #[trigger] tag_index(after.entries@, q, i) ==> after.entries@[i].1@
                == before.entries@[i].1@,
    ensures
        after@ == before@.insert(k, v),
{
    let a = after@;
    let b = before@.insert(k, v);
    let w = choose|i: int| #[trigger] tag_index(after.entries@, k, i) && after.entries@[i].1@ == v;
    assert(tag_index(after.entries@, k, w));
    assert forall|q: Seq<char>| a.contains_key(q) <==> b.contains_key(q) by {
        if q != k {
            if a.contains_key(q) {
                let i = choose|i: int| #[trigger] tag_index(after.entries@, q, i);
                assert(tag_index(before.entries@, q, i));
            }
            if b.contains_key(q) {
                let i = choose|i: int| #[trigger] tag_index(before.entries@, q, i);
                assert(tag_index(after.entries@, q, i));
            }
        }
    }
    assert forall|q: Seq<char>| a.contains_key(q) implies a[q] == b[q] by {
        let i = choose|i: int| #[trigger] tag_index(after.entries@, q, i);
        assert(tag_index(after.entries@, q, i));
        if q == k {
            assert(i == w);
        } else {
            assert(tag_index(before.entries@, q, i));
            let j = choose|j: int| #[trigger] tag_index(before.entries@, q, j);
            assert(i == j);
        }
    }
    assert(a =~= b);
}

} // verus!
