//! The bookkeeping of a tile stream: which tiles are being fetched, loaded or waiting for a
//! retry, in what order loaded tiles were last used, and when the next request may start.

use vstd::prelude::*;

verus! {

/// A tile key that can be compared.
pub trait Key: Copy {
    fn is(&self, other: &Self) -> (r: bool)
        ensures
            r == (*self == *other),
    ;
}

/// What is known of a tile. Times are in nanoseconds.
#[derive(Debug, Clone, Copy, PartialEq, Eq, Structural)]
pub enum Status {
    Fetching,
    Loaded,
    Failed { retry_at: u64 },
}

// ---------- a map over keys ----------

/// The statuses of tiles, as a list without repeated keys.
#[derive(Debug)]
pub struct StatusMap<K> {
    pub entries: Vec<(K, Status)>,
}

/// Whether a key stands at an index.
pub open spec fn key_at<K>(entries: Seq<(K, Status)>, k: K, i: int) -> bool {
    0 <= i < entries.len() && entries[i].0 == k
}

/// Whether no key stands twice.
pub open spec fn distinct<K>(entries: Seq<(K, Status)>) -> bool {
    forall|i: int, j: int|
        0 <= i < entries.len() && 0 <= j < entries.len() && (#[trigger] entries[i]).0 == (
        #[trigger] entries[j]).0 ==> i == j
}

/// The map that a list of entries stands for.
pub open spec fn status_map<K>(entries: Seq<(K, Status)>) -> Map<K, Status> {
    Map::new(
        |k: K| exists|i: int| #[trigger] key_at(entries, k, i),
        |k: K| entries[choose|i: int| #[trigger] key_at(entries, k, i)].1,
    )
}

/// One where a status is the one asked for, nothing otherwise.
pub open spec fn hit(st: Status, which: Status) -> int {
    if st == which {
        1
    } else {
        0
    }
}

/// The number of entries with a status.
pub open spec fn counted<K>(entries: Seq<(K, Status)>, which: Status) -> int
    decreases entries.len(),
{
    if entries.len() == 0 {
        0
    } else {
        counted(entries.drop_last(), which) + hit(entries.last().1, which)
    }
}

pub proof fn lemma_at<K>(entries: Seq<(K, Status)>, i: int)
    requires
        distinct(entries),
        0 <= i < entries.len(),
    ensures
        status_map(entries).contains_key(entries[i].0),
        status_map(entries)[entries[i].0] == entries[i].1,
{
    let k = entries[i].0;
    assert(key_at(entries, k, i));
    let j = choose|j: int| #[trigger] key_at(entries, k, j);
    assert(entries[j].0 == entries[i].0);
}

/// The index of a key in the map.
pub proof fn lemma_find<K>(entries: Seq<(K, Status)>, k: K) -> (i: int)
    requires
        distinct(entries),
        status_map(entries).contains_key(k),
    ensures
        0 <= i < entries.len(),
        entries[i].0 == k,
        entries[i].1 == status_map(entries)[k],
{
    let i = choose|i: int| #[trigger] key_at(entries, k, i);
    lemma_at(entries, i);
    i
}

proof fn lemma_set<K>(entries: Seq<(K, Status)>, i: int, st: Status)
    requires
        distinct(entries),
        0 <= i < entries.len(),
    ensures
        distinct(entries.update(i, (entries[i].0, st))),
        status_map(entries.update(i, (entries[i].0, st))) == status_map(entries).insert(
            entries[i].0,
            st,
        ),
        forall|w: Status| #[trigger]
            counted(entries.update(i, (entries[i].0, st)), w) == counted(entries, w) - hit(
                entries[i].1,
                w,
            ) + hit(st, w),
{
    let k = entries[i].0;
    let after = entries.update(i, (k, st));
    assert(distinct(after)) by {
        assert forall|a: int, b: int|
            0 <= a < after.len() && 0 <= b < after.len() && (#[trigger] after[a]).0 == (
            #[trigger] after[b]).0 implies a == b by {
            assert(entries[a].0 == after[a].0);
            assert(entries[b].0 == after[b].0);
        }
    }
    let m = status_map(after);
    let n = status_map(entries).insert(k, st);
    assert forall|q: K| m.contains_key(q) == n.contains_key(q) by {
        if m.contains_key(q) {
            let a = lemma_find(after, q);
            assert(key_at(entries, q, a));
        }
        if n.contains_key(q) {
            if q == k {
                assert(key_at(after, q, i));
            } else {
                let a = lemma_find(entries, q);
                assert(key_at(after, q, a));
            }
        }
    }
    assert forall|q: K| m.contains_key(q) implies m[q] == n[q] by {
        let a = lemma_find(after, q);
        lemma_at(entries, a);
        if a != i {
            assert(entries[a].0 != entries[i].0);
        }
    }
    assert(m =~= n);
    assert forall|w: Status| #[trigger] counted(after, w) == counted(entries, w) - hit(
        entries[i].1,
        w,
    ) + hit(st, w) by {
        lemma_counted_update(entries, i, st, w);
    }
}

proof fn lemma_counted_update<K>(entries: Seq<(K, Status)>, i: int, st: Status, w: Status)
    requires
        0 <= i < entries.len(),
    ensures
        counted(entries.update(i, (entries[i].0, st)), w) == counted(entries, w) - hit(
            entries[i].1,
            w,
        ) + hit(st, w),
    decreases entries.len(),
{
    let after = entries.update(i, (entries[i].0, st));
    if i < entries.len() - 1 {
        assert(after.drop_last() =~= entries.drop_last().update(i, (entries[i].0, st)));
        lemma_counted_update(entries.drop_last(), i, st, w);
    } else {
        assert(after.drop_last() =~= entries.drop_last());
    }
}

proof fn lemma_add<K>(entries: Seq<(K, Status)>, k: K, st: Status)
    requires
        distinct(entries),
        !status_map(entries).contains_key(k),
    ensures
        distinct(entries.push((k, st))),
        status_map(entries.push((k, st))) == status_map(entries).insert(k, st),
        forall|w: Status| #[trigger]
            counted(entries.push((k, st)), w) == counted(entries, w) + hit(st, w),
{
    let after = entries.push((k, st));
    let n = entries.len() as int;
    assert forall|a: int| 0 <= a < n implies (#[trigger] entries[a]).0 != k by {
        if entries[a].0 == k {
            assert(key_at(entries, k, a));
        }
    }
    assert(distinct(after)) by {
        assert forall|a: int, b: int|
            0 <= a < after.len() && 0 <= b < after.len() && (#[trigger] after[a]).0 == (
            #[trigger] after[b]).0 implies a == b by {
            if a < n && b < n {
                assert(entries[a].0 == entries[b].0);
            } else if a < n {
                assert(entries[a].0 != k);
            } else if b < n {
                assert(entries[b].0 != k);
            }
        }
    }
    let m = status_map(after);
    let w = status_map(entries).insert(k, st);
    assert forall|q: K| m.contains_key(q) == w.contains_key(q) by {
        if m.contains_key(q) {
            let a = lemma_find(after, q);
            if a < n {
                assert(key_at(entries, q, a));
            }
        }
        if w.contains_key(q) {
            if q == k {
                assert(key_at(after, q, n));
            } else {
                let a = lemma_find(entries, q);
                assert(key_at(after, q, a));
            }
        }
    }
    assert forall|q: K| m.contains_key(q) implies m[q] == w[q] by {
        let a = lemma_find(after, q);
        if a < n {
            lemma_at(entries, a);
        }
    }
    assert(m =~= w);
    assert(after.drop_last() =~= entries);
}

proof fn lemma_counted_remove<K>(entries: Seq<(K, Status)>, i: int, w: Status)
    requires
        0 <= i < entries.len(),
    ensures
        counted(entries.remove(i), w) == counted(entries, w) - hit(entries[i].1, w),
    decreases entries.len(),
{
    let after = entries.remove(i);
    if i < entries.len() - 1 {
        assert(after.drop_last() =~= entries.drop_last().remove(i));
        assert(after.last() == entries.last());
        lemma_counted_remove(entries.drop_last(), i, w);
    } else {
        assert(after =~= entries.drop_last());
    }
}

proof fn lemma_drop<K>(entries: Seq<(K, Status)>, i: int)
    requires
        distinct(entries),
        0 <= i < entries.len(),
    ensures
        distinct(entries.remove(i)),
        status_map(entries.remove(i)) == status_map(entries).remove(entries[i].0),
        forall|w: Status| #[trigger]
            counted(entries.remove(i), w) == counted(entries, w) - hit(entries[i].1, w),
{
    let k = entries[i].0;
    let after = entries.remove(i);
    assert forall|a: int| 0 <= a < after.len() implies (#[trigger] after[a]) == entries[if a < i {
        a
    } else {
        a + 1
    }] by {}
    assert(distinct(after)) by {
        assert forall|a: int, b: int|
            0 <= a < after.len() && 0 <= b < after.len() && (#[trigger] after[a]).0 == (
            #[trigger] after[b]).0 implies a == b by {
            let x = if a < i { a } else { a + 1 };
            let y = if b < i { b } else { b + 1 };
            assert(entries[x].0 == entries[y].0);
        }
    }
    let m = status_map(after);
    let w = status_map(entries).remove(k);
    assert forall|q: K| m.contains_key(q) == w.contains_key(q) by {
        if m.contains_key(q) {
            let a = lemma_find(after, q);
            let x = if a < i { a } else { a + 1 };
            assert(key_at(entries, q, x));
            assert(entries[x].0 != entries[i].0);
        }
        if w.contains_key(q) {
            let a = lemma_find(entries, q);
            let x = if a < i { a } else { a - 1 };
            assert(key_at(after, q, x));
        }
    }
    assert forall|q: K| m.contains_key(q) implies m[q] == w[q] by {
        let a = lemma_find(after, q);
        let x = if a < i { a } else { a + 1 };
        lemma_at(entries, x);
    }
    assert(m =~= w);
    assert forall|w: Status| #[trigger] counted(after, w) == counted(entries, w) - hit(
        entries[i].1,
        w,
    ) by {
        lemma_counted_remove(entries, i, w);
    }
}

impl<K> View for StatusMap<K> {
    type V = Map<K, Status>;

    open spec fn view(&self) -> Map<K, Status> {
        status_map(self.entries@)
    }
}

impl<K: Key> StatusMap<K> {
    /// No key stands twice.
    pub open spec fn wf(self) -> bool {
        distinct(self.entries@)
    }

    /// The number of tiles with a status.
    pub open spec fn count(self, which: Status) -> int {
        counted(self.entries@, which)
    }

    /// One where a tile has the status asked for, nothing otherwise.
    pub open spec fn hits(self, k: K, which: Status) -> int {
        if self@.contains_key(k) {
            hit(self@[k], which)
        } else {
            0
        }
    }

    /// No tiles.
    pub fn new() -> (r: Self)
        ensures
            r.wf(),
            r@ == Map::<K, Status>::empty(),
            forall|w: Status| #[trigger] r.count(w) == 0,
    {
        let r = StatusMap { entries: Vec::new() };
        assert(r@ =~= Map::<K, Status>::empty());
        r
    }

    fn position(&self, k: &K) -> (r: Option<usize>)
        requires
            self.wf(),
        ensures
            match r {
                None => !self@.contains_key(*k),
                Some(i) => {
                    &&& i < self.entries@.len()
                    &&& self.entries@[i as int].0 == *k
                    &&& self@.contains_key(*k)
                    &&& self@[*k] == self.entries@[i as int].1
                },
            },
    {
        let mut i: usize = 0;
        while i < self.entries.len()
            invariant
                self.wf(),
                i <= self.entries@.len(),
                forall|j: int| 0 <= j < i ==> !#[trigger] key_at(self.entries@, *k, j),
            decreases self.entries@.len() - i,
        {
            if self.entries[i].0.is(k) {
                proof {
                    lemma_at(self.entries@, i as int);
                }
                return Some(i);
            }
            i = i + 1;
        }
        assert(forall|j: int| !#[trigger] key_at(self.entries@, *k, j));
        None
    }

    /// The status of a tile.
    pub fn get(&self, k: &K) -> (r: Option<Status>)
        requires
            self.wf(),
        ensures
            r == if self@.contains_key(*k) {
                Some(self@[*k])
            } else {
                None
            },
    {
        match self.position(k) {
            None => None,
            Some(i) => Some(self.entries[i].1),
        }
    }

    /// Sets the status of a tile.
    pub fn insert(&mut self, k: K, st: Status)
        requires
            old(self).wf(),
        ensures
            final(self).wf(),
            final(self)@ == old(self)@.insert(k, st),
            forall|w: Status| #[trigger]
                final(self).count(w) == old(self).count(w) - old(self).hits(k, w) + hit(st, w),
    {
        let ghost before = self.entries@;
        match self.position(&k) {
            None => {
                self.entries.push((k, st));
                proof {
                    lemma_add(before, k, st);
                }
            },
            Some(i) => {
                self.entries[i] = (k, st);
                proof {
                    lemma_set(before, i as int, st);
                }
            },
        }
    }

    /// Forgets a tile.
    pub fn remove(&mut self, k: &K)
        requires
            old(self).wf(),
        ensures
            final(self).wf(),
            final(self)@ == old(self)@.remove(*k),
            forall|w: Status| #[trigger]
                final(self).count(w) == old(self).count(w) - old(self).hits(*k, w),
    {
        let ghost before = self.entries@;
        match self.position(k) {
            None => {
                assert(self@ =~= self@.remove(*k));
            },
            Some(i) => {
                let _ = self.entries.remove(i);
                proof {
                    lemma_drop(before, i as int);
                }
            },
        }
    }
}

// ---------- the order of use ----------

/// A list with a key moved to its end, where the list holds it.
pub open spec fn moved_back<K>(lru: Seq<K>, k: K) -> Seq<K> {
    if lru.contains(k) {
        lru.remove(lru.index_of(k)).push(k)
    } else {
        lru
    }
}

/// A list after each of the first `n` wanted keys was moved to its end in turn.
pub open spec fn touched<K>(lru: Seq<K>, wanted: Seq<K>, n: int) -> Seq<K>
    decreases n,
{
    if n <= 0 {
        lru
    } else {
        moved_back(touched(lru, wanted, n - 1), wanted[n - 1])
    }
}

/// Moving a key to the end keeps the keys of the list, each once.
pub proof fn lemma_moved_back<K>(lru: Seq<K>, k: K)
    requires
        lru.no_duplicates(),
    ensures
        moved_back(lru, k).no_duplicates(),
        moved_back(lru, k).len() == lru.len(),
        forall|q: K| moved_back(lru, k).contains(q) <==> lru.contains(q),
{
    if lru.contains(k) {
        let i = lru.index_of(k);
        let rest = lru.remove(i);
        let after = rest.push(k);
        let n = rest.len() as int;
        assert forall|a: int| 0 <= a < n implies (#[trigger] rest[a]) == lru[if a < i {
            a
        } else {
            a + 1
        }] by {}
        assert forall|a: int, b: int| 0 <= a < after.len() && 0 <= b < after.len() && a != b implies after[a]
            != after[b] by {
            let x = if a == n { i } else if a < i { a } else { a + 1 };
            let y = if b == n { i } else if b < i { b } else { b + 1 };
            assert(after[a] == lru[x]);
            assert(after[b] == lru[y]);
        }
        assert forall|q: K| after.contains(q) <==> lru.contains(q) by {
            if after.contains(q) {
                let a = choose|a: int| 0 <= a < after.len() && after[a] == q;
                let x = if a == n { i } else if a < i { a } else { a + 1 };
                assert(lru[x] == q);
            }
            if lru.contains(q) {
                let x = choose|x: int| 0 <= x < lru.len() && lru[x] == q;
                let a = if x == i { n } else if x < i { x } else { x - 1 };
                assert(after[a] == q);
            }
        }
    }
}

/// Marking tiles as used keeps the loaded tiles, each once.
pub proof fn touching_keeps_the_tiles<K>(lru: Seq<K>, wanted: Seq<K>, n: int)
    requires
        lru.no_duplicates(),
    ensures
        touched(lru, wanted, n).no_duplicates(),
        touched(lru, wanted, n).len() == lru.len(),
        forall|q: K| touched(lru, wanted, n).contains(q) <==> lru.contains(q),
    decreases n,
{
    if n > 0 {
        touching_keeps_the_tiles(lru, wanted, n - 1);
        lemma_moved_back(touched(lru, wanted, n - 1), wanted[n - 1]);
    }
}

/// Whether a list of keys holds a key.
pub fn list_has<K: Key>(list: &[K], k: &K) -> (r: bool)
    ensures
        r == list@.contains(*k),
{
    let mut i: usize = 0;
    while i < list.len()
        invariant
            i <= list@.len(),
            forall|j: int| 0 <= j < i ==> list@[j] != *k,
        decreases list@.len() - i,
    {
        if list[i].is(k) {
            return true;
        }
        i = i + 1;
    }
    false
}

// ---------- the stream ----------

/// How hard a stream may work. Times are in nanoseconds.
#[derive(Debug, Clone, Copy, PartialEq, Eq, Structural)]
pub struct Limits {
    /// How many tiles may be fetched at once.
    pub max_inflight: usize,
    /// The least time between two requests.
    pub interval: u64,
    /// The time after which a failed tile is tried again.
    pub retry: u64,
}

/// The state of a tile stream.
#[derive(Debug)]
pub struct Stream<K> {
    pub limits: Limits,
    pub tiles: StatusMap<K>,
    /// The loaded tiles, the one used longest ago first.
    pub lru: Vec<K>,
    pub inflight: usize,
    /// The time since the last request.
    pub since_request: u64,
}

/// A sum of times that stays at the greatest one.
pub open spec fn time_sum(a: u64, b: u64) -> u64 {
    if a + b > u64::MAX {
        u64::MAX
    } else {
        (a + b) as u64
    }
}

/// Whether a tile may be requested: it is not known, or its time to be tried again has come.
pub open spec fn due<K>(tiles: Map<K, Status>, k: K, now: u64) -> bool {
    tiles.contains_key(k) ==> match tiles[k] {
        Status::Failed { retry_at } => now >= retry_at,
        _ => false,
    }
}

/// The first of the wanted tiles, from index `i` on, that may be requested.
pub open spec fn first_due<K>(tiles: Map<K, Status>, wanted: Seq<K>, now: u64, i: int) -> Option<K>
    decreases wanted.len() - i,
{
    if i < 0 || i >= wanted.len() {
        None
    } else if due(tiles, wanted[i], now) {
        Some(wanted[i])
    } else {
        first_due(tiles, wanted, now, i + 1)
    }
}

/// How many of the tiles used longest ago are dropped: as many as there are too many, but none
/// from the first wanted one on.
pub open spec fn surplus<K>(lru: Seq<K>, wanted: Seq<K>, max: nat) -> nat
    decreases lru.len(),
{
    if lru.len() <= max || wanted.contains(lru[0]) {
        0
    } else {
        surplus(lru.skip(1), wanted, max) + 1
    }
}

/// Looks at the tile used longest ago, up to `attempts` times while there are too many: one to
/// be kept goes to the end, any other is dropped. Gives the tiles left and those dropped.
pub open spec fn swept<K>(lru: Seq<K>, keep: Seq<K>, max: nat, attempts: nat) -> (Seq<K>, Seq<K>)
    decreases attempts,
{
    if lru.len() <= max || attempts == 0 {
        (lru, Seq::empty())
    } else if keep.contains(lru[0]) {
        swept(lru.skip(1).push(lru[0]), keep, max, (attempts - 1) as nat)
    } else {
        let (left, dropped) = swept(lru.skip(1), keep, max, (attempts - 1) as nat);
        (left, seq![lru[0]] + dropped)
    }
}

/// The statuses without some tiles.
pub open spec fn without<K>(tiles: Map<K, Status>, dropped: Seq<K>) -> Map<K, Status> {
    tiles.remove_keys(dropped.to_set())
}

/// What a stream stands for.
#[verifier::reject_recursive_types(K)]
pub struct StreamView<K> {
    pub tiles: Map<K, Status>,
    pub lru: Seq<K>,
    pub inflight: int,
    pub since_request: u64,
}

impl<K> View for Stream<K> {
    type V = StreamView<K>;

    open spec fn view(&self) -> StreamView<K> {
        StreamView {
            tiles: self.tiles@,
            lru: self.lru@,
            inflight: self.inflight as int,
            since_request: self.since_request,
        }
    }
}

impl<K> StreamView<K> {
    /// A stream without tiles.
    pub open spec fn empty() -> Self {
        StreamView { tiles: Map::empty(), lru: Seq::empty(), inflight: 0, since_request: 0 }
    }

    /// The stream after the wanted tiles were marked as used.
    pub open spec fn touch(self, wanted: Seq<K>) -> Self {
        StreamView { lru: touched(self.lru, wanted, wanted.len() as int), ..self }
    }

    /// The stream after fetching a tile ended.
    pub open spec fn finish(self, limits: Limits, k: K, ok: bool, now: u64) -> Self {
        if ok {
            StreamView {
                tiles: self.tiles.insert(k, Status::Loaded),
                lru: self.lru.push(k),
                inflight: self.inflight - 1,
                ..self
            }
        } else {
            StreamView {
                tiles: self.tiles.insert(
                    k,
                    Status::Failed { retry_at: time_sum(now, limits.retry) },
                ),
                inflight: self.inflight - 1,
                ..self
            }
        }
    }

    /// The tile to be fetched next, once a time has passed: the first one due, where enough time
    /// has passed since the last request and not too many are being fetched.
    pub open spec fn pick(self, limits: Limits, wanted: Seq<K>, dt: u64, now: u64) -> Option<K> {
        if time_sum(self.since_request, dt) >= limits.interval && self.inflight
            < limits.max_inflight {
            first_due(self.tiles, wanted, now, 0)
        } else {
            None
        }
    }

    /// The stream after a time has passed and the tile to be fetched next was picked.
    pub open spec fn request(self, limits: Limits, wanted: Seq<K>, dt: u64, now: u64) -> Self {
        match self.pick(limits, wanted, dt, now) {
            Some(k) => StreamView {
                tiles: self.tiles.insert(k, Status::Fetching),
                inflight: self.inflight + 1,
                since_request: 0,
                ..self
            },
            None => StreamView { since_request: time_sum(self.since_request, dt), ..self },
        }
    }

    /// The tiles that eviction drops.
    pub open spec fn evicted(self, wanted: Seq<K>, max: nat) -> Seq<K> {
        self.lru.take(surplus(self.lru, wanted, max) as int)
    }

    /// The stream after eviction.
    pub open spec fn evict(self, wanted: Seq<K>, max: nat) -> Self {
        StreamView {
            tiles: without(self.tiles, self.evicted(wanted, max)),
            lru: self.lru.skip(surplus(self.lru, wanted, max) as int),
            ..self
        }
    }

    /// The tiles that a sweep drops.
    pub open spec fn swept_out(self, keep: Seq<K>, max: nat) -> Seq<K> {
        swept(self.lru, keep, max, self.lru.len()).1
    }

    /// The stream after a sweep.
    pub open spec fn sweep(self, keep: Seq<K>, max: nat) -> Self {
        StreamView {
            tiles: without(self.tiles, self.swept_out(keep, max)),
            lru: swept(self.lru, keep, max, self.lru.len()).0,
            ..self
        }
    }
}

impl<K: Key> Stream<K> {
    /// The loaded tiles are those in the order of use, each once, and the tiles being fetched
    /// are counted and not too many.
    pub open spec fn wf(self) -> bool {
        &&& self.tiles.wf()
        &&& self.lru@.no_duplicates()
        &&& forall|k: K| #[trigger]
            self.lru@.contains(k) <==> self.tiles@.contains_key(k) && self.tiles@[k]
                == Status::Loaded
        &&& self.tiles.count(Status::Loaded) == self.lru@.len()
        &&& self.tiles.count(Status::Fetching) == self.inflight
        &&& self.inflight <= self.limits.max_inflight
    }

    /// A stream without tiles.
    pub fn new(limits: Limits) -> (r: Self)
        ensures
            r.wf(),
            r.limits == limits,
            r@ == StreamView::<K>::empty(),
    {
        Stream { limits, tiles: StatusMap::new(), lru: Vec::new(), inflight: 0, since_request: 0 }
    }

    /// The number of loaded tiles.
    pub fn loaded(&self) -> (r: usize)
        requires
            self.wf(),
        ensures
            r == self.tiles.count(Status::Loaded),
    {
        self.lru.len()
    }

    /// Marks the wanted tiles as used.
    pub fn touch(&mut self, wanted: &[K])
        requires
            old(self).wf(),
        ensures
            final(self).wf(),
            final(self)@ == old(self)@.touch(wanted@),
            final(self).limits == old(self).limits,
    {
        let ghost start = self.lru@;
        let mut i: usize = 0;
        while i < wanted.len()
            invariant
                i <= wanted@.len(),
                start.no_duplicates(),
                start == old(self).lru@,
                old(self).wf(),
                self.lru@ == touched(start, wanted@, i as int),
                self.tiles == old(self).tiles,
                self.inflight == old(self).inflight,
                self.since_request == old(self).since_request,
                self.limits == old(self).limits,
            decreases wanted@.len() - i,
        {
            let k: K = wanted[i];
            proof {
                touching_keeps_the_tiles(start, wanted@, i as int);
            }
            let mut q: usize = 0;
            while q < self.lru.len() && !self.lru[q].is(&k)
                invariant
                    q <= self.lru@.len(),
                    forall|j: int| 0 <= j < q ==> self.lru@[j] != k,
                decreases self.lru@.len() - q,
            {
                q = q + 1;
            }
            if q < self.lru.len() {
                let ghost before = self.lru@;
                assert(before[q as int] == k);
                assert(before.index_of(k) == q);
                let _ = self.lru.remove(q);
                self.lru.push(k);
            } else {
                assert(!self.lru@.contains(k));
            }
            i = i + 1;
        }
        proof {
            touching_keeps_the_tiles(start, wanted@, wanted@.len() as int);
            assert forall|k: K| #[trigger] self.lru@.contains(k) <==> self.tiles@.contains_key(k)
                && self.tiles@[k] == Status::Loaded by {
                assert(self.lru@.contains(k) <==> start.contains(k));
            }
        }
    }

    /// Notes that fetching a tile ended: it is loaded, or to be tried again later.
    pub fn finish(&mut self, k: K, ok: bool, now: u64)
        requires
            old(self).wf(),
            old(self).tiles@.contains_key(k),
            old(self).tiles@[k] == Status::Fetching,
        ensures
            final(self).wf(),
            final(self)@ == old(self)@.finish(old(self).limits, k, ok, now),
            final(self).limits == old(self).limits,
    {
        let ghost before = self.tiles;
        let ghost lru = self.lru@;
        proof {
            lemma_count_bounds(self.tiles.entries@, Status::Fetching);
            let i = lemma_find(self.tiles.entries@, k);
            lemma_counted_remove(self.tiles.entries@, i, Status::Fetching);
            lemma_count_bounds(self.tiles.entries@.remove(i), Status::Fetching);
        }
        self.inflight = self.inflight - 1;
        if ok {
            self.tiles.insert(k, Status::Loaded);
            self.lru.push(k);
            assert(!lru.contains(k));
            assert forall|q: K| #[trigger] self.lru@.contains(q) <==> self.tiles@.contains_key(q)
                && self.tiles@[q] == Status::Loaded by {
                if q == k {
                    assert(self.lru@[lru.len() as int] == k);
                } else {
                    if self.lru@.contains(q) {
                        let j = choose|j: int| 0 <= j < self.lru@.len() && self.lru@[j] == q;
                        assert(lru[j] == q);
                    }
                    if lru.contains(q) {
                        let j = choose|j: int| 0 <= j < lru.len() && lru[j] == q;
                        assert(self.lru@[j] == q);
                    }
                }
            }
        } else {
            let retry_at: u64 = now.saturating_add(self.limits.retry);
            self.tiles.insert(k, Status::Failed { retry_at });
            assert(!lru.contains(k));
        }
    }

    /// Lets time pass and picks the tile to be fetched next, where the stream may start one.
    pub fn request(&mut self, wanted: &[K], dt: u64, now: u64) -> (r: Option<K>)
        requires
            old(self).wf(),
        ensures
            final(self).wf(),
            final(self).limits == old(self).limits,
            r == old(self)@.pick(old(self).limits, wanted@, dt, now),
            final(self)@ == old(self)@.request(old(self).limits, wanted@, dt, now),
    {
        self.since_request = self.since_request.saturating_add(dt);
        if self.since_request < self.limits.interval || self.inflight >= self.limits.max_inflight {
            return None;
        }
        let mut i: usize = 0;
        while i < wanted.len()
            invariant
                i <= wanted@.len(),
                self.wf(),
                old(self).wf(),
                self.tiles == old(self).tiles,
                self.lru == old(self).lru,
                self.limits == old(self).limits,
                self.inflight == old(self).inflight,
                self.inflight < self.limits.max_inflight,
                self.since_request >= self.limits.interval,
                self.since_request == time_sum(old(self).since_request, dt),
                first_due(self.tiles@, wanted@, now, 0) == first_due(
                    self.tiles@,
                    wanted@,
                    now,
                    i as int,
                ),
            decreases wanted@.len() - i,
        {
            let k: K = wanted[i];
            let ready: bool = match self.tiles.get(&k) {
                None => true,
                Some(Status::Failed { retry_at }) => now >= retry_at,
                Some(_) => false,
            };
            if ready {
                self.since_request = 0;
                self.inflight = self.inflight + 1;
                self.tiles.insert(k, Status::Fetching);
                assert(!self.lru@.contains(k));
                return Some(k);
            }
            i = i + 1;
        }
        None
    }

    /// Forgets a loaded tile that is no longer in the order of use.
    fn forget(&mut self, k: K, Ghost(before): Ghost<Seq<K>>)
        requires
            before.no_duplicates(),
            before.len() > 0,
            before[0] == k,
            forall|q: K| #[trigger]
                before.contains(q) <==> old(self).tiles@.contains_key(q) && old(self).tiles@[q]
                    == Status::Loaded,
            old(self).tiles.wf(),
            old(self).tiles.count(Status::Loaded) == before.len(),
            old(self).tiles.count(Status::Fetching) == old(self).inflight,
            old(self).inflight <= old(self).limits.max_inflight,
            old(self).lru@ == before.skip(1),
        ensures
            final(self).wf(),
            final(self).tiles@ == old(self).tiles@.remove(k),
            final(self).lru == old(self).lru,
            final(self).inflight == old(self).inflight,
            final(self).since_request == old(self).since_request,
            final(self).limits == old(self).limits,
    {
        assert(before.contains(k));
        self.tiles.remove(&k);
        proof {
            let lru = self.lru@;
            assert forall|q: K| #[trigger] lru.contains(q) <==> self.tiles@.contains_key(q)
                && self.tiles@[q] == Status::Loaded by {
                if lru.contains(q) {
                    let j = choose|j: int| 0 <= j < lru.len() && lru[j] == q;
                    assert(before[j + 1] == q);
                    assert(before.contains(q));
                }
                if self.tiles@.contains_key(q) && self.tiles@[q] == Status::Loaded {
                    assert(before.contains(q));
                    let j = choose|j: int| 0 <= j < before.len() && before[j] == q;
                    assert(lru[j - 1] == q);
                }
            }
        }
    }

    /// Drops the tiles used longest ago while there are more than `max`, up to the first one
    /// that is wanted. Returns the tiles dropped.
    pub fn evict(&mut self, wanted: &[K], max: usize) -> (dropped: Vec<K>)
        requires
            old(self).wf(),
        ensures
            final(self).wf(),
            dropped@ == old(self)@.evicted(wanted@, max as nat),
            final(self)@ == old(self)@.evict(wanted@, max as nat),
            final(self).limits == old(self).limits,
    {
        let ghost start = self.lru@;
        let ghost all = self.tiles@;
        let mut dropped: Vec<K> = Vec::new();
        proof {
            assert(start.skip(0) =~= start);
            assert(without(all, Seq::empty()) =~= all);
        }
        while self.lru.len() > max && !list_has(wanted, &self.lru[0])
            invariant
                self.wf(),
                dropped@.len() <= start.len(),
                self.lru@ == start.skip(dropped@.len() as int),
                dropped@ == start.take(dropped@.len() as int),
                surplus(start, wanted@, max as nat) == dropped@.len() + surplus(
                    self.lru@,
                    wanted@,
                    max as nat,
                ),
                self.tiles@ == without(all, dropped@),
                self.inflight == old(self).inflight,
                self.since_request == old(self).since_request,
                self.limits == old(self).limits,
            decreases self.lru@.len(),
        {
            let ghost before = self.lru@;
            let ghost done = dropped@;
            let k: K = self.lru.remove(0);
            assert(self.lru@ =~= before.skip(1));
            self.forget(k, Ghost(before));
            dropped.push(k);
            proof {
                assert(dropped@ =~= start.take(dropped@.len() as int));
                assert(self.lru@ =~= start.skip(dropped@.len() as int));
                lemma_without_push(all, done, k);
            }
        }
        dropped
    }

    /// Looks once at each loaded tile, the one used longest ago first, while there are more
    /// than `max`: drops it, or moves it to the end where it is to be kept. Returns the tiles
    /// dropped.
    pub fn sweep(&mut self, keep: &[K], max: usize) -> (dropped: Vec<K>)
        requires
            old(self).wf(),
        ensures
            final(self).wf(),
            dropped@ == old(self)@.swept_out(keep@, max as nat),
            final(self)@ == old(self)@.sweep(keep@, max as nat),
            final(self).limits == old(self).limits,
    {
        let ghost start = self.lru@;
        let ghost all = self.tiles@;
        let mut dropped: Vec<K> = Vec::new();
        let mut attempts: usize = self.lru.len();
        assert(without(all, Seq::empty()) =~= all);
        assert(dropped@ + swept(start, keep@, max as nat, attempts as nat).1 =~= swept(
            start,
            keep@,
            max as nat,
            attempts as nat,
        ).1);
        while self.lru.len() > max && attempts > 0
            invariant
                self.wf(),
                self.tiles@ == without(all, dropped@),
                self.inflight == old(self).inflight,
                self.since_request == old(self).since_request,
                self.limits == old(self).limits,
                ({
                    let whole = swept(start, keep@, max as nat, start.len());
                    let rest = swept(self.lru@, keep@, max as nat, attempts as nat);
                    whole.0 == rest.0 && whole.1 == dropped@ + rest.1
                }),
            decreases attempts,
        {
            attempts = attempts - 1;
            let ghost before = self.lru@;
            let ghost done = dropped@;
            let k: K = self.lru.remove(0);
            assert(self.lru@ =~= before.skip(1));
            if list_has(keep, &k) {
                self.lru.push(k);
                proof {
                    let now = before.skip(1).push(k);
                    assert(self.lru@ == now);
                    assert(before.index_of(k) == 0);
                    assert(now =~= moved_back(before, k));
                    lemma_moved_back(before, k);
                    assert forall|q: K| #[trigger] now.contains(q) <==> self.tiles@.contains_key(q)
                        && self.tiles@[q] == Status::Loaded by {
                        assert(now.contains(q) <==> before.contains(q));
                    }
                }
            } else {
                self.forget(k, Ghost(before));
                dropped.push(k);
                proof {
                    let rest = swept(self.lru@, keep@, max as nat, attempts as nat);
                    assert(done + (seq![k] + rest.1) =~= dropped@ + rest.1);
                    lemma_without_push(all, done, k);
                }
            }
        }
        assert(dropped@ + Seq::<K>::empty() =~= dropped@);
        dropped
    }
}

proof fn lemma_without_push<K>(tiles: Map<K, Status>, dropped: Seq<K>, k: K)
    ensures
        without(tiles, dropped.push(k)) == without(tiles, dropped).remove(k),
{
    assert(dropped.push(k).to_set() =~= dropped.to_set().insert(k)) by {
        assert forall|q: K| dropped.push(k).to_set().contains(q) <==> dropped.to_set().insert(
            k,
        ).contains(q) by {
            if dropped.contains(q) {
                let j = choose|j: int| 0 <= j < dropped.len() && dropped[j] == q;
                assert(dropped.push(k)[j] == q);
            }
            if dropped.push(k).contains(q) && q != k {
                let j = choose|j: int| 0 <= j < dropped.push(k).len() && dropped.push(k)[j] == q;
                assert(dropped[j] == q);
            }
            assert(dropped.push(k)[dropped.len() as int] == k);
        }
    }
    assert(without(tiles, dropped.push(k)) =~= without(tiles, dropped).remove(k));
}

proof fn lemma_count_bounds<K>(entries: Seq<(K, Status)>, w: Status)
    ensures
        0 <= counted(entries, w) <= entries.len(),
    decreases entries.len(),
{
    if entries.len() > 0 {
        lemma_count_bounds(entries.drop_last(), w);
    }
}

// ---------- what eviction guarantees ----------

/// Eviction drops no wanted tile, and stops only where no more than `max` tiles are left or the
/// tile used longest ago is wanted.
pub proof fn eviction_spares_wanted_tiles<K>(lru: Seq<K>, wanted: Seq<K>, max: nat)
    ensures
        surplus(lru, wanted, max) <= lru.len(),
        forall|i: int| 0 <= i < surplus(lru, wanted, max) ==> !wanted.contains(#[trigger] lru[i]),
        ({
            let left = lru.skip(surplus(lru, wanted, max) as int);
            left.len() <= max || wanted.contains(left[0])
        }),
        lru.len() > max ==> lru.len() - surplus(lru, wanted, max) >= max,
    decreases lru.len(),
{
    if lru.len() <= max || wanted.contains(lru[0]) {
        assert(lru.skip(0) =~= lru);
    } else {
        let rest = lru.skip(1);
        eviction_spares_wanted_tiles(rest, wanted, max);
        let n = surplus(lru, wanted, max);
        assert forall|i: int| 0 <= i < n implies !wanted.contains(#[trigger] lru[i]) by {
            if i > 0 {
                assert(rest[i - 1] == lru[i]);
            }
        }
        assert(lru.skip(n as int) =~= rest.skip(n - 1));
    }
}

proof fn lemma_swept<K>(lru: Seq<K>, keep: Seq<K>, max: nat, attempts: nat)
    requires
        attempts <= lru.len(),
        forall|i: int| attempts <= i < lru.len() ==> keep.contains(#[trigger] lru[i]),
    ensures
        ({
            let (left, dropped) = swept(lru, keep, max, attempts);
            &&& forall|i: int| 0 <= i < dropped.len() ==> !keep.contains(#[trigger] dropped[i])
            &&& left.len() <= max || forall|i: int|
                0 <= i < left.len() ==> keep.contains(#[trigger] left[i])
            &&& left.len() + dropped.len() == lru.len()
            &&& lru.len() > max ==> left.len() >= max
        }),
    decreases attempts,
{
    if lru.len() > max && attempts > 0 {
        let rest = lru.skip(1);
        if keep.contains(lru[0]) {
            let next = rest.push(lru[0]);
            assert forall|i: int| attempts - 1 <= i < next.len() implies keep.contains(
                #[trigger] next[i],
            ) by {
                if i < rest.len() {
                    assert(next[i] == lru[i + 1]);
                }
            }
            lemma_swept(next, keep, max, (attempts - 1) as nat);
        } else {
            assert forall|i: int| attempts - 1 <= i < rest.len() implies keep.contains(
                #[trigger] rest[i],
            ) by {
                assert(rest[i] == lru[i + 1]);
            }
            lemma_swept(rest, keep, max, (attempts - 1) as nat);
            let (left, dropped) = swept(rest, keep, max, (attempts - 1) as nat);
            let all = seq![lru[0]] + dropped;
            assert forall|i: int| 0 <= i < all.len() implies !keep.contains(#[trigger] all[i]) by {
                if i > 0 {
                    assert(all[i] == dropped[i - 1]);
                }
            }
        }
    }
}

/// A sweep drops no tile that is to be kept, and leaves more than `max` tiles only where all
/// that are left are to be kept.
pub proof fn sweep_drops_all_it_may<K>(lru: Seq<K>, keep: Seq<K>, max: nat)
    ensures
        ({
            let (left, dropped) = swept(lru, keep, max, lru.len());
            &&& forall|i: int| 0 <= i < dropped.len() ==> !keep.contains(#[trigger] dropped[i])
            &&& left.len() <= max || forall|i: int|
                0 <= i < left.len() ==> keep.contains(#[trigger] left[i])
            &&& left.len() + dropped.len() == lru.len()
            &&& lru.len() > max ==> left.len() >= max
        }),
{
    lemma_swept(lru, keep, max, lru.len());
}

/// A tile that was just requested is not requested again before fetching it ended.
pub proof fn fetching_tiles_are_not_due<K>(tiles: Map<K, Status>, k: K, now: u64)
    ensures
        !due(tiles.insert(k, Status::Fetching), k, now),
        !due(tiles.insert(k, Status::Loaded), k, now),
{
}

/// A stream after the first `n` of some frames, each with the tiles it wants, the time that it takes
/// and the time at which it comes.
pub open spec fn after_frames<K>(
    s: StreamView<K>,
    limits: Limits,
    frames: Seq<(Seq<K>, u64, u64)>,
    n: int,
) -> StreamView<K>
    decreases n,
{
    if n <= 0 {
        s
    } else {
        let (wanted, dt, now) = frames[n - 1];
        after_frames(s, limits, frames, n - 1).request(limits, wanted, dt, now)
    }
}

/// The time that the first `n` of some frames take.
pub open spec fn time_of<K>(frames: Seq<(Seq<K>, u64, u64)>, n: int) -> int
    decreases n,
{
    if n <= 0 {
        0
    } else {
        time_of(frames, n - 1) + frames[n - 1].1
    }
}

/// After a request, no other one is made before the least time between two requests has passed,
/// however many frames it takes.
pub proof fn requests_keep_their_distance<K>(
    s: StreamView<K>,
    limits: Limits,
    frames: Seq<(Seq<K>, u64, u64)>,
    n: int,
)
    requires
        s.since_request == 0,
        0 <= n <= frames.len(),
        time_of(frames, n) < limits.interval,
    ensures
        after_frames(s, limits, frames, n) == (StreamView {
            since_request: time_of(frames, n) as u64,
            ..s
        }),
        forall|i: int|
            0 <= i < n ==> (#[trigger] after_frames(s, limits, frames, i)).pick(
                limits,
                frames[i].0,
                frames[i].1,
                frames[i].2,
            ) is None,
    decreases n,
{
    if n > 0 {
        lemma_time_is_positive(frames, n - 1);
        requests_keep_their_distance(s, limits, frames, n - 1);
    }
}

proof fn lemma_time_is_positive<K>(frames: Seq<(Seq<K>, u64, u64)>, n: int)
    ensures
        time_of(frames, n) >= 0,
    decreases n,
{
    if n > 0 {
        lemma_time_is_positive(frames, n - 1);
    }
}

/// The tile picked for a request is wanted and due, and no wanted tile before it is due.
pub proof fn request_picks_the_first_due_tile<K>(
    tiles: Map<K, Status>,
    wanted: Seq<K>,
    now: u64,
    i: int,
)
    requires
        0 <= i <= wanted.len(),
        forall|j: int| 0 <= j < i ==> !due(tiles, #[trigger] wanted[j], now),
    ensures
        match first_due(tiles, wanted, now, i) {
            Some(k) => exists|n: int|
                i <= n < wanted.len() && #[trigger] wanted[n] == k && due(tiles, k, now) && forall|
                    j: int,
                |
                    0 <= j < n ==> !due(tiles, #[trigger] wanted[j], now),
            None => forall|j: int| 0 <= j < wanted.len() ==> !due(tiles, #[trigger] wanted[j], now),
        },
    decreases wanted.len() - i,
{
    if i < wanted.len() && !due(tiles, wanted[i], now) {
        request_picks_the_first_due_tile(tiles, wanted, now, i + 1);
    }
}

} // verus!
