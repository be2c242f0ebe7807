//! The in-memory index: an ordered mapping from key to the location of the
//! key's most recent record in the log, with O(log n) lookup by binary
//! search over entries kept sorted by key.
//!
//! An entry's existence is the liveness signal for its key: tombstoned and
//! expired keys are removed outright, never retained with a flag set. The
//! index is a derived, cache-like structure and is always rebuildable from
//! the log by replay.

use vstd::prelude::*;
use vstd::slice::slice_to_vec;

verus! {

/// What the index records for a live key: the offset and length of the
/// byte range of the key's most recent record in the log, the tombstone
/// flag (always false for a held entry), and the optional expiry.
pub type IndexEntry = (u64, u64, bool, Option<u64>);

/// Whether an entry has expired by time `now` (seconds since epoch).
/// Entries with no expiry never expire.
pub open spec fn spec_expired(e: IndexEntry, now: u64) -> bool {
    match e.3 {
        Some(ts) => ts <= now,
        None => false,
    }
}

/// The map left by an expiry sweep at time `now`: the same entries, minus
/// the expired ones.
pub open spec fn spec_sweep(m: Map<Seq<u8>, IndexEntry>, now: u64) -> Map<Seq<u8>, IndexEntry> {
    Map::new(|k: Seq<u8>| m.contains_key(k) && !spec_expired(m[k], now), |k: Seq<u8>| m[k])
}

/// Strict lexicographic order on byte strings: a proper prefix comes
/// first, otherwise the first differing byte decides.
pub open spec fn lex_lt(a: Seq<u8>, b: Seq<u8>) -> bool
    decreases a.len(),
{
    if b.len() == 0 {
        false
    } else if a.len() == 0 {
        true
    } else if a[0] < b[0] {
        true
    } else if a[0] > b[0] {
        false
    } else {
        lex_lt(a.subrange(1, a.len() as int), b.subrange(1, b.len() as int))
    }
}

pub proof fn lemma_lex_lt_irreflexive(a: Seq<u8>)
    ensures
        !lex_lt(a, a),
    decreases a.len(),
{
    if a.len() > 0 {
        lemma_lex_lt_irreflexive(a.subrange(1, a.len() as int));
    }
}

/// Strictly ordered byte strings are distinct.
pub proof fn lemma_lex_lt_ne(a: Seq<u8>, b: Seq<u8>)
    requires
        lex_lt(a, b),
    ensures
        a != b,
{
    lemma_lex_lt_irreflexive(a);
}

pub proof fn lemma_lex_lt_transitive(a: Seq<u8>, b: Seq<u8>, c: Seq<u8>)
    requires
        lex_lt(a, b),
        lex_lt(b, c),
    ensures
        lex_lt(a, c),
    decreases a.len(),
{
    if a.len() > 0 && b.len() > 0 && c.len() > 0 {
        if a[0] == b[0] && b[0] == c[0] {
            lemma_lex_lt_transitive(
                a.subrange(1, a.len() as int),
                b.subrange(1, b.len() as int),
                c.subrange(1, c.len() as int),
            );
        }
    }
}

/// The order is decided past any shared prefix.
proof fn lemma_lex_lt_skip(a: Seq<u8>, b: Seq<u8>, i: int)
    requires
        0 <= i <= a.len(),
        i <= b.len(),
        forall|j: int| 0 <= j < i ==> a[j] == b[j],
    ensures
        lex_lt(a, b) == lex_lt(a.subrange(i, a.len() as int), b.subrange(i, b.len() as int)),
    decreases i,
{
    if i > 0 {
        let a1 = a.subrange(1, a.len() as int);
        let b1 = b.subrange(1, b.len() as int);
        lemma_lex_lt_skip(a1, b1, i - 1);
        assert(a1.subrange(i - 1, a1.len() as int) =~= a.subrange(i, a.len() as int));
        assert(b1.subrange(i - 1, b1.len() as int) =~= b.subrange(i, b.len() as int));
    } else {
        assert(a.subrange(0, a.len() as int) =~= a);
        assert(b.subrange(0, b.len() as int) =~= b);
    }
}

/// The entries' keys are strictly sorted; this is the index's invariant
/// and makes every key unique.
pub open spec fn sorted_by_key(entries: Seq<(Vec<u8>, IndexEntry)>) -> bool {
    forall|i: int, j: int|
        0 <= i < j < entries.len() ==> lex_lt((#[trigger] entries[i]).0@, (#[trigger] entries[j]).0@)
}

/// No two pairs carry the same key.
pub open spec fn unique_keys(entries: Seq<(Vec<u8>, IndexEntry)>) -> bool {
    forall|i: int, j: int|
        0 <= i < j < entries.len() ==> (#[trigger] entries[i]).0@ != (#[trigger] entries[j]).0@
}

proof fn lemma_sorted_unique(entries: Seq<(Vec<u8>, IndexEntry)>)
    requires
        sorted_by_key(entries),
    ensures
        unique_keys(entries),
{
    assert forall|i: int, j: int|
        0 <= i < j < entries.len() implies (#[trigger] entries[i]).0@ != (
    #[trigger] entries[j]).0@ by {
        lemma_lex_lt_ne(entries[i].0@, entries[j].0@);
    }
}

/// The map denoted by an association list, later pairs taking precedence.
pub open spec fn map_of(entries: Seq<(Vec<u8>, IndexEntry)>) -> Map<Seq<u8>, IndexEntry>
    decreases entries.len(),
{
    if entries.len() == 0 {
        Map::empty()
    } else {
        map_of(entries.drop_last()).insert(entries.last().0@, entries.last().1)
    }
}

/// The in-memory index over the log.
pub struct Index {
    entries: Vec<(Vec<u8>, IndexEntry)>,
}

impl View for Index {
    type V = Map<Seq<u8>, IndexEntry>;

    closed spec fn view(&self) -> Map<Seq<u8>, IndexEntry> {
        map_of(self.entries@)
    }
}

proof fn lemma_map_of_finite(entries: Seq<(Vec<u8>, IndexEntry)>)
    ensures
        map_of(entries).dom().finite(),
    decreases entries.len(),
{
    if entries.len() > 0 {
        lemma_map_of_finite(entries.drop_last());
    }
}

proof fn lemma_map_of_contains(entries: Seq<(Vec<u8>, IndexEntry)>, k: Seq<u8>)
    ensures
        map_of(entries).contains_key(k) <==> exists|i: int|
            0 <= i < entries.len() && (#[trigger] entries[i]).0@ == k,
    decreases entries.len(),
{
    if entries.len() > 0 {
        lemma_map_of_contains(entries.drop_last(), k);
        if map_of(entries).contains_key(k) {
            if entries.last().0@ == k {
                assert(entries[entries.len() - 1].0@ == k);
            } else {
                let i = choose|i: int|
                    0 <= i < entries.drop_last().len() && (#[trigger] entries.drop_last()[i]).0@
                        == k;
                assert(entries[i].0@ == k);
            }
        }
        if exists|i: int| 0 <= i < entries.len() && (#[trigger] entries[i]).0@ == k {
            let i = choose|i: int| 0 <= i < entries.len() && (#[trigger] entries[i]).0@ == k;
            if i < entries.len() - 1 {
                assert(entries.drop_last()[i].0@ == k);
            }
        }
    }
}

proof fn lemma_map_of_index(entries: Seq<(Vec<u8>, IndexEntry)>, i: int)
    requires
        unique_keys(entries),
        0 <= i < entries.len(),
    ensures
        map_of(entries).contains_key(entries[i].0@),
        map_of(entries)[entries[i].0@] == entries[i].1,
    decreases entries.len(),
{
    if i < entries.len() - 1 {
        lemma_map_of_index(entries.drop_last(), i);
        assert(entries[entries.len() - 1].0@ != entries[i].0@);
    }
}

proof fn lemma_map_of_dom_len(entries: Seq<(Vec<u8>, IndexEntry)>)
    requires
        unique_keys(entries),
    ensures
        map_of(entries).dom().finite(),
        map_of(entries).dom().len() == entries.len(),
    decreases entries.len(),
{
    lemma_map_of_finite(entries);
    if entries.len() > 0 {
        lemma_map_of_dom_len(entries.drop_last());
        lemma_map_of_contains(entries.drop_last(), entries.last().0@);
        assert(!map_of(entries.drop_last()).contains_key(entries.last().0@));
    }
}

proof fn lemma_map_of_update(entries: Seq<(Vec<u8>, IndexEntry)>, i: int, p: (Vec<u8>, IndexEntry))
    requires
        unique_keys(entries),
        0 <= i < entries.len(),
        entries[i].0@ == p.0@,
    ensures
        map_of(entries.update(i, p)) == map_of(entries).insert(p.0@, p.1),
    decreases entries.len(),
{
    if i == entries.len() - 1 {
        assert(entries.update(i, p).drop_last() =~= entries.drop_last());
        assert(map_of(entries.update(i, p)) =~= map_of(entries).insert(p.0@, p.1));
    } else {
        assert(entries.update(i, p).drop_last() =~= entries.drop_last().update(i, p));
        lemma_map_of_update(entries.drop_last(), i, p);
        assert(entries.last().0@ != p.0@);
        assert(map_of(entries.update(i, p)) =~= map_of(entries).insert(p.0@, p.1));
    }
}

proof fn lemma_map_of_insert_at(entries: Seq<(Vec<u8>, IndexEntry)>, i: int, p: (Vec<u8>, IndexEntry))
    requires
        0 <= i <= entries.len(),
        forall|l: int| 0 <= l < entries.len() ==> (#[trigger] entries[l]).0@ != p.0@,
    ensures
        map_of(entries.insert(i, p)) == map_of(entries).insert(p.0@, p.1),
    decreases entries.len(),
{
    if i == entries.len() {
        assert(entries.insert(i, p).drop_last() =~= entries);
        assert(entries.insert(i, p).last() == p);
    } else {
        let grown = entries.insert(i, p);
        assert(grown.last() == entries.last());
        assert(grown.drop_last() =~= entries.drop_last().insert(i, p));
        lemma_map_of_insert_at(entries.drop_last(), i, p);
        assert(entries.last().0@ != p.0@);
        assert(map_of(grown) =~= map_of(entries).insert(p.0@, p.1));
    }
}

proof fn lemma_map_of_remove(entries: Seq<(Vec<u8>, IndexEntry)>, i: int)
    requires
        unique_keys(entries),
        0 <= i < entries.len(),
    ensures
        map_of(entries.remove(i)) == map_of(entries).remove(entries[i].0@),
    decreases entries.len(),
{
    let k = entries[i].0@;
    if i == entries.len() - 1 {
        assert(entries.remove(i) =~= entries.drop_last());
        lemma_map_of_contains(entries.drop_last(), k);
        assert(!map_of(entries.drop_last()).contains_key(k));
        assert(map_of(entries.remove(i)) =~= map_of(entries).remove(k));
    } else {
        assert(entries.remove(i).drop_last() =~= entries.drop_last().remove(i));
        assert(entries.remove(i).last() == entries.last());
        lemma_map_of_remove(entries.drop_last(), i);
        assert(entries.last().0@ != k);
        assert(map_of(entries.remove(i)) =~= map_of(entries).remove(k));
    }
}

/// An expiry sweep and a map insertion commute: sweeping after inserting an
/// entry either keeps the new entry (if it has not expired) or leaves the
/// key out (if it has).
proof fn lemma_sweep_insert(m: Map<Seq<u8>, IndexEntry>, k: Seq<u8>, e: IndexEntry, now: u64)
    ensures
        spec_sweep(m.insert(k, e), now) == if spec_expired(e, now) {
            spec_sweep(m, now).remove(k)
        } else {
            spec_sweep(m, now).insert(k, e)
        },
{
    if spec_expired(e, now) {
        assert(spec_sweep(m.insert(k, e), now) =~= spec_sweep(m, now).remove(k));
    } else {
        assert(spec_sweep(m.insert(k, e), now) =~= spec_sweep(m, now).insert(k, e));
    }
}

/// Three-way lexicographic comparison of two byte strings.
fn bytes_cmp(a: &[u8], b: &[u8]) -> (r: i8)
    ensures
        r == -1 || r == 0 || r == 1,
        r == -1 ==> lex_lt(a@, b@),
        r == 0 ==> a@ == b@,
        r == 1 ==> lex_lt(b@, a@),
{
    let n = if a.len() < b.len() {
        a.len()
    } else {
        b.len()
    };
    let mut i: usize = 0;
    while i < n
        invariant
            i <= n,
            n <= a@.len(),
            n <= b@.len(),
            n == a@.len() || n == b@.len(),
            forall|j: int| 0 <= j < i ==> a@[j] == b@[j],
        decreases n - i,
    {
        if a[i] < b[i] {
            proof {
                lemma_lex_lt_skip(a@, b@, i as int);
            }
            return -1;
        }
        if a[i] > b[i] {
            proof {
                lemma_lex_lt_skip(b@, a@, i as int);
            }
            return 1;
        }
        i = i + 1;
    }
    if a.len() < b.len() {
        proof {
            lemma_lex_lt_skip(a@, b@, n as int);
        }
        return -1;
    }
    if a.len() > b.len() {
        proof {
            lemma_lex_lt_skip(b@, a@, n as int);
        }
        return 1;
    }
    proof {
        assert(a@ =~= b@);
    }
    0
}

impl Index {
    /// The index's internal invariant: entries strictly sorted by key, so
    /// one entry per key.
    pub closed spec fn inv(&self) -> bool {
        sorted_by_key(self.entries@)
    }

    /// An empty index.
    pub fn new() -> (r: Index)
        ensures
            r.inv(),
            r@ == Map::<Seq<u8>, IndexEntry>::empty(),
    {
        Index { entries: Vec::new() }
    }

    /// Binary search for a key: either its position, or the position where
    /// it would be inserted to keep the entries sorted.
    fn search(&self, key: &[u8]) -> (r: (usize, bool))
        requires
            self.inv(),
        ensures
            r.1 ==> r.0 < self.entries@.len() && self.entries@[r.0 as int].0@ == key@,
            !r.1 ==> {
                &&& r.0 <= self.entries@.len()
                &&& forall|i: int|
                    0 <= i < r.0 ==> lex_lt((#[trigger] self.entries@[i]).0@, key@)
                &&& forall|i: int|
                    r.0 <= i < self.entries@.len() ==> lex_lt(
                        key@,
                        (#[trigger] self.entries@[i]).0@,
                    )
            },
    {
        let mut lo: usize = 0;
        let mut hi: usize = self.entries.len();
        while lo < hi
            invariant
                self.inv(),
                lo <= hi <= self.entries@.len(),
                forall|i: int| 0 <= i < lo ==> lex_lt((#[trigger] self.entries@[i]).0@, key@),
                forall|i: int|
                    hi <= i < self.entries@.len() ==> lex_lt(
                        key@,
                        (#[trigger] self.entries@[i]).0@,
                    ),
            decreases hi - lo,
        {
            let mid = lo + (hi - lo) / 2;
            let c = bytes_cmp(self.entries[mid].0.as_slice(), key);
            if c == 0 {
                return (mid, true);
            } else if c == -1 {
                proof {
                    assert forall|i: int| 0 <= i < mid + 1 implies lex_lt(
                        (#[trigger] self.entries@[i]).0@,
                        key@,
                    ) by {
                        if i < mid {
                            lemma_lex_lt_transitive(
                                self.entries@[i].0@,
                                self.entries@[mid as int].0@,
                                key@,
                            );
                        }
                    }
                }
                lo = mid + 1;
            } else {
                proof {
                    assert forall|i: int| mid <= i < self.entries@.len() implies lex_lt(
                        key@,
                        (#[trigger] self.entries@[i]).0@,
                    ) by {
                        if i > mid {
                            lemma_lex_lt_transitive(
                                key@,
                                self.entries@[mid as int].0@,
                                self.entries@[i].0@,
                            );
                        }
                    }
                }
                hi = mid;
            }
        }
        (lo, false)
    }

    /// A key that binary search does not find is on no entry at all.
    proof fn lemma_absent(&self, key: Seq<u8>, pos: int)
        requires
            self.inv(),
            0 <= pos <= self.entries@.len(),
            forall|i: int| 0 <= i < pos ==> lex_lt((#[trigger] self.entries@[i]).0@, key),
            forall|i: int|
                pos <= i < self.entries@.len() ==> lex_lt(key, (#[trigger] self.entries@[i]).0@),
        ensures
            !self@.contains_key(key),
    {
        assert forall|j: int|
            0 <= j < self.entries@.len() implies (#[trigger] self.entries@[j]).0@ != key by {
            if j < pos {
                lemma_lex_lt_ne(self.entries@[j].0@, key);
            } else {
                lemma_lex_lt_ne(key, self.entries@[j].0@);
            }
        }
        lemma_map_of_contains(self.entries@, key);
    }

    /// Exact lookup of a key's entry.
    pub fn get(&self, key: &[u8]) -> (r: Option<IndexEntry>)
        requires
            self.inv(),
        ensures
            match r {
                Some(e) => self@.contains_key(key@) && self@[key@] == e,
                None => !self@.contains_key(key@),
            },
    {
        match self.search(key) {
            (i, true) => {
                proof {
                    lemma_sorted_unique(self.entries@);
                    lemma_map_of_index(self.entries@, i as int);
                }
                Some(self.entries[i].1)
            },
            (pos, false) => {
                proof {
                    self.lemma_absent(key@, pos as int);
                }
                None
            },
        }
    }

    /// Whether a key is live.
    pub fn contains_key(&self, key: &[u8]) -> (r: bool)
        requires
            self.inv(),
        ensures
            r == self@.contains_key(key@),
    {
        match self.get(key) {
            Some(_) => true,
            None => false,
        }
    }

    /// The number of live keys.
    pub fn len(&self) -> (r: usize)
        requires
            self.inv(),
        ensures
            r == self@.dom().len(),
    {
        proof {
            lemma_sorted_unique(self.entries@);
            lemma_map_of_dom_len(self.entries@);
        }
        self.entries.len()
    }

    /// Inserts or overwrites the entry for a key, keeping the entries
    /// sorted.
    pub fn insert(&mut self, key: Vec<u8>, entry: IndexEntry)
        requires
            old(self).inv(),
        ensures
            final(self).inv(),
            final(self)@ == old(self)@.insert(key@, entry),
    {
        match self.search(key.as_slice()) {
            (i, true) => {
                proof {
                    lemma_sorted_unique(self.entries@);
                    lemma_map_of_update(self.entries@, i as int, (key, entry));
                    assert forall|a: int, b: int|
                        0 <= a < b < self.entries@.update(i as int, (key, entry)).len() implies lex_lt(
                        (#[trigger] self.entries@.update(i as int, (key, entry))[a]).0@,
                        (#[trigger] self.entries@.update(i as int, (key, entry))[b]).0@,
                    ) by {
                        assert(lex_lt(self.entries@[a].0@, self.entries@[b].0@));
                    }
                }
                self.entries.set(i, (key, entry));
            },
            (pos, false) => {
                proof {
                    self.lemma_absent(key@, pos as int);
                    assert forall|l: int|
                        0 <= l < self.entries@.len() implies (#[trigger] self.entries@[l]).0@
                        != key@ by {
                        if l < pos {
                            lemma_lex_lt_ne(self.entries@[l].0@, key@);
                        } else {
                            lemma_lex_lt_ne(key@, self.entries@[l].0@);
                        }
                    }
                    lemma_map_of_insert_at(self.entries@, pos as int, (key, entry));
                    let grown = self.entries@.insert(pos as int, (key, entry));
                    assert forall|a: int, b: int|
                        0 <= a < b < grown.len() implies lex_lt(
                        (#[trigger] grown[a]).0@,
                        (#[trigger] grown[b]).0@,
                    ) by {
                        if a == pos {
                            assert(grown[a].0@ == key@);
                            assert(grown[b] == self.entries@[b - 1]);
                        } else if b == pos {
                            assert(grown[b].0@ == key@);
                            assert(grown[a] == self.entries@[a]);
                        } else if b < pos {
                            assert(grown[a] == self.entries@[a]);
                            assert(grown[b] == self.entries@[b]);
                        } else if a < pos {
                            assert(grown[a] == self.entries@[a]);
                            assert(grown[b] == self.entries@[b - 1]);
                            assert(lex_lt(self.entries@[a].0@, self.entries@[b - 1].0@));
                        } else {
                            assert(grown[a] == self.entries@[a - 1]);
                            assert(grown[b] == self.entries@[b - 1]);
                        }
                    }
                }
                self.entries.insert(pos, (key, entry));
            },
        }
    }

    /// Removes a key's entry; a no-op if the key is absent.
    pub fn remove(&mut self, key: &[u8])
        requires
            old(self).inv(),
        ensures
            final(self).inv(),
            final(self)@ == old(self)@.remove(key@),
    {
        match self.search(key) {
            (i, true) => {
                proof {
                    lemma_sorted_unique(self.entries@);
                    lemma_map_of_remove(self.entries@, i as int);
                    let shrunk = self.entries@.remove(i as int);
                    assert forall|a: int, b: int|
                        0 <= a < b < shrunk.len() implies lex_lt(
                        (#[trigger] shrunk[a]).0@,
                        (#[trigger] shrunk[b]).0@,
                    ) by {
                        let a0 = if a < i {
                            a
                        } else {
                            a + 1
                        };
                        let b0 = if b < i {
                            b
                        } else {
                            b + 1
                        };
                        assert(shrunk[a] == self.entries@[a0]);
                        assert(shrunk[b] == self.entries@[b0]);
                        assert(lex_lt(self.entries@[a0].0@, self.entries@[b0].0@));
                    }
                }
                self.entries.remove(i);
            },
            (pos, false) => {
                proof {
                    self.lemma_absent(key@, pos as int);
                    assert(old(self)@.remove(key@) =~= old(self)@);
                }
            },
        }
    }

    /// Drops every entry.
    pub fn clear(&mut self)
        ensures
            final(self).inv(),
            final(self)@ == Map::<Seq<u8>, IndexEntry>::empty(),
    {
        self.entries = Vec::new();
    }

    /// The live keys in ascending key order, one copy each.
    pub fn keys(&self) -> (r: Vec<Vec<u8>>)
        requires
            self.inv(),
        ensures
            r@.len() == self@.dom().len(),
            forall|i: int| 0 <= i < r@.len() ==> self@.contains_key((#[trigger] r@[i])@),
            forall|i: int, j: int|
                0 <= i < j < r@.len() ==> lex_lt((#[trigger] r@[i])@, (#[trigger] r@[j])@),
            forall|k: Seq<u8>|
                #[trigger] self@.contains_key(k) ==> exists|i: int| 0 <= i < r@.len() && r@[i]@ == k,
    {
        let n = self.entries.len();
        let mut r: Vec<Vec<u8>> = Vec::new();
        let mut i: usize = 0;
        while i < n
            invariant
                self.inv(),
                n == self.entries@.len(),
                i <= n,
                r@.len() == i,
                forall|j: int| 0 <= j < i ==> (#[trigger] r@[j])@ == self.entries@[j].0@,
            decreases n - i,
        {
            r.push(slice_to_vec(self.entries[i].0.as_slice()));
            i = i + 1;
        }
        proof {
            lemma_sorted_unique(self.entries@);
            lemma_map_of_dom_len(self.entries@);
            assert forall|i: int| 0 <= i < r@.len() implies self@.contains_key(
                (#[trigger] r@[i])@,
            ) by {
                lemma_map_of_index(self.entries@, i);
            }
            assert forall|k: Seq<u8>| #[trigger] self@.contains_key(k) implies exists|i: int|
                0 <= i < r@.len() && r@[i]@ == k by {
                lemma_map_of_contains(self.entries@, k);
                let i = choose|i: int|
                    0 <= i < self.entries@.len() && (#[trigger] self.entries@[i]).0@ == k;
                assert(r@[i]@ == k);
            }
        }
        r
    }

    /// Removes every entry that has expired by time `now`; entries with no
    /// expiry are untouched.
    pub fn retain_unexpired(&mut self, now: u64)
        requires
            old(self).inv(),
        ensures
            final(self).inv(),
            final(self)@ == spec_sweep(old(self)@, now),
    {
        let n = self.entries.len();
        let ghost all = self.entries@;
        let mut kept: Vec<(Vec<u8>, IndexEntry)> = Vec::new();
        let mut i: usize = 0;
        while i < n
            invariant
                sorted_by_key(all),
                n == all.len(),
                self.entries@ == all,
                i <= n,
                sorted_by_key(kept@),
                forall|j: int|
                    0 <= j < kept@.len() && i < n ==> lex_lt(
                        (#[trigger] kept@[j]).0@,
                        all[i as int].0@,
                    ),
                map_of(kept@) == spec_sweep(map_of(all.take(i as int)), now),
            decreases n - i,
        {
            let ghost prefix = all.take(i as int);
            proof {
                assert(all.take(i + 1 as int).drop_last() =~= prefix);
                assert(all.take(i + 1 as int).last() == all[i as int]);
                lemma_sweep_insert(map_of(prefix), all[i as int].0@, all[i as int].1, now);
            }
            let e: IndexEntry = self.entries[i].1;
            let keep = match e.3 {
                Some(ts) => ts > now,
                None => true,
            };
            if keep {
                let ghost old_kept = kept@;
                kept.push((slice_to_vec(self.entries[i].0.as_slice()), e));
                proof {
                    assert(kept@.drop_last() =~= old_kept);
                    assert(kept@.last().0@ == all[i as int].0@);
                    assert(map_of(kept@) == map_of(old_kept).insert(all[i as int].0@, e));
                    assert(e == all[i as int].1);
                    assert(map_of(kept@) == spec_sweep(map_of(all.take(i + 1 as int)), now));
                    assert forall|a: int, b: int| 0 <= a < b < kept@.len() implies lex_lt(
                        (#[trigger] kept@[a]).0@,
                        (#[trigger] kept@[b]).0@,
                    ) by {
                        assert(a < kept@.len() - 1 ==> kept@[a] == old_kept[a]);
                        assert(b < kept@.len() - 1 ==> kept@[b] == old_kept[b]);
                        assert(b == kept@.len() - 1 ==> kept@[b].0@ == all[i as int].0@);
                    }
                    assert forall|j: int|
                        0 <= j < kept@.len() && i + 1 < n implies lex_lt(
                        (#[trigger] kept@[j]).0@,
                        all[i + 1 as int].0@,
                    ) by {
                        assert(lex_lt(all[i as int].0@, all[i + 1 as int].0@));
                        if j < kept@.len() - 1 {
                            lemma_lex_lt_transitive(
                                kept@[j].0@,
                                all[i as int].0@,
                                all[i + 1 as int].0@,
                            );
                        }
                    }
                }
            } else {
                proof {
                    assert(!spec_sweep(map_of(prefix), now).contains_key(all[i as int].0@)) by {
                        lemma_map_of_contains(prefix, all[i as int].0@);
                        assert forall|l: int|
                            0 <= l < prefix.len() implies (#[trigger] prefix[l]).0@
                            != all[i as int].0@ by {
                            lemma_lex_lt_ne(all[l].0@, all[i as int].0@);
                        }
                    }
                    assert(spec_sweep(map_of(prefix), now).remove(all[i as int].0@)
                        =~= spec_sweep(map_of(prefix), now));
                    assert forall|j: int|
                        0 <= j < kept@.len() && i + 1 < n implies lex_lt(
                        (#[trigger] kept@[j]).0@,
                        all[i + 1 as int].0@,
                    ) by {
                        assert(lex_lt(all[i as int].0@, all[i + 1 as int].0@));
                        lemma_lex_lt_transitive(
                            kept@[j].0@,
                            all[i as int].0@,
                            all[i + 1 as int].0@,
                        );
                    }
                }
            }
            i = i + 1;
        }
        proof {
            assert(all.take(n as int) =~= all);
        }
        self.entries = kept;
    }
}

} // verus!
