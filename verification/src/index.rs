use vstd::prelude::*;
use vstd::slice::slice_to_vec;

use crate::errors::Errors;
use crate::options::IteratorOptions;
use crate::record::LogRecordPos;

verus! {

/// Byte-lexicographic strict order: `a` comes before `b` when `a` is a
/// proper prefix of `b`, or when the first differing byte is smaller.
pub open spec fn lex_lt(a: Seq<u8>, b: Seq<u8>) -> bool
    decreases a.len(),
{
    if b.len() == 0 {
        false
    } else if a.len() == 0 {
        true
    } else if a[0] < b[0] {
        true
    } else if a[0] > b[0] {
        false
    } else {
        lex_lt(a.skip(1), b.skip(1))
    }
}

/// No byte string comes before itself.
pub proof fn lemma_lex_irrefl(a: Seq<u8>)
    ensures
        !lex_lt(a, a),
    decreases a.len(),
{
    if a.len() > 0 {
        lemma_lex_irrefl(a.skip(1));
    }
}

/// The order is transitive.
pub proof fn lemma_lex_trans(a: Seq<u8>, b: Seq<u8>, c: Seq<u8>)
    requires
        lex_lt(a, b),
        lex_lt(b, c),
    ensures
        lex_lt(a, c),
    decreases a.len(),
{
    if a.len() > 0 && b.len() > 0 && c.len() > 0 && a[0] == b[0] && b[0] == c[0] {
        lemma_lex_trans(a.skip(1), b.skip(1), c.skip(1));
    }
}

/// Any two byte strings are ordered or equal.
pub proof fn lemma_lex_connected(a: Seq<u8>, b: Seq<u8>)
    ensures
        lex_lt(a, b) || lex_lt(b, a) || a == b,
    decreases a.len(),
{
    if a.len() == 0 && b.len() == 0 {
        assert(a =~= b);
    } else if a.len() > 0 && b.len() > 0 && a[0] == b[0] {
        lemma_lex_connected(a.skip(1), b.skip(1));
        if !lex_lt(a, b) && !lex_lt(b, a) {
            assert(a.skip(1) == b.skip(1));
            assert(a =~= b) by {
                assert(forall|i: int|
                    1 <= i < a.len() ==> a[i] == a.skip(1)[i - 1] && b[i] == b.skip(1)[i - 1]);
            }
        }
    }
}

/// The order is strict: it never holds both ways, and never between
/// equal byte strings.
pub proof fn lemma_lex_strict(a: Seq<u8>, b: Seq<u8>)
    ensures
        !(lex_lt(a, b) && lex_lt(b, a)),
        lex_lt(a, b) ==> a != b,
{
    if lex_lt(a, b) && lex_lt(b, a) {
        lemma_lex_trans(a, b, a);
        lemma_lex_irrefl(a);
    }
    if lex_lt(a, b) && a == b {
        lemma_lex_irrefl(a);
    }
}

/// Comparing two byte strings that agree on their first `i` bytes is
/// comparing what follows those bytes.
pub proof fn lemma_lex_skip(a: Seq<u8>, b: Seq<u8>, i: int)
    requires
        0 <= i <= a.len(),
        i <= b.len(),
        a.take(i) == b.take(i),
    ensures
        lex_lt(a, b) == lex_lt(a.skip(i), b.skip(i)),
    decreases i,
{
    if i == 0 {
        assert(a.skip(0) =~= a);
        assert(b.skip(0) =~= b);
    } else {
        assert(a[0] == a.take(i)[0]);
        assert(b[0] == b.take(i)[0]);
        assert(a.skip(1).take(i - 1) =~= b.skip(1).take(i - 1)) by {
            assert(forall|j: int| #![trigger a.skip(1).take(i - 1)[j]]
                0 <= j < i - 1 ==> a.skip(1).take(i - 1)[j] == a.take(i)[j + 1] && b.skip(1).take(
                    i - 1,
                )[j] == b.take(i)[j + 1] && b.skip(1).take(i - 1)[j] == b.skip(1).take(i - 1)[j]);
        }
        lemma_lex_skip(a.skip(1), b.skip(1), i - 1);
        assert(a.skip(1).skip(i - 1) =~= a.skip(i));
        assert(b.skip(1).skip(i - 1) =~= b.skip(i));
    }
}

/// Three-way byte-string comparison: -1, 0 or 1 as `a` is below, equal
/// to, or above `b` in the lexicographic order.
pub fn bytes_cmp(a: &Vec<u8>, b: &Vec<u8>) -> (r: i8)
    ensures
        r == -1 || r == 0 || r == 1,
        (r == -1 <==> lex_lt(a@, b@)),
        (r == 0 <==> a@ == b@),
        (r == 1 <==> lex_lt(b@, a@)),
{
    proof {
        lemma_lex_connected(a@, b@);
        lemma_lex_strict(a@, b@);
        lemma_lex_strict(b@, a@);
        lemma_lex_irrefl(a@);
        lemma_lex_irrefl(b@);
    }
    let mut i: usize = 0;
    while i < a.len() && i < b.len()
        invariant
            0 <= i <= a@.len(),
            i <= b@.len(),
            forall|j: int| 0 <= j < i ==> a@[j] == b@[j],
        decreases a@.len() - i,
    {
        proof {
            lemma_lex_strict(a@, b@);
            lemma_lex_strict(b@, a@);
            assert(a@.take(i as int) =~= b@.take(i as int));
            lemma_lex_skip(a@, b@, i as int);
            lemma_lex_skip(b@, a@, i as int);
        }
        if a[i] < b[i] {
            assert(lex_lt(a@.skip(i as int), b@.skip(i as int)));
            return -1;
        }
        if a[i] > b[i] {
            assert(lex_lt(b@.skip(i as int), a@.skip(i as int))) by {
                assert(b@.skip(i as int)[0] == b@[i as int]);
            }
            return 1;
        }
        i = i + 1;
    }
    proof {
        lemma_lex_strict(a@, b@);
        lemma_lex_strict(b@, a@);
        lemma_lex_irrefl(a@);
        assert(a@.take(i as int) =~= b@.take(i as int));
        lemma_lex_skip(a@, b@, i as int);
        lemma_lex_skip(b@, a@, i as int);
    }
    if a.len() < b.len() {
        assert(lex_lt(a@.skip(i as int), b@.skip(i as int)));
        -1
    } else if a.len() > b.len() {
        assert(lex_lt(b@.skip(i as int), a@.skip(i as int)));
        1
    } else {
        assert(a@ =~= b@);
        0
    }
}

/// `p` is a prefix of `k`.
pub open spec fn is_prefix_of(p: Seq<u8>, k: Seq<u8>) -> bool {
    p.len() <= k.len() && k.take(p.len() as int) == p
}

/// Exec counterpart of `is_prefix_of`.
pub fn bytes_has_prefix(k: &Vec<u8>, p: &Vec<u8>) -> (r: bool)
    ensures
        r == is_prefix_of(p@, k@),
{
    if p.len() > k.len() {
        return false;
    }
    let mut i: usize = 0;
    while i < p.len()
        invariant
            0 <= i <= p@.len(),
            p@.len() <= k@.len(),
            forall|j: int| 0 <= j < i ==> k@[j] == p@[j],
        decreases p@.len() - i,
    {
        if k[i] != p[i] {
            assert(k@.take(p@.len() as int)[i as int] != p@[i as int]);
            return false;
        }
        i = i + 1;
    }
    assert(k@.take(p@.len() as int) =~= p@);
    true
}

/// An index entry: a key and the position of its newest record.
pub type IndexEntry = (Seq<u8>, LogRecordPos);

/// The entries are in strictly ascending key order.
pub open spec fn sorted_asc(s: Seq<IndexEntry>) -> bool {
    forall|i: int, j: int| #![trigger s[i], s[j]] 0 <= i < j < s.len() ==> lex_lt(s[i].0, s[j].0)
}

/// The entries are in strictly descending key order.
pub open spec fn sorted_desc(s: Seq<IndexEntry>) -> bool {
    forall|i: int, j: int| #![trigger s[i], s[j]] 0 <= i < j < s.len() ==> lex_lt(s[j].0, s[i].0)
}

/// Some entry carries the key.
pub open spec fn has_key(s: Seq<IndexEntry>, k: Seq<u8>) -> bool {
    exists|i: int| 0 <= i < s.len() && (#[trigger] s[i]).0 == k
}

/// The key-to-position map an entry sequence denotes. On sequences
/// with distinct keys (all the index ever builds) it is exact.
pub open spec fn map_of(s: Seq<IndexEntry>) -> Map<Seq<u8>, LogRecordPos> {
    Map::new(
        |k: Seq<u8>| has_key(s, k),
        |k: Seq<u8>| s[choose|i: int| 0 <= i < s.len() && (#[trigger] s[i]).0 == k].1,
    )
}

/// In a sorted sequence all keys are distinct.
pub proof fn lemma_sorted_distinct(s: Seq<IndexEntry>, i: int, j: int)
    requires
        sorted_asc(s),
        0 <= i < s.len(),
        0 <= j < s.len(),
        i != j,
    ensures
        s[i].0 != s[j].0,
{
    if i < j {
        lemma_lex_irrefl(s[i].0);
    } else {
        lemma_lex_irrefl(s[j].0);
    }
}

/// In a sorted sequence, the map sends each entry's key to its position.
pub proof fn lemma_map_of_index(s: Seq<IndexEntry>, i: int)
    requires
        sorted_asc(s),
        0 <= i < s.len(),
    ensures
        map_of(s).contains_key(s[i].0),
        map_of(s)[s[i].0] == s[i].1,
{
    assert(has_key(s, s[i].0));
    let j = choose|j: int| 0 <= j < s.len() && (#[trigger] s[j]).0 == s[i].0;
    if j != i {
        lemma_sorted_distinct(s, i, j);
    }
}

/// The ordered in-memory index: a map from key to the position of the
/// newest record for that key, kept as a vector of entries in strictly
/// ascending byte-lexicographic key order.
pub struct BTree {
    entries: Vec<(Vec<u8>, LogRecordPos)>,
}

impl BTree {
    /// The entries in ascending key order.
    pub closed spec fn entries_seq(self) -> Seq<IndexEntry> {
        self.entries@.map_values(|e: (Vec<u8>, LogRecordPos)| (e.0@, e.1))
    }

    /// The key-to-position map the index holds.
    pub open spec fn pos_map(self) -> Map<Seq<u8>, LogRecordPos> {
        map_of(self.entries_seq())
    }

    /// Entries are sorted, hence keys unique.
    pub open spec fn wf(self) -> bool {
        sorted_asc(self.entries_seq())
    }

    /// An empty index.
    pub fn new() -> (r: Self)
        ensures
            r.wf(),
            r.entries_seq() == Seq::<IndexEntry>::empty(),
            r.pos_map() == Map::<Seq<u8>, LogRecordPos>::empty(),
    {
        let r = BTree { entries: Vec::new() };
        proof {
            assert(r.entries_seq() =~= Seq::<IndexEntry>::empty());
            assert(r.pos_map() =~= Map::<Seq<u8>, LogRecordPos>::empty());
        }
        r
    }

    /// Insert or overwrite the mapping of `key`; reports whether a
    /// prior mapping existed. The in-memory index always succeeds.
    pub fn put(&mut self, key: Vec<u8>, pos: LogRecordPos) -> (r: bool)
        requires
            old(self).wf(),
        ensures
            final(self).wf(),
            final(self).pos_map() == old(self).pos_map().insert(key@, pos),
            r == old(self).pos_map().contains_key(key@),
    {
        let ghost s0 = self.entries_seq();
        let mut p: usize = 0;
        while p < self.entries.len()
            invariant
                *self == *old(self),
                s0 == self.entries_seq(),
                sorted_asc(s0),
                0 <= p <= s0.len(),
                forall|j: int| 0 <= j < p ==> lex_lt((#[trigger] s0[j]).0, key@),
            decreases s0.len() - p,
        {
            let c = bytes_cmp(&self.entries[p].0, &key);
            assert(self.entries@[p as int].0@ == s0[p as int].0);
            if c == 0 {
                // Same key: overwrite the position in place.
                let ghost s1 = s0.update(p as int, (key@, pos));
                let k = slice_to_vec(self.entries[p].0.as_slice());
                self.entries.set(p, (k, pos));
                proof {
                    assert(self.entries_seq() =~= s1);
                    assert(sorted_asc(s1)) by {
                        assert(forall|i: int|
                            0 <= i < s1.len() ==> (#[trigger] s1[i]).0 == s0[i].0);
                    }
                    lemma_map_of_index(s0, p as int);
                    lemma_put_update(s0, p as int, key@, pos);
                }
                return true;
            }
            if c == 1 {
                // First entry above the key: the key is absent, insert here.
                proof {
                    lemma_key_absent(s0, p as int, key@);
                }
                let ghost s1 = s0.insert(p as int, (key@, pos));
                self.entries.insert(p, (key, pos));
                proof {
                    assert(self.entries_seq() =~= s1);
                    lemma_sorted_after_insert(s0, p as int, key@, pos);
                    lemma_put_insert(s0, p as int, key@, pos);
                    assert(!has_key(s0, key@));
                }
                return false;
            }
            p = p + 1;
        }
        // Every entry is below the key: append it at the end.
        proof {
            lemma_key_absent(s0, s0.len() as int, key@);
        }
        let ghost s1 = s0.insert(s0.len() as int, (key@, pos));
        let at_end = self.entries.len();
        self.entries.insert(at_end, (key, pos));
        proof {
            assert(self.entries_seq() =~= s1);
            lemma_sorted_after_insert(s0, s0.len() as int, key@, pos);
            lemma_put_insert(s0, s0.len() as int, key@, pos);
            assert(!has_key(s0, key@));
        }
        false
    }
    pub fn get(&self, key: Vec<u8>) -> (r: Option<LogRecordPos>)
        requires
            self.wf(),
        ensures
            r == if self.pos_map().contains_key(key@) {
                Some(self.pos_map()[key@])
            } else {
                None::<LogRecordPos>
            },
    {
        let ghost s = self.entries_seq();
        let mut i: usize = 0;
        while i < self.entries.len()
            invariant
                self.wf(),
                s == self.entries_seq(),
                sorted_asc(s),
                0 <= i <= s.len(),
                forall|j: int| 0 <= j < i ==> (#[trigger] s[j]).0 != key@,
            decreases s.len() - i,
        {
            let c = bytes_cmp(&self.entries[i].0, &key);
            if c == 0 {
                proof {
                    lemma_map_of_index(s, i as int);
                }
                return Some(self.entries[i].1);
            }
            i = i + 1;
        }
        assert(!has_key(s, key@));
        None
    }

    /// Remove the mapping of `key`; reports whether one existed.
    pub fn delete(&mut self, key: Vec<u8>) -> (r: bool)
        requires
            old(self).wf(),
        ensures
            final(self).wf(),
            final(self).pos_map() == old(self).pos_map().remove(key@),
            r == old(self).pos_map().contains_key(key@),
    {
        let ghost s0 = self.entries_seq();
        let mut i: usize = 0;
        while i < self.entries.len()
            invariant
                *self == *old(self),
                0 <= i <= s0.len(),
                s0 == self.entries_seq(),
                sorted_asc(s0),
                forall|j: int| 0 <= j < i ==> (#[trigger] s0[j]).0 != key@,
            decreases s0.len() - i,
        {
            let c = bytes_cmp(&self.entries[i].0, &key);
            if c == 0 {
                let ghost s1 = s0.remove(i as int);
                self.entries.remove(i);
                proof {
                    assert(self.entries_seq() =~= s1);
                    assert(sorted_asc(s1)) by {
                        assert(forall|j: int|
                            0 <= j < i ==> (#[trigger] s1[j]) == s0[j]);
                        assert(forall|j: int|
                            i <= j < s1.len() ==> (#[trigger] s1[j]) == s0[j + 1]);
                    }
                    lemma_map_of_index(s0, i as int);
                    lemma_put_remove(s0, i as int);
                    assert(final(self).pos_map() =~= old(self).pos_map().remove(key@));
                }
                return true;
            }
            i = i + 1;
        }
        assert(!has_key(s0, key@));
        proof {
            assert(final(self).pos_map() =~= old(self).pos_map().remove(key@)) by {
                assert(!old(self).pos_map().contains_key(key@));
            }
        }
        false
    }

    /// Snapshot of all keys, in ascending order.
    pub fn list_keys(&self) -> (r: Result<Vec<Vec<u8>>, Errors>)
        ensures
            match r {
                Ok(keys) => keys@.len() == self.entries_seq().len() && forall|i: int|
                    0 <= i < keys@.len() ==> (#[trigger] keys@[i])@ == self.entries_seq()[i].0,
                Err(_) => false,
            },
    {
        let ghost s = self.entries_seq();
        let mut keys: Vec<Vec<u8>> = Vec::new();
        let mut i: usize = 0;
        while i < self.entries.len()
            invariant
                s == self.entries_seq(),
                0 <= i <= s.len(),
                keys@.len() == i,
                forall|j: int| 0 <= j < i ==> (#[trigger] keys@[j])@ == s[j].0,
            decreases s.len() - i,
        {
            keys.push(slice_to_vec(self.entries[i].0.as_slice()));
            i = i + 1;
        }
        Ok(keys)
    }

    /// An ordered traversal over a stable snapshot of the keyspace:
    /// later mutations of the index cannot reach the iterator's copy.
    pub fn iterator(&self, options: IteratorOptions) -> (r: BTreeIterator)
        requires
            self.wf(),
        ensures
            r.cursor() == 0,
            r.prefix() == options.prefix@,
            r.reversed() == options.reverse,
            r.items_seq() == if options.reverse {
                self.entries_seq().reverse()
            } else {
                self.entries_seq()
            },
            r.wf(),
    {
        let ghost s = self.entries_seq();
        let n = self.entries.len();
        let mut items: Vec<(Vec<u8>, LogRecordPos)> = Vec::new();
        let mut i: usize = 0;
        if options.reverse {
            while i < n
                invariant
                    s == self.entries_seq(),
                    n == s.len(),
                    0 <= i <= n,
                    items@.len() == i,
                    forall|j: int|
                        0 <= j < i ==> ((#[trigger] items@[j]).0@, items@[j].1) == s[n - 1 - j],
                decreases n - i,
            {
                let e = &self.entries[n - 1 - i];
                items.push((slice_to_vec(e.0.as_slice()), e.1));
                i = i + 1;
            }
        } else {
            while i < n
                invariant
                    s == self.entries_seq(),
                    n == s.len(),
                    0 <= i <= n,
                    items@.len() == i,
                    forall|j: int|
                        0 <= j < i ==> ((#[trigger] items@[j]).0@, items@[j].1) == s[j],
                decreases n - i,
            {
                let e = &self.entries[i];
                items.push((slice_to_vec(e.0.as_slice()), e.1));
                i = i + 1;
            }
        }
        let r = BTreeIterator { items, curr_index: 0, options };
        proof {
            if r.options.reverse {
                assert(r.items_seq() =~= s.reverse());
            } else {
                assert(r.items_seq() =~= s);
            }
            if r.reversed() {
                assert(sorted_desc(r.items_seq())) by {
                    assert(forall|i0: int, j0: int|
                        #![trigger r.items_seq()[i0], r.items_seq()[j0]]
                        0 <= i0 < j0 < s.len() ==> r.items_seq()[i0] == s[s.len() - 1 - i0]
                            && r.items_seq()[j0] == s[s.len() - 1 - j0]);
                }
            }
        }
        r
    }
}

/// A key above everything before `p` and below the entry at `p` (when
/// there is one) occurs nowhere in a sorted sequence.
proof fn lemma_key_absent(s: Seq<IndexEntry>, p: int, k: Seq<u8>)
    requires
        sorted_asc(s),
        0 <= p <= s.len(),
        forall|j: int| 0 <= j < p ==> lex_lt((#[trigger] s[j]).0, k),
        p < s.len() ==> lex_lt(k, s[p].0),
    ensures
        forall|j: int| 0 <= j < s.len() ==> (#[trigger] s[j]).0 != k,
        forall|j: int| p <= j < s.len() ==> lex_lt(k, (#[trigger] s[j]).0),
{
    assert forall|j: int| p <= j < s.len() implies lex_lt(k, (#[trigger] s[j]).0) by {
        if j > p {
            lemma_lex_trans(k, s[p].0, s[j].0);
        }
    }
    assert forall|j: int| 0 <= j < s.len() implies (#[trigger] s[j]).0 != k by {
        lemma_lex_strict(s[j].0, k);
        lemma_lex_strict(k, s[j].0);
    }
}

/// Inserting an entry above everything before `p` and below everything
/// from `p` on keeps the sequence sorted.
proof fn lemma_sorted_after_insert(s: Seq<IndexEntry>, p: int, k: Seq<u8>, pos: LogRecordPos)
    requires
        sorted_asc(s),
        0 <= p <= s.len(),
        forall|j: int| 0 <= j < p ==> lex_lt((#[trigger] s[j]).0, k),
        forall|j: int| p <= j < s.len() ==> lex_lt(k, (#[trigger] s[j]).0),
    ensures
        sorted_asc(s.insert(p, (k, pos))),
{
    let s1 = s.insert(p, (k, pos));
    assert forall|i: int, j: int| #![trigger s1[i], s1[j]] 0 <= i < j < s1.len() implies lex_lt(
        s1[i].0,
        s1[j].0,
    ) by {
        assert(forall|w: int| 0 <= w < p ==> (#[trigger] s1[w]) == s[w]);
        assert(s1[p] == (k, pos));
        assert(forall|w: int| p < w < s1.len() ==> (#[trigger] s1[w]) == s[w - 1]);
    }
}

/// Overwriting the entry at `p` updates exactly that key's image.
proof fn lemma_put_update(s: Seq<IndexEntry>, p: int, k: Seq<u8>, pos: LogRecordPos)
    requires
        sorted_asc(s),
        0 <= p < s.len(),
        s[p].0 == k,
    ensures
        map_of(s.update(p, (k, pos))) == map_of(s).insert(k, pos),
{
    let s1 = s.update(p, (k, pos));
    assert(sorted_asc(s1)) by {
        assert(forall|i: int| 0 <= i < s1.len() ==> (#[trigger] s1[i]).0 == s[i].0);
    }
    assert forall|q: Seq<u8>| #[trigger]
        map_of(s1).contains_key(q) == map_of(s).insert(k, pos).contains_key(q) by {
        assert(s1[p].0 == k);
        if has_key(s1, q) {
            let i = choose|i: int| 0 <= i < s1.len() && (#[trigger] s1[i]).0 == q;
            assert(s[i].0 == q);
        }
        if has_key(s, q) {
            let i = choose|i: int| 0 <= i < s.len() && (#[trigger] s[i]).0 == q;
            assert(s1[i].0 == q);
        }
    }
    assert forall|q: Seq<u8>| map_of(s1).contains_key(q) implies map_of(s1)[q] == map_of(s).insert(
        k,
        pos,
    )[q] by {
        let i = choose|i: int| 0 <= i < s1.len() && (#[trigger] s1[i]).0 == q;
        lemma_map_of_index(s1, i);
        if q == k {
            lemma_sorted_distinct_all(s1, i, p);
            assert(s1[p].1 == pos);
        } else {
            assert(s[i].0 == q);
            lemma_map_of_index(s, i);
            assert(s1[i].1 == s[i].1);
        }
    }
    assert(map_of(s1) =~= map_of(s).insert(k, pos));
}

/// Two positions of a sorted sequence carrying the same key coincide.
proof fn lemma_sorted_distinct_all(s: Seq<IndexEntry>, i: int, j: int)
    requires
        sorted_asc(s),
        0 <= i < s.len(),
        0 <= j < s.len(),
        s[i].0 == s[j].0,
    ensures
        i == j,
{
    if i != j {
        lemma_sorted_distinct(s, i, j);
    }
}

/// Inserting an entry with a fresh key at `p` adds exactly that key.
proof fn lemma_put_insert(s: Seq<IndexEntry>, p: int, k: Seq<u8>, pos: LogRecordPos)
    requires
        sorted_asc(s),
        0 <= p <= s.len(),
        forall|j: int| 0 <= j < s.len() ==> (#[trigger] s[j]).0 != k,
        sorted_asc(s.insert(p, (k, pos))),
    ensures
        map_of(s.insert(p, (k, pos))) == map_of(s).insert(k, pos),
{
    let s1 = s.insert(p, (k, pos));
    assert forall|q: Seq<u8>| #[trigger]
        map_of(s1).contains_key(q) == map_of(s).insert(k, pos).contains_key(q) by {
        if q == k {
            assert(s1[p].0 == k);
            assert(has_key(s1, k));
        } else {
            if has_key(s1, q) {
                let i = choose|i: int| 0 <= i < s1.len() && (#[trigger] s1[i]).0 == q;
                if i < p {
                    assert(s[i].0 == q);
                } else {
                    assert(i > p);
                    assert(s[i - 1].0 == q);
                }
            }
            if has_key(s, q) {
                let i = choose|i: int| 0 <= i < s.len() && (#[trigger] s[i]).0 == q;
                if i < p {
                    assert(s1[i].0 == q);
                } else {
                    assert(s1[i + 1].0 == q);
                }
            }
        }
    }
    assert forall|q: Seq<u8>| map_of(s1).contains_key(q) implies map_of(s1)[q] == map_of(s).insert(
        k,
        pos,
    )[q] by {
        let i = choose|i: int| 0 <= i < s1.len() && (#[trigger] s1[i]).0 == q;
        lemma_map_of_index(s1, i);
        if q == k {
            lemma_sorted_distinct_all(s1, i, p);
        } else {
            if i < p {
                assert(s[i] == s1[i]);
                lemma_map_of_index(s, i);
            } else {
                assert(i > p);
                assert(s[i - 1] == s1[i]);
                lemma_map_of_index(s, i - 1);
            }
        }
    }
    assert(map_of(s1) =~= map_of(s).insert(k, pos));
}

/// Removing the entry at `p` removes exactly its key.
proof fn lemma_put_remove(s: Seq<IndexEntry>, p: int)
    requires
        sorted_asc(s),
        0 <= p < s.len(),
    ensures
        map_of(s.remove(p)) == map_of(s).remove(s[p].0),
{
    let k = s[p].0;
    let s1 = s.remove(p);
    assert(sorted_asc(s1)) by {
        assert(forall|j: int| 0 <= j < p ==> (#[trigger] s1[j]) == s[j]);
        assert(forall|j: int| p <= j < s1.len() ==> (#[trigger] s1[j]) == s[j + 1]);
    }
    assert forall|q: Seq<u8>| #[trigger]
        map_of(s1).contains_key(q) == map_of(s).remove(k).contains_key(q) by {
        if has_key(s1, q) {
            let i = choose|i: int| 0 <= i < s1.len() && (#[trigger] s1[i]).0 == q;
            if i < p {
                assert(s[i].0 == q);
                if q == k {
                    lemma_sorted_distinct_all(s, i, p);
                }
            } else {
                assert(s[i + 1].0 == q);
                if q == k {
                    lemma_sorted_distinct_all(s, i + 1, p);
                }
            }
        }
        if has_key(s, q) && q != k {
            let i = choose|i: int| 0 <= i < s.len() && (#[trigger] s[i]).0 == q;
            if i < p {
                assert(s1[i].0 == q);
            } else {
                assert(i != p);
                assert(s1[i - 1].0 == q);
            }
        }
    }
    assert forall|q: Seq<u8>| map_of(s1).contains_key(q) implies map_of(s1)[q] == map_of(s).remove(
        k,
    )[q] by {
        let i = choose|i: int| 0 <= i < s1.len() && (#[trigger] s1[i]).0 == q;
        lemma_map_of_index(s1, i);
        if i < p {
            lemma_map_of_index(s, i);
        } else {
            lemma_map_of_index(s, i + 1);
        }
    }
    assert(map_of(s1) =~= map_of(s).remove(k));
}

/// Entries whose key begins with `p`, in order.
pub open spec fn filter_prefix(s: Seq<IndexEntry>, p: Seq<u8>) -> Seq<IndexEntry> {
    s.filter(|e: IndexEntry| is_prefix_of(p, e.0))
}

/// Splitting a non-empty sequence at its head splits its filtering.
pub proof fn lemma_filter_head(s: Seq<IndexEntry>, p: Seq<u8>)
    requires
        s.len() > 0,
    ensures
        filter_prefix(s, p) == if is_prefix_of(p, s[0].0) {
            seq![s[0]] + filter_prefix(s.skip(1), p)
        } else {
            filter_prefix(s.skip(1), p)
        },
{
    let pred = |e: IndexEntry| is_prefix_of(p, e.0);
    let single = seq![s[0]];
    assert(s =~= single + s.skip(1));
    Seq::filter_distributes_over_add(single, s.skip(1), pred);
    reveal_with_fuel(Seq::filter, 2);
    assert(single.drop_last() =~= Seq::<IndexEntry>::empty());
    if pred(s[0]) {
        assert(single.filter(pred) =~= seq![s[0]]);
    } else {
        assert(single.filter(pred) =~= Seq::<IndexEntry>::empty());
    }
}

/// A lazy forward-only cursor over a snapshot of the index, yielding
/// only the keys that begin with the configured prefix, in ascending or
/// descending order.
pub struct BTreeIterator {
    items: Vec<(Vec<u8>, LogRecordPos)>,
    curr_index: usize,
    options: IteratorOptions,
}

impl BTreeIterator {
    /// The snapshot the iterator walks, in traversal order.
    pub closed spec fn items_seq(self) -> Seq<IndexEntry> {
        self.items@.map_values(|e: (Vec<u8>, LogRecordPos)| (e.0@, e.1))
    }

    /// The cursor: how many snapshot entries lie behind the iterator.
    pub closed spec fn cursor(self) -> int {
        self.curr_index as int
    }

    /// The configured prefix.
    pub closed spec fn prefix(self) -> Seq<u8> {
        self.options.prefix@
    }

    /// Whether the traversal is descending.
    pub closed spec fn reversed(self) -> bool {
        self.options.reverse
    }

    /// The snapshot is ordered the way the traversal runs, and the
    /// cursor is within it.
    pub open spec fn wf(self) -> bool {
        &&& 0 <= self.cursor() <= self.items_seq().len()
        &&& if self.reversed() {
            sorted_desc(self.items_seq())
        } else {
            sorted_asc(self.items_seq())
        }
    }

    /// What repeated `next` calls will still yield.
    pub open spec fn remaining(self) -> Seq<IndexEntry> {
        filter_prefix(self.items_seq().skip(self.cursor()), self.prefix())
    }

    /// Return the cursor to the start of the snapshot.
    pub fn rewind(&mut self)
        ensures
            final(self).items_seq() == old(self).items_seq(),
            final(self).prefix() == old(self).prefix(),
            final(self).reversed() == old(self).reversed(),
            final(self).cursor() == 0,
    {
        self.curr_index = 0;
    }

    /// Position the cursor on the first snapshot entry at or past `key`
    /// in traversal order: the first entry `>= key` ascending, `<= key`
    /// descending. Entries before the cursor are exactly those strictly
    /// before `key` in traversal order.
    pub fn seek(&mut self, key: Vec<u8>)
        ensures
            final(self).items_seq() == old(self).items_seq(),
            final(self).prefix() == old(self).prefix(),
            final(self).reversed() == old(self).reversed(),
            0 <= final(self).cursor() <= final(self).items_seq().len(),
            forall|j: int|
                0 <= j < final(self).cursor() ==> if final(self).reversed() {
                    lex_lt(key@, (#[trigger] final(self).items_seq()[j]).0)
                } else {
                    lex_lt((#[trigger] final(self).items_seq()[j]).0, key@)
                },
            final(self).cursor() < final(self).items_seq().len() ==> if final(self).reversed() {
                !lex_lt(key@, final(self).items_seq()[final(self).cursor()].0)
            } else {
                !lex_lt(final(self).items_seq()[final(self).cursor()].0, key@)
            },
    {
        let ghost s = self.items_seq();
        let mut p: usize = 0;
        while p < self.items.len()
            invariant
                *self == *old(self),
                s == self.items_seq(),
                0 <= p <= s.len(),
                forall|j: int|
                    0 <= j < p ==> if old(self).reversed() {
                        lex_lt(key@, (#[trigger] s[j]).0)
                    } else {
                        lex_lt((#[trigger] s[j]).0, key@)
                    },
            decreases s.len() - p,
        {
            let c = bytes_cmp(&self.items[p].0, &key);
            proof {
                lemma_lex_strict(s[p as int].0, key@);
                lemma_lex_strict(key@, s[p as int].0);
                lemma_lex_irrefl(key@);
            }
            if self.options.reverse {
                if c != 1 {
                    self.curr_index = p;
                    return ;
                }
            } else {
                if c != -1 {
                    self.curr_index = p;
                    return ;
                }
            }
            p = p + 1;
        }
        self.curr_index = p;
    }

    /// Yield the entry under the cursor, skipping entries without the
    /// prefix, and advance; `None` once nothing with the prefix is left.
    pub fn next(&mut self) -> (r: Option<(Vec<u8>, LogRecordPos)>)
        requires
            old(self).cursor() <= old(self).items_seq().len(),
        ensures
            final(self).items_seq() == old(self).items_seq(),
            final(self).prefix() == old(self).prefix(),
            final(self).reversed() == old(self).reversed(),
            old(self).cursor() <= final(self).cursor() <= final(self).items_seq().len(),
            match r {
                None => old(self).remaining() == Seq::<IndexEntry>::empty() && final(self).remaining() == Seq::<IndexEntry>::empty(),
                Some(e) => old(self).remaining().len() > 0 && (e.0@, e.1) == old(self).remaining()[0] && final(self).remaining() == old(self).remaining().skip(1),
            },
    {
        let ghost s = self.items_seq();
        loop
            invariant
                s == self.items_seq(),
                self.options == old(self).options,
                self.items == old(self).items,
                s.len() == self.items@.len(),
                old(self).cursor() <= self.curr_index as int <= s.len(),
                filter_prefix(s.skip(self.curr_index as int), self.options.prefix@) == old(self).remaining(),
            decreases s.len() - self.curr_index,
        {
            if self.curr_index >= self.items.len() {
                assert(s.skip(self.curr_index as int) =~= Seq::<IndexEntry>::empty());
                assert(old(self).remaining() =~= Seq::<IndexEntry>::empty()) by {
                    reveal_with_fuel(Seq::filter, 1);
                }
                return None;
            }
            let ghost rest = s.skip(self.curr_index as int);
            proof {
                lemma_filter_head(rest, self.options.prefix@);
                assert(rest[0] == s[self.curr_index as int]);
                assert(rest.skip(1) =~= s.skip(self.curr_index as int + 1));
            }
            let item_key = slice_to_vec(self.items[self.curr_index].0.as_slice());
            let item_pos = self.items[self.curr_index].1;
            self.curr_index = self.curr_index + 1;
            if self.options.prefix.len() == 0 || bytes_has_prefix(&item_key, &self.options.prefix)
            {
                assert(is_prefix_of(self.options.prefix@, item_key@)) by {
                    if self.options.prefix@.len() == 0 {
                        assert(item_key@.take(0) =~= self.options.prefix@);
                    }
                }
                return Some((item_key, item_pos));
            }
        }
    }
}

/// Iterator correctness, ascending: what an ascending iterator yields
/// from a sorted snapshot is exactly the entries whose key carries the
/// prefix, in ascending order, each exactly once.
pub proof fn lemma_iterator_yield_asc(s: Seq<IndexEntry>, p: Seq<u8>)
    requires
        sorted_asc(s),
    ensures
        sorted_asc(filter_prefix(s, p)),
        forall|i: int|
            0 <= i < filter_prefix(s, p).len() ==> is_prefix_of(
                p,
                (#[trigger] filter_prefix(s, p)[i]).0,
            ) && s.contains(filter_prefix(s, p)[i]),
        forall|i: int|
            0 <= i < s.len() && is_prefix_of(p, (#[trigger] s[i]).0) ==> filter_prefix(
                s,
                p,
            ).contains(s[i]),
    decreases s.len(),
{
    let pred = |e: IndexEntry| is_prefix_of(p, e.0);
    let f = filter_prefix(s, p);
    broadcast use vstd::seq_lib::group_filter_ensures;

    if s.len() > 0 {
        lemma_filter_head(s, p);
        let tail = s.skip(1);
        assert(sorted_asc(tail)) by {
            assert(forall|i: int| 0 <= i < tail.len() ==> (#[trigger] tail[i]) == s[i + 1]);
        }
        lemma_iterator_yield_asc(tail, p);
        let ft = filter_prefix(tail, p);
        if pred(s[0]) {
            assert(f == seq![s[0]] + ft);
            assert(sorted_asc(f)) by {
                assert forall|i: int, j: int|
                    #![trigger f[i], f[j]]
                    0 <= i < j < f.len() implies lex_lt(f[i].0, f[j].0) by {
                    if i == 0 {
                        assert(f[j] == ft[j - 1]);
                        assert(tail.contains(ft[j - 1]));
                        let w = choose|w: int| 0 <= w < tail.len() && tail[w] == ft[j - 1];
                        assert(tail[w] == s[w + 1]);
                        assert(lex_lt(s[0].0, s[w + 1].0));
                    } else {
                        assert(f[i] == ft[i - 1] && f[j] == ft[j - 1]);
                    }
                }
            }
            assert forall|i: int| 0 <= i < f.len() implies is_prefix_of(
                p,
                (#[trigger] f[i]).0,
            ) && s.contains(f[i]) by {
                if i == 0 {
                    assert(f[0] == s[0]);
                } else {
                    assert(f[i] == ft[i - 1]);
                    assert(tail.contains(ft[i - 1]));
                    let w = choose|w: int| 0 <= w < tail.len() && tail[w] == f[i];
                    assert(s[w + 1] == f[i]);
                }
            }
            assert forall|i: int|
                0 <= i < s.len() && is_prefix_of(p, (#[trigger] s[i]).0) implies f.contains(
                s[i],
            ) by {
                if i == 0 {
                    assert(f[0] == s[0]);
                } else {
                    assert(tail[i - 1] == s[i]);
                    assert(ft.contains(s[i]));
                    let w = choose|w: int| 0 <= w < ft.len() && ft[w] == s[i];
                    assert(f[w + 1] == s[i]);
                }
            }
        } else {
            assert(f == ft);
            assert forall|i: int|
                0 <= i < s.len() && is_prefix_of(p, (#[trigger] s[i]).0) implies f.contains(
                s[i],
            ) by {
                assert(i != 0);
                assert(tail[i - 1] == s[i]);
            }
            assert forall|i: int| 0 <= i < f.len() implies is_prefix_of(
                p,
                (#[trigger] f[i]).0,
            ) && s.contains(f[i]) by {
                assert(tail.contains(f[i]));
                let w = choose|w: int| 0 <= w < tail.len() && tail[w] == f[i];
                assert(s[w + 1] == f[i]);
            }
        }
    } else {
        assert(f =~= Seq::<IndexEntry>::empty()) by {
            reveal_with_fuel(Seq::filter, 1);
        }
    }
}

/// Iterator correctness, descending: the same, over a snapshot sorted
/// the other way.
pub proof fn lemma_iterator_yield_desc(s: Seq<IndexEntry>, p: Seq<u8>)
    requires
        sorted_desc(s),
    ensures
        sorted_desc(filter_prefix(s, p)),
        forall|i: int|
            0 <= i < filter_prefix(s, p).len() ==> is_prefix_of(
                p,
                (#[trigger] filter_prefix(s, p)[i]).0,
            ) && s.contains(filter_prefix(s, p)[i]),
        forall|i: int|
            0 <= i < s.len() && is_prefix_of(p, (#[trigger] s[i]).0) ==> filter_prefix(
                s,
                p,
            ).contains(s[i]),
    decreases s.len(),
{
    let pred = |e: IndexEntry| is_prefix_of(p, e.0);
    let f = filter_prefix(s, p);
    broadcast use vstd::seq_lib::group_filter_ensures;

    if s.len() > 0 {
        lemma_filter_head(s, p);
        let tail = s.skip(1);
        assert(sorted_desc(tail)) by {
            assert(forall|i: int| 0 <= i < tail.len() ==> (#[trigger] tail[i]) == s[i + 1]);
        }
        lemma_iterator_yield_desc(tail, p);
        let ft = filter_prefix(tail, p);
        if pred(s[0]) {
            assert(f == seq![s[0]] + ft);
            assert(sorted_desc(f)) by {
                assert forall|i: int, j: int|
                    #![trigger f[i], f[j]]
                    0 <= i < j < f.len() implies lex_lt(f[j].0, f[i].0) by {
                    if i == 0 {
                        assert(f[j] == ft[j - 1]);
                        assert(tail.contains(ft[j - 1]));
                        let w = choose|w: int| 0 <= w < tail.len() && tail[w] == ft[j - 1];
                        assert(tail[w] == s[w + 1]);
                        assert(lex_lt(s[w + 1].0, s[0].0));
                    } else {
                        assert(f[i] == ft[i - 1] && f[j] == ft[j - 1]);
                    }
                }
            }
            assert forall|i: int| 0 <= i < f.len() implies is_prefix_of(
                p,
                (#[trigger] f[i]).0,
            ) && s.contains(f[i]) by {
                if i == 0 {
                    assert(f[0] == s[0]);
                } else {
                    assert(f[i] == ft[i - 1]);
                    assert(tail.contains(ft[i - 1]));
                    let w = choose|w: int| 0 <= w < tail.len() && tail[w] == f[i];
                    assert(s[w + 1] == f[i]);
                }
            }
            assert forall|i: int|
                0 <= i < s.len() && is_prefix_of(p, (#[trigger] s[i]).0) implies f.contains(
                s[i],
            ) by {
                if i == 0 {
                    assert(f[0] == s[0]);
                } else {
                    assert(tail[i - 1] == s[i]);
                    assert(ft.contains(s[i]));
                    let w = choose|w: int| 0 <= w < ft.len() && ft[w] == s[i];
                    assert(f[w + 1] == s[i]);
                }
            }
        } else {
            assert(f == ft);
            assert forall|i: int|
                0 <= i < s.len() && is_prefix_of(p, (#[trigger] s[i]).0) implies f.contains(
                s[i],
            ) by {
                assert(i != 0);
                assert(tail[i - 1] == s[i]);
            }
            assert forall|i: int| 0 <= i < f.len() implies is_prefix_of(
                p,
                (#[trigger] f[i]).0,
            ) && s.contains(f[i]) by {
                assert(tail.contains(f[i]));
                let w = choose|w: int| 0 <= w < tail.len() && tail[w] == f[i];
                assert(s[w + 1] == f[i]);
            }
        }
    } else {
        assert(f =~= Seq::<IndexEntry>::empty()) by {
            reveal_with_fuel(Seq::filter, 1);
        }
    }
}

} // verus!
