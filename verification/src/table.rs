//! Ordered key-value tables: the in-memory form of the indexer's tables,
//! kept sorted by key as the on-disk tables iterate them.

use vstd::prelude::*;

verus! {

/// The outcome of comparing two keys.
pub enum KeyOrder {
    Less,
    Equal,
    Greater,
}

/// A key type with a strict total order on its view.
pub trait TableKey: View + Sized {
    spec fn key_lt(a: Self::V, b: Self::V) -> bool;

    proof fn lemma_key_order(a: Self::V, b: Self::V, c: Self::V)
        ensures
            !Self::key_lt(a, a),
            Self::key_lt(a, b) && Self::key_lt(b, c) ==> Self::key_lt(a, c),
            a != b ==> Self::key_lt(a, b) || Self::key_lt(b, a),
    ;

    fn compare_key(&self, other: &Self) -> (r: KeyOrder)
        ensures
            r is Less <==> Self::key_lt(self@, other@),
            r is Equal <==> self@ == other@,
            r is Greater <==> Self::key_lt(other@, self@),
    ;

    fn clone_key(&self) -> (r: Self)
        ensures
            r@ == self@,
    ;
}

// ---------------------------------------------------------------------------
// Lexicographic order on texts
// ---------------------------------------------------------------------------

/// Lexicographic order of texts by code point (which is the byte order of
/// their UTF-8 encodings).
pub open spec fn chars_lt(a: Seq<char>, b: Seq<char>) -> bool
    decreases a.len(),
{
    if a.len() == 0 {
        b.len() > 0
    } else if b.len() == 0 {
        false
    } else if a[0] < b[0] {
        true
    } else if a[0] == b[0] {
        chars_lt(a.drop_first(), b.drop_first())
    } else {
        false
    }
}

pub proof fn lemma_chars_lt_irreflexive(a: Seq<char>)
    ensures
        !chars_lt(a, a),
    decreases a.len(),
{
    if a.len() > 0 {
        lemma_chars_lt_irreflexive(a.drop_first());
    }
}

pub proof fn lemma_chars_lt_transitive(a: Seq<char>, b: Seq<char>, c: Seq<char>)
    requires
        chars_lt(a, b),
        chars_lt(b, c),
    ensures
        chars_lt(a, c),
    decreases a.len(),
{
    if a.len() > 0 && b.len() > 0 && c.len() > 0 {
        if a[0] == b[0] && b[0] == c[0] {
            lemma_chars_lt_transitive(a.drop_first(), b.drop_first(), c.drop_first());
        }
    }
}

pub proof fn lemma_chars_lt_total(a: Seq<char>, b: Seq<char>)
    requires
        a != b,
    ensures
        chars_lt(a, b) || chars_lt(b, a),
    decreases a.len(),
{
    if a.len() > 0 && b.len() > 0 && a[0] == b[0] {
        if a.drop_first() == b.drop_first() {
            assert(a =~= seq![a[0]] + a.drop_first());
            assert(b =~= seq![b[0]] + b.drop_first());
        }
        lemma_chars_lt_total(a.drop_first(), b.drop_first());
    } else if a.len() == 0 && b.len() == 0 {
        assert(a =~= b);
    }
}

proof fn lemma_chars_lt_skip(a: Seq<char>, b: Seq<char>, i: int)
    requires
        0 <= i <= a.len(),
        i <= b.len(),
        a.subrange(0, i) == b.subrange(0, i),
    ensures
        chars_lt(a, b) == chars_lt(a.skip(i), b.skip(i)),
    decreases i,
{
    if i > 0 {
        assert(a[0] == a.subrange(0, i)[0]);
        assert(b[0] == b.subrange(0, i)[0]);
        assert(a.drop_first().subrange(0, i - 1) =~= a.subrange(0, i).drop_first());
        assert(b.drop_first().subrange(0, i - 1) =~= b.subrange(0, i).drop_first());
        lemma_chars_lt_skip(a.drop_first(), b.drop_first(), i - 1);
        assert(a.drop_first().skip(i - 1) =~= a.skip(i));
        assert(b.drop_first().skip(i - 1) =~= b.skip(i));
    } else {
        assert(a.skip(0) =~= a);
        assert(b.skip(0) =~= b);
    }
}

/// Compares two texts by [`chars_lt`].
pub fn compare_str(a: &str, b: &str) -> (r: KeyOrder)
    ensures
        r is Less <==> chars_lt(a@, b@),
        r is Equal <==> a@ == b@,
        r is Greater <==> chars_lt(b@, a@),
{
    let n = a.unicode_len();
    let m = b.unicode_len();
    let mut i: usize = 0;
    while i < n && i < m
        invariant
            n == a@.len(),
            m == b@.len(),
            0 <= i <= n,
            i <= m,
            a@.subrange(0, i as int) == b@.subrange(0, i as int),
        decreases n - i,
    {
        let x = a.get_char(i);
        let y = b.get_char(i);
        if x != y {
            proof {
                lemma_chars_lt_skip(a@, b@, i as int);
                lemma_chars_lt_skip(b@, a@, i as int);
                assert(a@.skip(i as int)[0] == x);
                assert(b@.skip(i as int)[0] == y);
                if a@ == b@ {
                    assert(a@[i as int] == b@[i as int]);
                }
            }
            if x < y {
                return KeyOrder::Less;
            } else {
                return KeyOrder::Greater;
            }
        }
        assert(a@.subrange(0, i + 1) =~= a@.subrange(0, i as int).push(x));
        assert(b@.subrange(0, i + 1) =~= b@.subrange(0, i as int).push(y));
        i = i + 1;
    }
    proof {
        lemma_chars_lt_skip(a@, b@, i as int);
        lemma_chars_lt_skip(b@, a@, i as int);
        if n == m {
            assert(a@ =~= a@.subrange(0, i as int));
            assert(b@ =~= b@.subrange(0, i as int));
        } else if a@ == b@ {
            assert(a@.len() == b@.len());
        }
    }
    if n < m {
        KeyOrder::Less
    } else if n == m {
        KeyOrder::Equal
    } else {
        KeyOrder::Greater
    }
}

impl TableKey for String {
    open spec fn key_lt(a: Seq<char>, b: Seq<char>) -> bool {
        chars_lt(a, b)
    }

    proof fn lemma_key_order(a: Seq<char>, b: Seq<char>, c: Seq<char>) {
        lemma_chars_lt_irreflexive(a);
        if chars_lt(a, b) && chars_lt(b, c) {
            lemma_chars_lt_transitive(a, b, c);
        }
        if a != b {
            lemma_chars_lt_total(a, b);
        }
    }

    fn compare_key(&self, other: &Self) -> (r: KeyOrder) {
        compare_str(self.as_str(), other.as_str())
    }

    fn clone_key(&self) -> (r: Self) {
        self.clone()
    }
}

impl TableKey for u32 {
    open spec fn key_lt(a: u32, b: u32) -> bool {
        a < b
    }

    proof fn lemma_key_order(a: u32, b: u32, c: u32) {
    }

    fn compare_key(&self, other: &Self) -> (r: KeyOrder) {
        if *self < *other {
            KeyOrder::Less
        } else if *self == *other {
            KeyOrder::Equal
        } else {
            KeyOrder::Greater
        }
    }

    fn clone_key(&self) -> (r: Self) {
        *self
    }
}

impl TableKey for u64 {
    open spec fn key_lt(a: u64, b: u64) -> bool {
        a < b
    }

    proof fn lemma_key_order(a: u64, b: u64, c: u64) {
    }

    fn compare_key(&self, other: &Self) -> (r: KeyOrder) {
        if *self < *other {
            KeyOrder::Less
        } else if *self == *other {
            KeyOrder::Equal
        } else {
            KeyOrder::Greater
        }
    }

    fn clone_key(&self) -> (r: Self) {
        *self
    }
}

impl<A: TableKey, B: TableKey> TableKey for (A, B) {
    open spec fn key_lt(a: (A::V, B::V), b: (A::V, B::V)) -> bool {
        A::key_lt(a.0, b.0) || (a.0 == b.0 && B::key_lt(a.1, b.1))
    }

    proof fn lemma_key_order(a: (A::V, B::V), b: (A::V, B::V), c: (A::V, B::V)) {
        A::lemma_key_order(a.0, b.0, c.0);
        A::lemma_key_order(b.0, a.0, c.0);
        A::lemma_key_order(a.0, c.0, b.0);
        B::lemma_key_order(a.1, b.1, c.1);
        B::lemma_key_order(b.1, a.1, c.1);
    }

    fn compare_key(&self, other: &Self) -> (r: KeyOrder) {
        proof {
            A::lemma_key_order(self.0@, other.0@, other.0@);
            A::lemma_key_order(other.0@, self.0@, self.0@);
            B::lemma_key_order(self.1@, other.1@, other.1@);
            B::lemma_key_order(other.1@, self.1@, self.1@);
        }
        match self.0.compare_key(&other.0) {
            KeyOrder::Less => KeyOrder::Less,
            KeyOrder::Greater => KeyOrder::Greater,
            KeyOrder::Equal => self.1.compare_key(&other.1),
        }
    }

    fn clone_key(&self) -> (r: Self) {
        (self.0.clone_key(), self.1.clone_key())
    }
}

// ---------------------------------------------------------------------------
// Tables
// ---------------------------------------------------------------------------

/// The keys of `s` strictly increase.
pub open spec fn sorted_keys<K: TableKey, V>(s: Seq<(K::V, V)>) -> bool {
    forall|i: int, j: int| 0 <= i < j < s.len() ==> K::key_lt(#[trigger] s[i].0, #[trigger] s[j].0)
}

/// The map that a sequence of entries with distinct keys stands for.
pub open spec fn entries_map<KV, V>(s: Seq<(KV, V)>) -> Map<KV, V> {
    Map::new(
        |k: KV| exists|i: int| 0 <= i < s.len() && s[i].0 == k,
        |k: KV| s[choose|i: int| 0 <= i < s.len() && s[i].0 == k].1,
    )
}

/// A table of values ordered by key, with no key twice.
pub struct Table<K, V> {
    pub entries: Vec<(K, V)>,
}

impl<K: TableKey, V: View> Table<K, V> {
    /// The entries in key order, keys by their view.
    pub open spec fn seq(&self) -> Seq<(K::V, V)> {
        self.entries@.map_values(|e: (K, V)| (e.0@, e.1))
    }

    /// The values in key order.
    pub open spec fn values(&self) -> Seq<V> {
        self.seq().map_values(|e: (K::V, V)| e.1)
    }

    /// The contents as a map of value views.
    pub open spec fn vmap(&self) -> Map<K::V, V::V> {
        self.map().map_values(|v: V| v@)
    }

    /// Keys strictly increase.
    pub open spec fn wf(&self) -> bool {
        sorted_keys::<K, V>(self.seq())
    }

    /// The contents as a map.
    pub open spec fn map(&self) -> Map<K::V, V> {
        entries_map(self.seq())
    }

    /// In a sorted sequence, the entry at `i` is what the map holds for its key.
    pub proof fn lemma_seq_map(&self, i: int)
        requires
            self.wf(),
            0 <= i < self.seq().len(),
        ensures
            self.map().contains_key(self.seq()[i].0),
            self.map()[self.seq()[i].0] == self.seq()[i].1,
    {
        let s = self.seq();
        let k = s[i].0;
        assert(exists|j: int| 0 <= j < s.len() && s[j].0 == k);
        let j = choose|j: int| 0 <= j < s.len() && s[j].0 == k;
        if j != i {
            K::lemma_key_order(k, k, k);
        }
    }

    /// An empty table.
    pub fn new() -> (r: Self)
        ensures
            r.wf(),
            r.seq() == Seq::<(K::V, V)>::empty(),
            r.map() == Map::<K::V, V>::empty(),
            r.vmap() == Map::<K::V, V::V>::empty(),
    {
        let r = Table { entries: Vec::new() };
        assert(r.seq() =~= Seq::<(K::V, V)>::empty());
        assert(r.map() =~= Map::<K::V, V>::empty());
        assert(r.vmap() =~= Map::<K::V, V::V>::empty());
        r
    }

    /// The number of entries.
    pub fn len(&self) -> (r: usize)
        ensures
            r == self.seq().len(),
    {
        self.entries.len()
    }

    /// Where `k` stands, or would stand, in the table.
    fn find(&self, k: &K) -> (r: (bool, usize))
        requires
            self.wf(),
        ensures
            r.1 <= self.seq().len(),
            r.0 ==> r.1 < self.seq().len() && self.seq()[r.1 as int].0 == k@,
            !r.0 ==> forall|i: int|
                0 <= i < self.seq().len() ==> (i < r.1 ==> K::key_lt(#[trigger] self.seq()[i].0, k@))
                    && (i >= r.1 ==> K::key_lt(k@, self.seq()[i].0)),
    {
        let n = self.entries.len();
        let mut i: usize = 0;
        while i < n
            invariant
                n == self.seq().len(),
                0 <= i <= n,
                self.wf(),
                forall|j: int| 0 <= j < i ==> K::key_lt(#[trigger] self.seq()[j].0, k@),
            decreases n - i,
        {
            match self.entries[i].0.compare_key(k) {
                KeyOrder::Less => {
                    i = i + 1;
                },
                KeyOrder::Equal => {
                    return (true, i);
                },
                KeyOrder::Greater => {
                    proof {
                        assert forall|j: int| 0 <= j < n && j >= i implies K::key_lt(
                            k@,
                            #[trigger] self.seq()[j].0,
                        ) by {
                            if j > i {
                                K::lemma_key_order(k@, self.seq()[i as int].0, self.seq()[j].0);
                            }
                        }
                    }
                    return (false, i);
                },
            }
        }
        (false, n)
    }

    /// The value held for `k`.
    pub fn get(&self, k: &K) -> (r: Option<&V>)
        requires
            self.wf(),
        ensures
            r matches Some(v) ==> self.map().contains_key(k@) && self.map()[k@] == *v
                && self.vmap()[k@] == v@,
            r is None ==> !self.map().contains_key(k@),
    {
        let (found, i) = self.find(k);
        if found {
            proof {
                self.lemma_seq_map(i as int);
            }
            Some(&self.entries[i].1)
        } else {
            proof {
                if self.map().contains_key(k@) {
                    let j = choose|j: int| 0 <= j < self.seq().len() && self.seq()[j].0 == k@;
                    K::lemma_key_order(k@, k@, k@);
                }
            }
            None
        }
    }

    /// Whether the table holds `k`.
    pub fn contains(&self, k: &K) -> (r: bool)
        requires
            self.wf(),
        ensures
            r == self.map().contains_key(k@),
    {
        self.get(k).is_some()
    }

    /// Sets the value for `k`.
    pub fn insert(&mut self, k: K, v: V)
        requires
            old(self).wf(),
        ensures
            final(self).wf(),
            final(self).map() == old(self).map().insert(k@, v),
            final(self).vmap() == old(self).vmap().insert(k@, v@),
    {
        let ghost vv = v@;
        let (found, i) = self.find(&k);
        let ghost kv = k@;
        let ghost s0 = self.seq();
        if found {
            self.entries.set(i, (k, v));
            proof {
                let s = self.seq();
                assert(s =~= s0.update(i as int, (kv, v)));
                assert forall|a: int, b: int| 0 <= a < b < s.len() implies K::key_lt(
                    #[trigger] s[a].0,
                    #[trigger] s[b].0,
                ) by {
                    assert(s0[a].0 == s[a].0 || a == i);
                }
                assert(self.map() =~= old(self).map().insert(kv, v)) by {
                    assert forall|key| #[trigger] self.map().contains_key(key) <==> old(
                        self,
                    ).map().insert(kv, v).contains_key(key) by {
                        if key != kv && self.map().contains_key(key) {
                            let j = choose|j: int| 0 <= j < s.len() && s[j].0 == key;
                            assert(s0[j].0 == key);
                        }
                        if key != kv && old(self).map().contains_key(key) {
                            let j = choose|j: int| 0 <= j < s0.len() && s0[j].0 == key;
                            assert(s[j].0 == key);
                        }
                        if key == kv {
                            assert(s[i as int].0 == kv);
                        }
                    }
                    assert forall|key| #[trigger] self.map().contains_key(key) implies self.map()[key]
                        == old(self).map().insert(kv, v)[key] by {
                        let j = choose|j: int| 0 <= j < s.len() && s[j].0 == key;
                        self.lemma_seq_map(j);
                        if key != kv {
                            old(self).lemma_seq_map(j);
                        } else {
                            self.lemma_seq_map(i as int);
                        }
                    }
                }
            }
        } else {
            self.entries.insert(i, (k, v));
            proof {
                let s = self.seq();
                assert(s =~= s0.insert(i as int, (kv, v)));
                assert forall|a: int, b: int| 0 <= a < b < s.len() implies K::key_lt(
                    #[trigger] s[a].0,
                    #[trigger] s[b].0,
                ) by {
                    if a < i && b > i {
                        assert(s[b].0 == s0[b - 1].0);
                        K::lemma_key_order(s[a].0, kv, s[b].0);
                    } else if a < i && b == i {
                    } else if a == i {
                        assert(s[b].0 == s0[b - 1].0);
                    } else if b < i {
                    } else {
                        assert(s[b].0 == s0[b - 1].0);
                        assert(s[a].0 == s0[a - 1].0);
                    }
                }
                assert forall|key| #[trigger] self.map().contains_key(key) <==> old(
                    self,
                ).map().insert(kv, v).contains_key(key) by {
                    if key != kv && self.map().contains_key(key) {
                        let j = choose|j: int| 0 <= j < s.len() && s[j].0 == key;
                        if j < i {
                            assert(s0[j].0 == key);
                        } else {
                            assert(s0[j - 1].0 == key);
                        }
                    }
                    if key != kv && old(self).map().contains_key(key) {
                        let j = choose|j: int| 0 <= j < s0.len() && s0[j].0 == key;
                        if j < i {
                            assert(s[j].0 == key);
                        } else {
                            assert(s[j + 1].0 == key);
                        }
                    }
                    if key == kv {
                        assert(s[i as int].0 == kv);
                    }
                }
                assert forall|key| #[trigger] self.map().contains_key(key) implies self.map()[key]
                    == old(self).map().insert(kv, v)[key] by {
                    let j = choose|j: int| 0 <= j < s.len() && s[j].0 == key;
                    self.lemma_seq_map(j);
                    if key != kv {
                        if j < i {
                            old(self).lemma_seq_map(j);
                        } else {
                            old(self).lemma_seq_map(j - 1);
                        }
                    } else {
                        self.lemma_seq_map(i as int);
                    }
                }
                assert(self.map() =~= old(self).map().insert(kv, v));
            }
        }
        assert(self.vmap() =~= old(self).vmap().insert(kv, vv));
    }

    /// Removes `k` and what it held.
    pub fn remove(&mut self, k: &K)
        requires
            old(self).wf(),
        ensures
            final(self).wf(),
            final(self).map() == old(self).map().remove(k@),
            final(self).vmap() == old(self).vmap().remove(k@),
    {
        let (found, i) = self.find(k);
        let ghost s0 = self.seq();
        if found {
            self.entries.remove(i);
            proof {
                let s = self.seq();
                assert(s =~= s0.remove(i as int));
                assert forall|a: int, b: int| 0 <= a < b < s.len() implies K::key_lt(
                    #[trigger] s[a].0,
                    #[trigger] s[b].0,
                ) by {
                    if a < i && b >= i {
                        assert(s[b].0 == s0[b + 1].0);
                    } else if a >= i {
                        assert(s[b].0 == s0[b + 1].0);
                        assert(s[a].0 == s0[a + 1].0);
                    }
                }
                assert forall|key| #[trigger] self.map().contains_key(key) <==> old(
                    self,
                ).map().remove(k@).contains_key(key) by {
                    if self.map().contains_key(key) {
                        let j = choose|j: int| 0 <= j < s.len() && s[j].0 == key;
                        if j < i {
                            assert(s0[j].0 == key);
                            K::lemma_key_order(key, key, key);
                        } else {
                            assert(s0[j + 1].0 == key);
                        }
                        if key == k@ {
                            K::lemma_key_order(key, key, key);
                        }
                    }
                    if key != k@ && old(self).map().contains_key(key) {
                        let j = choose|j: int| 0 <= j < s0.len() && s0[j].0 == key;
                        if j < i {
                            assert(s[j].0 == key);
                        } else {
                            assert(j != i);
                            assert(s[j - 1].0 == key);
                        }
                    }
                }
                assert forall|key| #[trigger] self.map().contains_key(key) implies self.map()[key]
                    == old(self).map().remove(k@)[key] by {
                    let j = choose|j: int| 0 <= j < s.len() && s[j].0 == key;
                    self.lemma_seq_map(j);
                    if j < i {
                        old(self).lemma_seq_map(j);
                    } else {
                        old(self).lemma_seq_map(j + 1);
                    }
                }
                assert(self.map() =~= old(self).map().remove(k@));
            }
        } else {
            proof {
                assert(!old(self).map().contains_key(k@)) by {
                    if old(self).map().contains_key(k@) {
                        let j = choose|j: int| 0 <= j < s0.len() && s0[j].0 == k@;
                        K::lemma_key_order(k@, k@, k@);
                    }
                }
                assert(self.map() =~= old(self).map().remove(k@));
            }
        }
        assert(self.vmap() =~= old(self).vmap().remove(k@));
    }

    /// Removes every entry.
    pub fn clear(&mut self)
        ensures
            final(self).wf(),
            final(self).map() == Map::<K::V, V>::empty(),
            final(self).seq() == Seq::<(K::V, V)>::empty(),
            final(self).vmap() == Map::<K::V, V::V>::empty(),
    {
        self.entries = Vec::new();
        assert(self.vmap() =~= Map::<K::V, V::V>::empty());
        assert(self.seq() =~= Seq::<(K::V, V)>::empty());
        assert(self.map() =~= Map::<K::V, V>::empty());
    }
}

} // verus!
