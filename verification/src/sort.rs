//! Stable sorting by key, and paging of listings.

use crate::table::{KeyOrder, TableKey};
use vstd::prelude::*;

verus! {

/// A `u32` ordered from the largest down.
pub struct Desc(pub u32);

impl View for Desc {
    type V = u32;

    open spec fn view(&self) -> u32 {
        self.0
    }
}

impl TableKey for Desc {
    open spec fn key_lt(a: u32, b: u32) -> bool {
        a > b
    }

    proof fn lemma_key_order(a: u32, b: u32, c: u32) {
    }

    fn compare_key(&self, other: &Self) -> (r: KeyOrder) {
        if self.0 > other.0 {
            KeyOrder::Less
        } else if self.0 == other.0 {
            KeyOrder::Equal
        } else {
            KeyOrder::Greater
        }
    }

    fn clone_key(&self) -> (r: Self) {
        Desc(self.0)
    }
}

/// A `u64` ordered from the largest down.
pub struct DescCount(pub u64);

impl View for DescCount {
    type V = u64;

    open spec fn view(&self) -> u64 {
        self.0
    }
}

impl TableKey for DescCount {
    open spec fn key_lt(a: u64, b: u64) -> bool {
        a > b
    }

    proof fn lemma_key_order(a: u64, b: u64, c: u64) {
    }

    fn compare_key(&self, other: &Self) -> (r: KeyOrder) {
        if self.0 > other.0 {
            KeyOrder::Less
        } else if self.0 == other.0 {
            KeyOrder::Equal
        } else {
            KeyOrder::Greater
        }
    }

    fn clone_key(&self) -> (r: Self) {
        DescCount(self.0)
    }
}

/// Whether `a` comes before `b`.
pub fn key_less<K: TableKey>(a: &K, b: &K) -> (r: bool)
    ensures
        r == K::key_lt(a@, b@),
{
    match a.compare_key(b) {
        KeyOrder::Less => true,
        _ => false,
    }
}

/// The entries with key `k`, in order.
pub open spec fn with_key<KV, T>(s: Seq<(KV, T)>, k: KV) -> Seq<(KV, T)> {
    s.filter(|e: (KV, T)| e.0 == k)
}

/// The keys of `s` never decrease.
pub open spec fn sorted_by_key<K: TableKey, T>(s: Seq<(K::V, T)>) -> bool {
    forall|i: int, j: int| 0 <= i < j < s.len() ==> !K::key_lt(#[trigger] s[j].0, #[trigger] s[i].0)
}

/// `r` is `s` sorted by key, with the entries of equal keys in their order
/// in `s` (what a stable sort gives).
pub open spec fn stable_sort_of<K: TableKey, T>(r: Seq<(K::V, T)>, s: Seq<(K::V, T)>) -> bool {
    &&& sorted_by_key::<K, T>(r)
    &&& forall|k: K::V| #[trigger] with_key(r, k) == with_key(s, k)
}

/// A value that listings sort by a key of it.
pub trait SortKey: View + Sized {
    type Key: TableKey;

    spec fn key_of(v: Self::V) -> <Self::Key as View>::V;

    fn sort_key(&self) -> (r: Self::Key)
        ensures
            r@ == Self::key_of(self@),
    ;
}

/// Values by view, each with its key.
pub open spec fn keyed<T: SortKey>(s: Seq<T>) -> Seq<(<T::Key as View>::V, T::V)> {
    s.map_values(|x: T| (T::key_of(x@), x@))
}

/// Pushing a value pushes its keyed entry.
pub proof fn lemma_keyed_push<T: SortKey>(s: Seq<T>, x: T)
    ensures
        keyed(s.push(x)) == keyed(s).push((T::key_of(x@), x@)),
{
    assert(keyed(s.push(x)) =~= keyed(s).push((T::key_of(x@), x@)));
}

/// `r` is `s` sorted stably by the values' key.
pub open spec fn sorted_values<T: SortKey>(r: Seq<T>, s: Seq<T>) -> bool {
    stable_sort_of::<T::Key, T::V>(keyed(r), keyed(s))
}

/// In a page of a listing sorted by key, the keys never decrease, and the
/// page holds at most `limit` values.
pub proof fn lemma_page_order<T: SortKey>(
    r: Seq<T>,
    s: Seq<(<T::Key as View>::V, T::V)>,
    offset: usize,
    limit: usize,
)
    requires
        sorted_by_key::<T::Key, T::V>(s),
        keyed(r) == page(s, offset, limit),
    ensures
        r.len() <= limit,
        forall|i: int, j: int|
            0 <= i < j < r.len() ==> !T::Key::key_lt(T::key_of(#[trigger] r[j]@), T::key_of(#[trigger] r[i]@)),
{
    let from = if offset <= s.len() { offset as int } else { s.len() as int };
    assert(keyed(r).len() == r.len());
    assert forall|i: int, j: int| 0 <= i < j < r.len() implies !T::Key::key_lt(
        T::key_of(#[trigger] r[j]@),
        T::key_of(#[trigger] r[i]@),
    ) by {
        assert(keyed(r)[i] == (T::key_of(r[i]@), r[i]@));
        assert(keyed(r)[j] == (T::key_of(r[j]@), r[j]@));
        assert(keyed(r)[i] == s[from + i]);
        assert(keyed(r)[j] == s[from + j]);
        assert(!T::Key::key_lt(s[from + j].0, s[from + i].0));
    }
}

/// In a stable sort, the keys of the values never decrease.
pub proof fn lemma_sorted_order<T: SortKey>(r: Seq<T>, s: Seq<T>)
    requires
        sorted_values(r, s),
    ensures
        forall|i: int, j: int|
            0 <= i < j < r.len() ==> !T::Key::key_lt(T::key_of(#[trigger] r[j]@), T::key_of(#[trigger] r[i]@)),
{
    assert forall|i: int, j: int| 0 <= i < j < r.len() implies !T::Key::key_lt(
        T::key_of(#[trigger] r[j]@),
        T::key_of(#[trigger] r[i]@),
    ) by {
        assert(keyed(r)[i] == (T::key_of(r[i]@), r[i]@));
        assert(keyed(r)[j] == (T::key_of(r[j]@), r[j]@));
        assert(!T::Key::key_lt(keyed(r)[j].0, keyed(r)[i].0));
    }
}

/// Every entry of a stable sort of `s` is an entry of `s`.
pub proof fn lemma_sorted_members<K: TableKey, T>(r: Seq<(K::V, T)>, s: Seq<(K::V, T)>, i: int)
    requires
        stable_sort_of::<K, T>(r, s),
        0 <= i < r.len(),
    ensures
        s.contains(r[i]),
{
    let k = r[i].0;
    let p = |e: (K::V, T)| e.0 == k;
    r.lemma_filter_contains(p, i);
    assert(with_key(r, k) == with_key(s, k));
    assert(with_key(s, k).contains(r[i]));
    s.lemma_filter_contains_rev(p, r[i]);
}

/// Two entries of the same key stand in a filter by that key.
proof fn lemma_filter_two<A>(s: Seq<A>, p: spec_fn(A) -> bool, i: int, j: int)
    requires
        0 <= i < j < s.len(),
        p(s[i]),
        p(s[j]),
    ensures
        s.filter(p).len() >= 2,
    decreases s.len(),
{
    reveal(Seq::filter);
    if j < s.len() - 1 {
        lemma_filter_two(s.drop_last(), p, i, j);
        s.drop_last().lemma_filter_len_push(p, s.last());
        assert(s.drop_last().push(s.last()) =~= s);
    } else {
        assert(s.drop_last()[i] == s[i]);
        s.drop_last().lemma_filter_contains(p, i);
        s.drop_last().lemma_filter_len_push(p, s.last());
        assert(s.drop_last().push(s.last()) =~= s);
        assert(s.drop_last().filter(p).len() >= 1);
    }
}

/// A filter that keeps at most one entry keeps fewer than two.
proof fn lemma_filter_at_most_one<A>(s: Seq<A>, p: spec_fn(A) -> bool)
    requires
        forall|i: int, j: int| 0 <= i < j < s.len() && #[trigger] p(s[i]) ==> !#[trigger] p(s[j]),
    ensures
        s.filter(p).len() <= 1,
    decreases s.len(),
{
    reveal(Seq::filter);
    if s.len() > 0 {
        let d = s.drop_last();
        assert forall|i: int, j: int| 0 <= i < j < d.len() && #[trigger] p(d[i]) implies !#[trigger] p(d[j]) by {
            assert(d[i] == s[i] && d[j] == s[j]);
        }
        lemma_filter_at_most_one(d, p);
        d.lemma_filter_len_push(p, s.last());
        assert(d.push(s.last()) =~= s);
        if p(s.last()) && d.filter(p).len() == 1 {
            let e = d.filter(p)[0];
            d.lemma_filter_pred(p, 0);
            d.lemma_filter_contains_rev(p, e);
            let i = choose|i: int| 0 <= i < d.len() && d[i] == e;
            assert(s[i] == e);
            assert(p(s[i]));
            assert(p(s[s.len() - 1]));
        }
    }
}

/// Where `s` holds at most one entry of each key, so does a stable sort of
/// it: its keys then strictly increase.
pub proof fn lemma_sorted_distinct<K: TableKey, T>(r: Seq<(K::V, T)>, s: Seq<(K::V, T)>)
    requires
        stable_sort_of::<K, T>(r, s),
        forall|i: int, j: int| 0 <= i < j < s.len() ==> #[trigger] s[i].0 != #[trigger] s[j].0,
    ensures
        forall|i: int, j: int| 0 <= i < j < r.len() ==> K::key_lt(#[trigger] r[i].0, #[trigger] r[j].0),
{
    assert forall|i: int, j: int| 0 <= i < j < r.len() implies K::key_lt(#[trigger] r[i].0, #[trigger] r[j].0) by {
        let k = r[i].0;
        let p = |e: (K::V, T)| e.0 == k;
        K::lemma_key_order(r[i].0, r[j].0, r[j].0);
        if r[j].0 == k {
            lemma_filter_two(r, p, i, j);
            assert forall|a: int, b: int| 0 <= a < b < s.len() && #[trigger] p(s[a]) implies !#[trigger] p(s[b]) by {
            }
            lemma_filter_at_most_one(s, p);
            assert(with_key(r, k) == with_key(s, k));
        }
        assert(!K::key_lt(r[j].0, r[i].0));
    }
}

/// A filter that keeps nothing gives nothing.
pub proof fn lemma_filter_none<A>(s: Seq<A>, p: spec_fn(A) -> bool)
    requires
        forall|i: int| 0 <= i < s.len() ==> !p(#[trigger] s[i]),
    ensures
        s.filter(p) == Seq::<A>::empty(),
    decreases s.len(),
{
    reveal(Seq::filter);
    if s.len() > 0 {
        lemma_filter_none(s.drop_last(), p);
    }
}

/// Sorts by key; entries with equal keys keep their order.
pub fn stable_sort<T: SortKey>(v: Vec<T>) -> (r: Vec<T>)
    ensures
        sorted_values(r@, v@),
{
    let ghost s = keyed(v@);
    let mut v = v;
    let mut r: Vec<T> = Vec::new();
    let ghost n0 = v@.len();
    assert(keyed(v@) =~= s.take(n0 as int));
    assert(s.skip(n0 as int) =~= Seq::<(<T::Key as View>::V, T::V)>::empty());
    assert(keyed(r@) =~= Seq::<(<T::Key as View>::V, T::V)>::empty());
    while v.len() > 0
        invariant
            s.len() == n0,
            v@.len() <= n0,
            keyed(v@) == s.take(v@.len() as int),
            stable_sort_of::<T::Key, T::V>(keyed(r@), s.skip(v@.len() as int)),
        decreases v@.len(),
    {
        let ghost m = v@.len() as int;
        let x = v.pop().unwrap();
        let xk = x.sort_key();
        let ghost xv = (T::key_of(x@), x@);
        assert(s[m - 1] == xv) by {
            assert(s.take(m)[m - 1] == keyed(old_v_view(v@, x))[m - 1]);
        }
        assert(keyed(v@) =~= s.take(m - 1)) by {
            assert(keyed(v@.push(x)) == s.take(m));
        }
        let ghost rs = keyed(r@);
        let mut p: usize = 0;
        while p < r.len() && key_less(&r[p].sort_key(), &xk)
            invariant
                0 <= p <= r@.len(),
                rs == keyed(r@),
                xk@ == xv.0,
                forall|i: int| 0 <= i < p ==> T::Key::key_lt(#[trigger] rs[i].0, xv.0),
            decreases r@.len() - p,
        {
            p = p + 1;
        }
        proof {
            assert forall|j: int| p <= j < rs.len() implies !T::Key::key_lt(#[trigger] rs[j].0, xv.0) by {
                if T::Key::key_lt(rs[j].0, xv.0) {
                    // rs[p] is at least x's key, and rs[j] at least rs[p]
                    T::Key::lemma_key_order(rs[p as int].0, rs[j].0, xv.0);
                    T::Key::lemma_key_order(rs[j].0, rs[p as int].0, xv.0);
                    if rs[p as int].0 == rs[j].0 {
                    }
                }
            }
        }
        r.insert(p, x);
        proof {
            let rn = keyed(r@);
            assert(rn =~= rs.insert(p as int, xv));
            assert(s.skip(m - 1) =~= seq![xv] + s.skip(m));
            assert forall|i: int, j: int| 0 <= i < j < rn.len() implies !T::Key::key_lt(
                #[trigger] rn[j].0,
                #[trigger] rn[i].0,
            ) by {
                if j < p {
                } else if j == p {
                    T::Key::lemma_key_order(rn[i].0, xv.0, rn[i].0);
                } else if i < p {
                    assert(rn[j] == rs[j - 1]);
                    T::Key::lemma_key_order(rs[j - 1].0, rn[i].0, xv.0);
                    T::Key::lemma_key_order(rn[i].0, xv.0, rs[j - 1].0);
                    T::Key::lemma_key_order(rs[j - 1].0, xv.0, rn[i].0);
                } else if i == p {
                    assert(rn[j] == rs[j - 1]);
                } else {
                    assert(rn[j] == rs[j - 1]);
                    assert(rn[i] == rs[i - 1]);
                }
            }
            assert(rn =~= rs.take(p as int) + (seq![xv] + rs.skip(p as int)));
            assert(rs =~= rs.take(p as int) + rs.skip(p as int));
            assert forall|k: <T::Key as View>::V| #[trigger] with_key(rn, k) == with_key(s.skip(m - 1), k) by {
                let pr = |e: (<T::Key as View>::V, T::V)| e.0 == k;
                Seq::filter_distributes_over_add(rs.take(p as int), seq![xv] + rs.skip(p as int), pr);
                Seq::filter_distributes_over_add(rs.take(p as int), rs.skip(p as int), pr);
                rs.skip(p as int).lemma_filter_prepend(xv, pr);
                s.skip(m).lemma_filter_prepend(xv, pr);
                assert(with_key(rs, k) == with_key(s.skip(m), k));
                if k == xv.0 {
                    assert forall|i: int| 0 <= i < rs.take(p as int).len() implies !pr(
                        #[trigger] rs.take(p as int)[i],
                    ) by {
                        T::Key::lemma_key_order(xv.0, xv.0, xv.0);
                    }
                    lemma_filter_none(rs.take(p as int), pr);
                    assert(rs.take(p as int).filter(pr) =~= Seq::<(<T::Key as View>::V, T::V)>::empty());
                    assert(with_key(rn, k) =~= seq![xv] + rs.skip(p as int).filter(pr));
                    assert(with_key(rs, k) =~= rs.skip(p as int).filter(pr));
                } else {
                    assert(with_key(rn, k) =~= rs.take(p as int).filter(pr) + rs.skip(
                        p as int,
                    ).filter(pr));
                }
            }
        }
    }
    assert(s.skip(0) =~= s);
    r
}

/// `v` with `x` pushed back, for the proof of [`stable_sort`].
spec fn old_v_view<T>(v: Seq<T>, x: T) -> Seq<T> {
    v.push(x)
}

/// A page of a listing: skip `offset` entries, then take at most `limit`.
pub open spec fn page<T>(s: Seq<T>, offset: usize, limit: usize) -> Seq<T> {
    let from = if offset <= s.len() {
        offset as int
    } else {
        s.len() as int
    };
    let to = if from + limit <= s.len() {
        from + limit
    } else {
        s.len() as int
    };
    s.subrange(from, to)
}

/// A page of a listing (`iter().skip(offset).take(limit)`).
pub fn take_page<T>(v: Vec<T>, offset: usize, limit: usize) -> (r: Vec<T>)
    ensures
        r@ == page(v@, offset, limit),
{
    let n = v.len();
    let from = if offset <= n {
        offset
    } else {
        n
    };
    let to = if limit <= n - from {
        from + limit
    } else {
        n
    };
    let mut v = v;
    v.truncate(to);
    let r = v.split_off(from);
    r
}

} // verus!
