//! Stable ordering of lists, highest rank first.

use vstd::prelude::*;

verus! {

/// Whether rank `a` is strictly above rank `b`: the first numbers decide, then
/// the second ones.
pub open spec fn above(a: (int, int), b: (int, int)) -> bool {
    a.0 > b.0 || (a.0 == b.0 && a.1 > b.1)
}

/// `x` put into a list ordered by descending rank, behind its equals.
pub open spec fn inserted<T>(s: Seq<T>, x: T, key: spec_fn(T) -> (int, int)) -> Seq<T>
    decreases s.len(),
{
    if s.len() > 0 && above(key(x), key(s.last())) {
        inserted(s.drop_last(), x, key).push(s.last())
    } else {
        s.push(x)
    }
}

/// The items of `s` by descending rank; items of equal rank keep their order.
pub open spec fn ranked<T>(s: Seq<T>, key: spec_fn(T) -> (int, int)) -> Seq<T>
    decreases s.len(),
{
    if s.len() == 0 {
        Seq::empty()
    } else {
        inserted(ranked(s.drop_last(), key), s.last(), key)
    }
}

/// The first `n` items of a list, or all of it.
pub open spec fn cut<T>(s: Seq<T>, n: int) -> Seq<T> {
    if s.len() <= n {
        s
    } else {
        s.take(n)
    }
}

/// Whether no item stands below one that it outranks.
pub open spec fn descending<T>(s: Seq<T>, key: spec_fn(T) -> (int, int)) -> bool {
    forall|i: int, j: int| 0 <= i < j < s.len() ==> !above(key(#[trigger] s[j]), key(#[trigger] s[i]))
}

/// Items that can be ordered by a pair of numbers.
pub trait Ranked: Sized {
    /// The rank of an item.
    spec fn rank(&self) -> (int, int);

    /// Whether the item ranks strictly above `other`.
    fn outranks(&self, other: &Self) -> (r: bool)
        ensures
            r == above(self.rank(), other.rank()),
    ;
}

/// The rank of an item, as a function value.
pub open spec fn rank_key<T: Ranked>() -> spec_fn(T) -> (int, int) {
    |x: T| x.rank()
}

/// Puts `x` into a list ordered by descending rank, behind its equals.
pub fn insert<T: Ranked>(out: &mut Vec<T>, x: T)
    ensures
        final(out)@ == inserted(old(out)@, x, rank_key::<T>()),
{
    let ghost key = rank_key::<T>();
    let mut p: usize = out.len();
    let ghost before = out@;
    proof {
        assert(before.take(p as int) =~= before);
        assert(before.skip(p as int) =~= Seq::<T>::empty());
    }
    while p > 0 && x.outranks(&out[p - 1])
        invariant
            0 <= p <= out@.len(),
            out@ == before,
            key == rank_key::<T>(),
            inserted(before, x, key) =~= inserted(before.take(p as int), x, key) + before.skip(p as int),
        decreases p,
    {
        proof {
            assert(before.take(p as int).drop_last() =~= before.take(p - 1));
            assert(before.take(p as int).last() == before[p - 1]);
            assert(before.skip(p - 1) =~= seq![before[p - 1]] + before.skip(p as int));
        }
        p = p - 1;
    }
    proof {
        if p > 0 {
            assert(before.take(p as int).last() == before[p - 1]);
        }
        assert(inserted(before.take(p as int), x, key) =~= before.take(p as int).push(x));
        assert(before.insert(p as int, x) =~= before.take(p as int).push(x) + before.skip(p as int));
    }
    out.insert(p, x);
}

/// The items of `v` by descending rank; items of equal rank keep their order.
pub fn by_rank<T: Ranked>(v: Vec<T>) -> (r: Vec<T>)
    ensures
        r@ == ranked(v@, rank_key::<T>()),
{
    let mut out: Vec<T> = Vec::new();
    for x in it: v
        invariant
            it.seq() == v@,
            out@ == ranked(v@.take(it.index()), rank_key::<T>()),
    {
        assert(v@.take(it.index() + 1).drop_last() =~= v@.take(it.index()));
        insert(&mut out, x);
    }
    assert(v@.take(v@.len() as int) =~= v@);
    out
}

/// Ordering commutes with a change of representation that keeps ranks.
pub proof fn lemma_ranked_map<T, U>(
    s: Seq<T>,
    f: spec_fn(T) -> U,
    k1: spec_fn(T) -> (int, int),
    k2: spec_fn(U) -> (int, int),
)
    requires
        forall|x: T| #[trigger] k1(x) == k2(f(x)),
    ensures
        ranked(s, k1).map_values(f) == ranked(s.map_values(f), k2),
    decreases s.len(),
{
    if s.len() > 0 {
        lemma_ranked_map(s.drop_last(), f, k1, k2);
        lemma_inserted_map(ranked(s.drop_last(), k1), s.last(), f, k1, k2);
        assert(s.map_values(f).drop_last() =~= s.drop_last().map_values(f));
    } else {
        assert(ranked(s, k1).map_values(f) =~= Seq::<U>::empty());
    }
}

/// An insertion commutes with a change of representation that keeps ranks.
pub proof fn lemma_inserted_map<T, U>(
    s: Seq<T>,
    x: T,
    f: spec_fn(T) -> U,
    k1: spec_fn(T) -> (int, int),
    k2: spec_fn(U) -> (int, int),
)
    requires
        forall|x: T| #[trigger] k1(x) == k2(f(x)),
    ensures
        inserted(s, x, k1).map_values(f) == inserted(s.map_values(f), f(x), k2),
    decreases s.len(),
{
    let m = s.map_values(f);
    if s.len() > 0 {
        assert(m.last() == f(s.last()));
        assert(k1(x) == k2(f(x)) && k1(s.last()) == k2(f(s.last())));
    }
    if s.len() > 0 && above(k1(x), k1(s.last())) {
        lemma_inserted_map(s.drop_last(), x, f, k1, k2);
        assert(m.drop_last() =~= s.drop_last().map_values(f));
        assert(inserted(s, x, k1).map_values(f) =~= inserted(s.drop_last(), x, k1).map_values(f).push(
            f(s.last()),
        ));
    } else {
        assert(inserted(s, x, k1).map_values(f) =~= m.push(f(x)));
    }
}

/// An insertion keeps every item and adds the new one.
pub proof fn lemma_inserted_contents<T>(s: Seq<T>, x: T, key: spec_fn(T) -> (int, int))
    ensures
        inserted(s, x, key).len() == s.len() + 1,
        inserted(s, x, key).to_multiset() == s.to_multiset().insert(x),
    decreases s.len(),
{
    broadcast use vstd::seq_lib::group_to_multiset_ensures;

    if s.len() > 0 && above(key(x), key(s.last())) {
        lemma_inserted_contents(s.drop_last(), x, key);
        assert(s =~= s.drop_last().push(s.last()));
        assert(inserted(s, x, key).to_multiset() =~= s.to_multiset().insert(x));
    }
}

/// Ordering a list keeps its items.
pub proof fn lemma_ranked_contents<T>(s: Seq<T>, key: spec_fn(T) -> (int, int))
    ensures
        ranked(s, key).len() == s.len(),
        ranked(s, key).to_multiset() == s.to_multiset(),
    decreases s.len(),
{
    broadcast use vstd::seq_lib::group_to_multiset_ensures;

    if s.len() > 0 {
        lemma_ranked_contents(s.drop_last(), key);
        lemma_inserted_contents(ranked(s.drop_last(), key), s.last(), key);
        assert(s =~= s.drop_last().push(s.last()));
    } else {
        assert(s =~= Seq::<T>::empty());
    }
}

/// An insertion keeps the order.
pub proof fn lemma_inserted_descending<T>(s: Seq<T>, x: T, key: spec_fn(T) -> (int, int))
    requires
        descending(s, key),
    ensures
        descending(inserted(s, x, key), key),
    decreases s.len(),
{
    let r = inserted(s, x, key);
    if s.len() > 0 && above(key(x), key(s.last())) {
        let t = s.drop_last();
        lemma_inserted_descending(t, x, key);
        let q = inserted(t, x, key);
        lemma_inserted_members(t, x, key);
        assert forall|i: int, j: int| 0 <= i < j < r.len() implies !above(
            key(#[trigger] r[j]),
            key(#[trigger] r[i]),
        ) by {
            if j < q.len() {
                assert(r[i] == q[i] && r[j] == q[j]);
            } else {
                assert(r[j] == s.last());
                assert(r[i] == q[i]);
                assert(q[i] == x || t.contains(q[i]));
                if t.contains(q[i]) {
                    let k = choose|k: int| 0 <= k < t.len() && t[k] == q[i];
                    assert(s[k] == q[i] && s[s.len() - 1] == s.last());
                }
            }
        }
    } else {
        assert forall|i: int, j: int| 0 <= i < j < r.len() implies !above(
            key(#[trigger] r[j]),
            key(#[trigger] r[i]),
        ) by {
            if j == s.len() {
                assert(r[j] == x);
                assert(r[i] == s[i]);
                if i < s.len() - 1 {
                    assert(!above(key(s[s.len() - 1]), key(s[i])));
                }
            } else {
                assert(r[i] == s[i] && r[j] == s[j]);
            }
        }
    }
}

/// The items after an insertion are the new one and the old ones.
pub proof fn lemma_inserted_members<T>(s: Seq<T>, x: T, key: spec_fn(T) -> (int, int))
    ensures
        inserted(s, x, key).contains(x),
        forall|i: int| 0 <= i < inserted(s, x, key).len() ==> (#[trigger] inserted(s, x, key)[i] == x || s.contains(
            inserted(s, x, key)[i],
        )),
        forall|y: T| #[trigger] s.contains(y) ==> inserted(s, x, key).contains(y),
    decreases s.len(),
{
    let r = inserted(s, x, key);
    if s.len() > 0 && above(key(x), key(s.last())) {
        let t = s.drop_last();
        let q = inserted(t, x, key);
        lemma_inserted_members(t, x, key);
        let k = choose|k: int| 0 <= k < q.len() && q[k] == x;
        assert(r[k] == x);
        assert forall|i: int| 0 <= i < r.len() implies (#[trigger] r[i] == x || s.contains(r[i])) by {
            if i < q.len() {
                assert(r[i] == q[i]);
                if q[i] != x {
                    let m = choose|m: int| 0 <= m < t.len() && t[m] == q[i];
                    assert(s[m] == q[i]);
                }
            } else {
                assert(s[s.len() - 1] == r[i]);
            }
        }
        assert forall|y: T| #[trigger] s.contains(y) implies r.contains(y) by {
            let m = choose|m: int| 0 <= m < s.len() && s[m] == y;
            if m < t.len() {
                assert(t[m] == y);
                assert(t.contains(y));
                assert(q.contains(y));
                let n = choose|n: int| 0 <= n < q.len() && q[n] == y;
                assert(r[n] == y);
            } else {
                assert(r[r.len() - 1] == y);
            }
        }
    } else {
        assert(r[s.len() as int] == x);
        assert forall|i: int| 0 <= i < r.len() implies (#[trigger] r[i] == x || s.contains(r[i])) by {
            if i < s.len() {
                assert(r[i] == s[i]);
            }
        }
        assert forall|y: T| #[trigger] s.contains(y) implies r.contains(y) by {
            let m = choose|m: int| 0 <= m < s.len() && s[m] == y;
            assert(r[m] == y);
        }
    }
}

/// An ordered list has the same items as the list it was made from.
pub proof fn lemma_ranked_members<T>(s: Seq<T>, key: spec_fn(T) -> (int, int))
    ensures
        ranked(s, key).len() == s.len(),
        forall|i: int| 0 <= i < ranked(s, key).len() ==> s.contains(#[trigger] ranked(s, key)[i]),
        forall|y: T| #[trigger] s.contains(y) ==> ranked(s, key).contains(y),
    decreases s.len(),
{
    if s.len() > 0 {
        let t = s.drop_last();
        let q = ranked(t, key);
        let r = ranked(s, key);
        lemma_ranked_members(t, key);
        lemma_inserted_members(q, s.last(), key);
        lemma_inserted_contents(q, s.last(), key);
        assert forall|i: int| 0 <= i < r.len() implies s.contains(#[trigger] r[i]) by {
            assert(s[s.len() - 1] == s.last());
            if r[i] != s.last() {
                let k = choose|k: int| 0 <= k < q.len() && q[k] == r[i];
                let m = choose|m: int| 0 <= m < t.len() && t[m] == q[k];
                assert(s[m] == r[i]);
            }
        }
        assert forall|y: T| #[trigger] s.contains(y) implies r.contains(y) by {
            let m = choose|m: int| 0 <= m < s.len() && s[m] == y;
            if m < t.len() {
                assert(t[m] == y);
                assert(t.contains(y));
                assert(q.contains(y));
            }
        }
    }
}

/// An ordered list descends.
pub proof fn lemma_ranked_descending<T>(s: Seq<T>, key: spec_fn(T) -> (int, int))
    ensures
        descending(ranked(s, key), key),
    decreases s.len(),
{
    if s.len() > 0 {
        lemma_ranked_descending(s.drop_last(), key);
        lemma_inserted_descending(ranked(s.drop_last(), key), s.last(), key);
    }
}

/// The head of a list after an insertion: the new item if it outranks the old
/// head.
pub proof fn lemma_inserted_head<T>(s: Seq<T>, x: T, key: spec_fn(T) -> (int, int))
    requires
        s.len() > 0,
        descending(s, key),
    ensures
        inserted(s, x, key).len() > 0,
        inserted(s, x, key)[0] == if above(key(x), key(s[0])) {
            x
        } else {
            s[0]
        },
    decreases s.len(),
{
    assert(s[s.len() - 1] == s.last());
    if above(key(x), key(s.last())) {
        let t = s.drop_last();
        if t.len() > 0 {
            assert forall|i: int, j: int| 0 <= i < j < t.len() implies !above(
                key(#[trigger] t[j]),
                key(#[trigger] t[i]),
            ) by {
                assert(t[i] == s[i] && t[j] == s[j]);
            }
            lemma_inserted_head(t, x, key);
            assert(t[0] == s[0]);
        } else {
            assert(inserted(t, x, key) == t.push(x));
        }
    } else if s.len() > 1 {
        assert(!above(key(s[s.len() - 1]), key(s[0])));
    }
}

/// The first `n` items after an insertion depend on the first `n` items alone.
pub proof fn lemma_inserted_cut<T>(s: Seq<T>, x: T, key: spec_fn(T) -> (int, int), n: int)
    requires
        0 < n,
        descending(s, key),
    ensures
        cut(inserted(cut(s, n), x, key), n) == cut(inserted(s, x, key), n),
    decreases s.len(),
{
    if s.len() > n {
        let t = s.drop_last();
        assert forall|i: int, j: int| 0 <= i < j < t.len() implies !above(
            key(#[trigger] t[j]),
            key(#[trigger] t[i]),
        ) by {
            assert(t[i] == s[i] && t[j] == s[j]);
        }
        assert(cut(t, n) =~= cut(s, n));
        assert(s[s.len() - 1] == s.last());
        if above(key(x), key(s.last())) {
            lemma_inserted_cut(t, x, key, n);
            lemma_inserted_contents(t, x, key);
            assert(cut(inserted(s, x, key), n) =~= cut(inserted(t, x, key), n));
        } else {
            let c = s.take(n);
            assert(c.last() == s[n - 1]);
            assert(!above(key(s[s.len() - 1]), key(s[n - 1])));
            assert(inserted(c, x, key) == c.push(x));
            assert(cut(c.push(x), n) =~= c);
            assert(cut(s.push(x), n) =~= c);
        }
    }
}

/// A list that descends already is left as it is.
pub proof fn lemma_ranked_fixed<T>(s: Seq<T>, key: spec_fn(T) -> (int, int))
    requires
        descending(s, key),
    ensures
        ranked(s, key) == s,
    decreases s.len(),
{
    if s.len() > 0 {
        let t = s.drop_last();
        assert forall|i: int, j: int| 0 <= i < j < t.len() implies !above(
            key(#[trigger] t[j]),
            key(#[trigger] t[i]),
        ) by {
            assert(t[i] == s[i] && t[j] == s[j]);
        }
        lemma_ranked_fixed(t, key);
        if t.len() > 0 {
            assert(!above(key(s[s.len() - 1]), key(s[s.len() - 2])));
            assert(t.last() == s[s.len() - 2]);
        }
        assert(t.push(s.last()) =~= s);
    } else {
        assert(s =~= Seq::<T>::empty());
    }
}

/// The items with a given rank, in order.
pub open spec fn of_rank<T>(s: Seq<T>, key: spec_fn(T) -> (int, int), q: (int, int)) -> Seq<T>
    decreases s.len(),
{
    if s.len() == 0 {
        Seq::empty()
    } else if key(s.last()) == q {
        of_rank(s.drop_last(), key, q).push(s.last())
    } else {
        of_rank(s.drop_last(), key, q)
    }
}

proof fn lemma_of_rank_inserted<T>(s: Seq<T>, x: T, key: spec_fn(T) -> (int, int), q: (int, int))
    ensures
        of_rank(inserted(s, x, key), key, q) == if key(x) == q {
            of_rank(s, key, q).push(x)
        } else {
            of_rank(s, key, q)
        },
    decreases s.len(),
{
    if s.len() > 0 && above(key(x), key(s.last())) {
        lemma_of_rank_inserted(s.drop_last(), x, key, q);
        let h = inserted(s.drop_last(), x, key);
        assert(h.push(s.last()).drop_last() =~= h);
    } else {
        assert(s.push(x).drop_last() =~= s);
    }
}

/// Ordering by rank keeps every item, puts higher first numbers first and among
/// these higher second ones, and leaves items of one rank in their order.
pub proof fn law_ranked<T>(s: Seq<T>, key: spec_fn(T) -> (int, int), q: (int, int))
    ensures
        ranked(s, key).to_multiset() == s.to_multiset(),
        forall|i: int, j: int|
            0 <= i < j < ranked(s, key).len() ==> key(#[trigger] ranked(s, key)[i]).0 >= key(
                #[trigger] ranked(s, key)[j],
            ).0 && (key(ranked(s, key)[i]).0 == key(ranked(s, key)[j]).0 ==> key(ranked(s, key)[i]).1 >= key(
                ranked(s, key)[j],
            ).1),
        of_rank(ranked(s, key), key, q) == of_rank(s, key, q),
    decreases s.len(),
{
    lemma_ranked_contents(s, key);
    lemma_ranked_descending(s, key);
    let r = ranked(s, key);
    assert forall|i: int, j: int| 0 <= i < j < r.len() implies key(#[trigger] r[i]).0 >= key(#[trigger] r[j]).0 && (key(
        r[i],
    ).0 == key(r[j]).0 ==> key(r[i]).1 >= key(r[j]).1) by {
        assert(!above(key(r[j]), key(r[i])));
    }
    if s.len() > 0 {
        law_ranked(s.drop_last(), key, q);
        lemma_of_rank_inserted(ranked(s.drop_last(), key), s.last(), key, q);
    }
}

} // verus!
