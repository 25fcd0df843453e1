//! Counted words: lists of words with counts, tables of such lists by key, the
//! records that a table consists of, and pruning to the highest counts.

use vstd::hash_map::StringHashMap;
use vstd::prelude::*;

use crate::rank;
use crate::rank::Ranked;
use crate::text;

verus! {

// ---------------------------------------------------------------------------
// Lists of counted words
// ---------------------------------------------------------------------------

impl Ranked for (String, u32) {
    open spec fn rank(&self) -> (int, int) {
        (self.1 as int, 0)
    }

    fn outranks(&self, other: &Self) -> (r: bool) {
        self.1 > other.1
    }
}

/// The model of a list of counted words.
pub open spec fn picks(v: Seq<(String, u32)>) -> Seq<(Seq<char>, int)> {
    v.map_values(|p: (String, u32)| (p.0@, p.1 as int))
}

/// Counted words are ordered by their counts.
pub open spec fn count_key() -> spec_fn((Seq<char>, int)) -> (int, int) {
    |p: (Seq<char>, int)| (p.1, 0int)
}

/// The place of a word in a list at or after `i`; the length if it is not there.
pub open spec fn place(l: Seq<(Seq<char>, int)>, w: Seq<char>, i: int) -> int
    decreases l.len() - i,
{
    if i >= l.len() {
        l.len() as int
    } else if l[i].0 == w {
        i
    } else {
        place(l, w, i + 1)
    }
}

/// The list with `by` added to the count of a word, which is appended if it is
/// new.
pub open spec fn added(l: Seq<(Seq<char>, int)>, w: Seq<char>, by: int) -> Seq<(Seq<char>, int)> {
    let p = place(l, w, 0);
    if p < l.len() {
        l.update(p, (w, l[p].1 + by))
    } else {
        l.push((w, by))
    }
}

/// The list with `by` added to the count of a word, highest counts first.
pub open spec fn bumped(l: Seq<(Seq<char>, int)>, w: Seq<char>, by: int) -> Seq<(Seq<char>, int)> {
    rank::ranked(added(l, w, by), count_key())
}

/// The sum of the counts of a word in a list.
pub open spec fn count_in(l: Seq<(Seq<char>, int)>, w: Seq<char>) -> int
    decreases l.len(),
{
    if l.len() == 0 {
        0
    } else {
        count_in(l.drop_last(), w) + if l.last().0 == w {
            l.last().1
        } else {
            0
        }
    }
}

/// Whether a word is in a list.
pub open spec fn in_list(l: Seq<(Seq<char>, int)>, w: Seq<char>) -> bool {
    exists|i: int| 0 <= i < l.len() && (#[trigger] l[i]).0 == w
}

/// Whether a text can stand in a field of a record: not empty, and free of
/// tabs and line ends.
pub open spec fn is_clean(s: Seq<char>) -> bool {
    s.len() > 0 && !s.contains('\t') && !s.contains('\n') && !s.contains('\r')
}

/// The shape of the list of a key: not empty, each word once and clean, counts
/// that fit, highest first.
pub open spec fn list_ok(l: Seq<(Seq<char>, int)>) -> bool {
    &&& l.len() > 0
    &&& forall|i: int, j: int| 0 <= i < j < l.len() ==> (#[trigger] l[i]).0 != (#[trigger] l[j]).0
    &&& rank::descending(l, count_key())
    &&& forall|i: int| 0 <= i < l.len() ==> is_clean((#[trigger] l[i]).0) && 0 <= l[i].1 <= u32::MAX
}

proof fn lemma_place(l: Seq<(Seq<char>, int)>, w: Seq<char>, i: int)
    requires
        0 <= i <= l.len(),
    ensures
        i <= place(l, w, i) <= l.len(),
        place(l, w, i) < l.len() ==> l[place(l, w, i)].0 == w,
        forall|j: int| i <= j < place(l, w, i) ==> (#[trigger] l[j]).0 != w,
    decreases l.len() - i,
{
    if i < l.len() && l[i].0 != w {
        lemma_place(l, w, i + 1);
    }
}

proof fn lemma_count_in_absent(l: Seq<(Seq<char>, int)>, w: Seq<char>)
    requires
        forall|j: int| 0 <= j < l.len() ==> (#[trigger] l[j]).0 != w,
    ensures
        count_in(l, w) == 0,
    decreases l.len(),
{
    if l.len() > 0 {
        let t = l.drop_last();
        assert forall|j: int| 0 <= j < t.len() implies (#[trigger] t[j]).0 != w by {
            assert(t[j] == l[j]);
        }
        lemma_count_in_absent(t, w);
        assert(l[l.len() - 1] == l.last());
    }
}

proof fn lemma_count_in_update(l: Seq<(Seq<char>, int)>, p: int, w: Seq<char>, by: int, v: Seq<char>)
    requires
        0 <= p < l.len(),
        l[p].0 == w,
    ensures
        count_in(l.update(p, (w, l[p].1 + by)), v) == count_in(l, v) + if v == w {
            by
        } else {
            0
        },
    decreases l.len(),
{
    let u = l.update(p, (w, l[p].1 + by));
    if p == l.len() - 1 {
        assert(u.drop_last() =~= l.drop_last());
    } else {
        lemma_count_in_update(l.drop_last(), p, w, by, v);
        assert(u.drop_last() =~= l.drop_last().update(p, (w, l[p].1 + by)));
    }
}

proof fn lemma_count_in_inserted(l: Seq<(Seq<char>, int)>, x: (Seq<char>, int), v: Seq<char>)
    ensures
        count_in(rank::inserted(l, x, count_key()), v) == count_in(l, v) + if x.0 == v {
            x.1
        } else {
            0
        },
    decreases l.len(),
{
    let r = rank::inserted(l, x, count_key());
    if l.len() > 0 && rank::above(count_key()(x), count_key()(l.last())) {
        lemma_count_in_inserted(l.drop_last(), x, v);
        assert(r.drop_last() =~= rank::inserted(l.drop_last(), x, count_key()));
    } else {
        assert(r.drop_last() =~= l);
    }
}

proof fn lemma_count_in_ranked(l: Seq<(Seq<char>, int)>, v: Seq<char>)
    ensures
        count_in(rank::ranked(l, count_key()), v) == count_in(l, v),
    decreases l.len(),
{
    if l.len() > 0 {
        lemma_count_in_ranked(l.drop_last(), v);
        lemma_count_in_inserted(rank::ranked(l.drop_last(), count_key()), l.last(), v);
    }
}

/// A bump adds to the count of its word and to no other.
pub proof fn lemma_count_in_bumped(l: Seq<(Seq<char>, int)>, w: Seq<char>, by: int, v: Seq<char>)
    ensures
        count_in(bumped(l, w, by), v) == count_in(l, v) + if v == w {
            by
        } else {
            0
        },
{
    let p = place(l, w, 0);
    lemma_place(l, w, 0);
    lemma_count_in_ranked(added(l, w, by), v);
    if p < l.len() {
        lemma_count_in_update(l, p, w, by, v);
    } else {
        assert(l.push((w, by)).drop_last() =~= l);
    }
}

proof fn lemma_count_in_nonneg(l: Seq<(Seq<char>, int)>, w: Seq<char>)
    requires
        forall|j: int| 0 <= j < l.len() ==> 0 <= (#[trigger] l[j]).1,
    ensures
        0 <= count_in(l, w),
    decreases l.len(),
{
    if l.len() > 0 {
        let t = l.drop_last();
        assert forall|j: int| 0 <= j < t.len() implies 0 <= (#[trigger] t[j]).1 by {
            assert(t[j] == l[j]);
        }
        lemma_count_in_nonneg(t, w);
        assert(l[l.len() - 1] == l.last());
    }
}

/// In a list that holds each word once, the sum of a word's counts is its count.
proof fn lemma_count_in_at(l: Seq<(Seq<char>, int)>, i: int)
    requires
        0 <= i < l.len(),
        forall|i: int, j: int| 0 <= i < j < l.len() ==> (#[trigger] l[i]).0 != (#[trigger] l[j]).0,
    ensures
        count_in(l, l[i].0) == l[i].1,
    decreases l.len(),
{
    let t = l.drop_last();
    assert forall|a: int, b: int| 0 <= a < b < t.len() implies (#[trigger] t[a]).0 != (#[trigger] t[b]).0 by {
        assert(t[a] == l[a] && t[b] == l[b]);
    }
    assert(l[l.len() - 1] == l.last());
    if i < t.len() {
        lemma_count_in_at(t, i);
        assert(t[i] == l[i]);
        assert(l[i].0 != l[l.len() - 1].0);
    } else {
        assert forall|j: int| 0 <= j < t.len() implies (#[trigger] t[j]).0 != l[i].0 by {
            assert(t[j] == l[j]);
        }
        lemma_count_in_absent(t, l[i].0);
    }
}

/// A bump keeps the shape of a list; the list of a new key has that shape too.
pub proof fn lemma_bumped_ok(l: Seq<(Seq<char>, int)>, w: Seq<char>, by: int)
    requires
        l.len() == 0 || list_ok(l),
        is_clean(w),
        0 <= by,
        count_in(l, w) + by <= u32::MAX,
    ensures
        list_ok(bumped(l, w, by)),
{
    let p = place(l, w, 0);
    let a = added(l, w, by);
    let r = bumped(l, w, by);
    lemma_place(l, w, 0);
    rank::lemma_ranked_descending(a, count_key());
    rank::lemma_ranked_members(a, count_key());
    if p < l.len() {
        lemma_count_in_at(l, p);
    } else {
        lemma_count_in_absent(l, w);
    }
    assert forall|i: int, j: int| 0 <= i < j < a.len() implies (#[trigger] a[i]).0 != (#[trigger] a[j]).0 by {
        if p < l.len() {
            assert(a[i].0 == l[i].0 && a[j].0 == l[j].0);
        } else {
            assert(a[i] == l[i]);
            if j < l.len() {
                assert(a[j] == l[j]);
            }
        }
    }
    assert forall|i: int| 0 <= i < a.len() implies is_clean((#[trigger] a[i]).0) && 0 <= a[i].1 <= u32::MAX by {
        if i < l.len() {
            assert(is_clean(l[i].0));
        }
    }
    assert forall|i: int| 0 <= i < r.len() implies is_clean((#[trigger] r[i]).0) && 0 <= r[i].1 <= u32::MAX by {
        assert(a.contains(r[i]));
        let k = choose|k: int| 0 <= k < a.len() && a[k] == r[i];
        assert(is_clean(a[k].0));
    }
    lemma_ranked_distinct(a);
}

proof fn lemma_inserted_distinct(l: Seq<(Seq<char>, int)>, x: (Seq<char>, int))
    requires
        forall|i: int, j: int| 0 <= i < j < l.len() ==> (#[trigger] l[i]).0 != (#[trigger] l[j]).0,
        forall|i: int| 0 <= i < l.len() ==> (#[trigger] l[i]).0 != x.0,
    ensures
        ({
            let r = rank::inserted(l, x, count_key());
            forall|i: int, j: int| 0 <= i < j < r.len() ==> (#[trigger] r[i]).0 != (#[trigger] r[j]).0
        }),
    decreases l.len(),
{
    let r = rank::inserted(l, x, count_key());
    if l.len() > 0 && rank::above(count_key()(x), count_key()(l.last())) {
        let t = l.drop_last();
        let q = rank::inserted(t, x, count_key());
        assert forall|i: int, j: int| 0 <= i < j < t.len() implies (#[trigger] t[i]).0 != (#[trigger] t[j]).0 by {
            assert(t[i] == l[i] && t[j] == l[j]);
        }
        assert forall|i: int| 0 <= i < t.len() implies (#[trigger] t[i]).0 != x.0 by {
            assert(t[i] == l[i]);
        }
        lemma_inserted_distinct(t, x);
        rank::lemma_inserted_members(t, x, count_key());
        assert forall|i: int, j: int| 0 <= i < j < r.len() implies (#[trigger] r[i]).0 != (#[trigger] r[j]).0 by {
            assert(r[i] == q[i]);
            if j < q.len() {
                assert(r[j] == q[j]);
            } else {
                assert(r[j] == l[l.len() - 1]);
                if q[i] != x {
                    assert(t.contains(q[i]));
                    let k = choose|k: int| 0 <= k < t.len() && t[k] == q[i];
                    assert(l[k] == q[i]);
                }
            }
        }
    } else {
        assert forall|i: int, j: int| 0 <= i < j < r.len() implies (#[trigger] r[i]).0 != (#[trigger] r[j]).0 by {
            assert(r[i] == l[i]);
            if j < l.len() {
                assert(r[j] == l[j]);
            }
        }
    }
}

proof fn lemma_ranked_distinct(l: Seq<(Seq<char>, int)>)
    requires
        forall|i: int, j: int| 0 <= i < j < l.len() ==> (#[trigger] l[i]).0 != (#[trigger] l[j]).0,
    ensures
        ({
            let r = rank::ranked(l, count_key());
            forall|i: int, j: int| 0 <= i < j < r.len() ==> (#[trigger] r[i]).0 != (#[trigger] r[j]).0
        }),
    decreases l.len(),
{
    if l.len() > 0 {
        let t = l.drop_last();
        let q = rank::ranked(t, count_key());
        assert forall|i: int, j: int| 0 <= i < j < t.len() implies (#[trigger] t[i]).0 != (#[trigger] t[j]).0 by {
            assert(t[i] == l[i] && t[j] == l[j]);
        }
        lemma_ranked_distinct(t);
        rank::lemma_ranked_members(t, count_key());
        assert forall|i: int| 0 <= i < q.len() implies (#[trigger] q[i]).0 != l.last().0 by {
            assert(t.contains(q[i]));
            let k = choose|k: int| 0 <= k < t.len() && t[k] == q[i];
            assert(l[k] == q[i]);
            assert(l[k].0 != l[l.len() - 1].0);
        }
        lemma_inserted_distinct(q, l.last());
    }
}

/// The counts of a list in shape: each word has its own, and other words none.
pub proof fn lemma_counts_of_list(l: Seq<(Seq<char>, int)>)
    requires
        list_ok(l),
    ensures
        forall|i: int| 0 <= i < l.len() ==> count_in(l, (#[trigger] l[i]).0) == l[i].1,
        forall|w: Seq<char>| #[trigger] count_in(l, w) != 0 ==> exists|i: int| 0 <= i < l.len() && (#[trigger] l[i]).0 == w,
{
    assert forall|i: int| 0 <= i < l.len() implies count_in(l, (#[trigger] l[i]).0) == l[i].1 by {
        lemma_count_in_at(l, i);
    }
    assert forall|w: Seq<char>| #[trigger] count_in(l, w) != 0 implies exists|i: int|
        0 <= i < l.len() && (#[trigger] l[i]).0 == w by {
        if !exists|i: int| 0 <= i < l.len() && (#[trigger] l[i]).0 == w {
            lemma_count_in_absent(l, w);
        }
    }
}

/// Adds `by` to the count of `word`, which is appended if it is new, and orders
/// the list by count.
pub fn bump(list: &mut Vec<(String, u32)>, word: &str, by: u32)
    requires
        ({
            let l = picks(old(list)@);
            let p = place(l, word@, 0);
            p < l.len() ==> l[p].1 + by <= u32::MAX
        }),
    ensures
        picks(final(list)@) == bumped(picks(old(list)@), word@, by as int),
{
    let ghost l = picks(list@);
    let mut l0: Vec<(String, u32)> = Vec::new();
    std::mem::swap(&mut l0, list);
    let mut i: usize = 0;
    while i < l0.len() && !text::same(l0[i].0.as_str(), word)
        invariant
            0 <= i <= l0@.len(),
            l == picks(l0@),
            place(l, word@, 0) < l.len() ==> l[place(l, word@, 0)].1 + by <= u32::MAX,
            place(l, word@, 0) == place(l, word@, i as int),
        decreases l0@.len() - i,
    {
        assert(l[i as int].0 == l0@[i as int].0@);
        i = i + 1;
    }
    if i < l0.len() {
        assert(l[i as int].0 == l0@[i as int].0@);
        let ghost before = l0@;
        let (w, c) = l0.remove(i);
        l0.insert(i, (w, c + by));
        assert(picks(l0@) =~= added(l, word@, by as int));
    } else {
        l0.push((text::copy_of(word), by));
        assert(picks(l0@) =~= added(l, word@, by as int));
    }
    let ghost a = l0@;
    let r = rank::by_rank(l0);
    proof {
        let f = |p: (String, u32)| (p.0@, p.1 as int);
        rank::lemma_ranked_map(a, f, rank::rank_key::<(String, u32)>(), count_key());
        assert(a.map_values(f) =~= picks(a));
        assert(r@.map_values(f) =~= picks(r@));
    }
    *list = r;
}

// ---------------------------------------------------------------------------
// Tables: keys with their lists
// ---------------------------------------------------------------------------

/// The model of a table: its keys in the order in which they came, and the list
/// of each.
#[verifier::ext_equal]
pub struct TableV {
    pub order: Seq<Seq<char>>,
    pub lists: Map<Seq<char>, Seq<(Seq<char>, int)>>,
}

/// One record: key, word, count.
pub struct RowV {
    pub key: Seq<char>,
    pub word: Seq<char>,
    pub count: int,
}

impl TableV {
    /// The table without keys.
    pub open spec fn empty() -> TableV {
        TableV { order: Seq::empty(), lists: Map::empty() }
    }

    /// The list of a key; empty if the key is not there.
    pub open spec fn list(self, k: Seq<char>) -> Seq<(Seq<char>, int)> {
        if self.lists.contains_key(k) {
            self.lists[k]
        } else {
            Seq::empty()
        }
    }

    /// The table with `by` added to the count of a word under a key.
    pub open spec fn bumped(self, k: Seq<char>, w: Seq<char>, by: int) -> TableV {
        TableV {
            order: if self.lists.contains_key(k) {
                self.order
            } else {
                self.order.push(k)
            },
            lists: self.lists.insert(k, bumped(self.list(k), w, by)),
        }
    }

    /// The count of a word under a key.
    pub open spec fn count(self, k: Seq<char>, w: Seq<char>) -> int {
        count_in(self.list(k), w)
    }

    /// Whether a word is in a list of the table.
    pub open spec fn holds(self, w: Seq<char>) -> bool {
        exists|k: Seq<char>| #[trigger] self.lists.contains_key(k) && in_list(self.lists[k], w)
    }

    /// The sum of the counts of a word under the first `n` keys.
    pub open spec fn total_upto(self, n: int, w: Seq<char>) -> int
        decreases n,
    {
        if n <= 0 {
            0
        } else {
            self.total_upto(n - 1, w) + self.count(self.order[n - 1], w)
        }
    }

    /// The sum of the counts of a word under all keys.
    pub open spec fn total(self, w: Seq<char>) -> int {
        self.total_upto(self.order.len() as int, w)
    }

    /// Each key is there once, is clean, and has a list of the right shape.
    pub open spec fn wf(self) -> bool {
        &&& self.order.no_duplicates()
        &&& forall|k: Seq<char>| #[trigger] self.order.contains(k) <==> self.lists.contains_key(k)
        &&& forall|k: Seq<char>| #[trigger] self.lists.contains_key(k) ==> is_clean(k) && list_ok(self.lists[k])
    }

    /// The table made from records, one after the other.
    pub open spec fn build(rows: Seq<RowV>) -> TableV
        decreases rows.len(),
    {
        if rows.len() == 0 {
            TableV::empty()
        } else {
            TableV::build(rows.drop_last()).bumped(rows.last().key, rows.last().word, rows.last().count)
        }
    }

    /// The records of the first `n` keys: key by key, word by word.
    pub open spec fn rows_upto(self, n: int) -> Seq<RowV>
        decreases n,
    {
        if n <= 0 {
            Seq::empty()
        } else {
            self.rows_upto(n - 1) + key_rows(self.order[n - 1], self.list(self.order[n - 1]))
        }
    }

    /// The records of the table.
    pub open spec fn rows(self) -> Seq<RowV> {
        self.rows_upto(self.order.len() as int)
    }
}

/// The records of one key.
pub open spec fn key_rows(k: Seq<char>, l: Seq<(Seq<char>, int)>) -> Seq<RowV> {
    Seq::new(l.len(), |i: int| RowV { key: k, word: l[i].0, count: l[i].1 })
}

/// The sum of the counts of the records with a given key and word.
pub open spec fn rows_count(rows: Seq<RowV>, k: Seq<char>, w: Seq<char>) -> int
    decreases rows.len(),
{
    if rows.len() == 0 {
        0
    } else {
        rows_count(rows.drop_last(), k, w) + if rows.last().key == k && rows.last().word == w {
            rows.last().count
        } else {
            0
        }
    }
}

/// The sum of the counts of the records with a given word.
pub open spec fn rows_total(rows: Seq<RowV>, w: Seq<char>) -> int
    decreases rows.len(),
{
    if rows.len() == 0 {
        0
    } else {
        rows_total(rows.drop_last(), w) + if rows.last().word == w {
            rows.last().count
        } else {
            0
        }
    }
}

/// Whether a word is in one of the records.
pub open spec fn rows_hold(rows: Seq<RowV>, w: Seq<char>) -> bool {
    exists|i: int| 0 <= i < rows.len() && (#[trigger] rows[i]).word == w
}

/// Records whose key and word are clean and whose count fits.
pub open spec fn rows_ok(rows: Seq<RowV>) -> bool {
    forall|i: int|
        0 <= i < rows.len() ==> is_clean((#[trigger] rows[i]).key) && is_clean(rows[i].word) && 0 <= rows[i].count
            <= u32::MAX
}

proof fn lemma_key_position(t: TableV, k: Seq<char>) -> (i: int)
    requires
        t.wf(),
        t.lists.contains_key(k),
    ensures
        0 <= i < t.order.len(),
        t.order[i] == k,
{
    assert(t.order.contains(k));
    choose|i: int| 0 <= i < t.order.len() && t.order[i] == k
}

/// A bump keeps the shape of a table.
pub proof fn lemma_table_bumped_wf(t: TableV, k: Seq<char>, w: Seq<char>, by: int)
    requires
        t.wf(),
        is_clean(k),
        is_clean(w),
        0 <= by,
        t.count(k, w) + by <= u32::MAX,
    ensures
        t.bumped(k, w, by).wf(),
{
    let r = t.bumped(k, w, by);
    lemma_bumped_ok(t.list(k), w, by);
    if !t.lists.contains_key(k) {
        assert(!t.order.contains(k));
        assert(r.order.no_duplicates()) by {
            assert forall|i: int, j: int| 0 <= i < r.order.len() && 0 <= j < r.order.len() && i != j implies r.order[i]
                != r.order[j] by {
                if i < t.order.len() {
                    assert(t.order.contains(t.order[i]));
                }
                if j < t.order.len() {
                    assert(t.order.contains(t.order[j]));
                }
            }
        }
    }
    assert forall|q: Seq<char>| #[trigger] r.order.contains(q) <==> r.lists.contains_key(q) by {
        if t.lists.contains_key(k) {
            assert(t.order.contains(q) <==> t.lists.contains_key(q));
        } else {
            if r.order.contains(q) {
                let i = choose|i: int| 0 <= i < r.order.len() && r.order[i] == q;
                if i < t.order.len() {
                    assert(t.order[i] == q);
                    assert(t.order.contains(q));
                }
            }
            if r.lists.contains_key(q) {
                if q == k {
                    assert(r.order[t.order.len() as int] == q);
                } else {
                    let i = lemma_key_position(t, q);
                    assert(r.order[i] == q);
                }
            }
        }
    }
}

/// A bump adds to the count of its word under its key and to no other.
pub proof fn lemma_table_bumped_count(t: TableV, k: Seq<char>, w: Seq<char>, by: int, q: Seq<char>, v: Seq<char>)
    ensures
        t.bumped(k, w, by).count(q, v) == t.count(q, v) + if q == k && v == w {
            by
        } else {
            0
        },
{
    lemma_count_in_bumped(t.list(k), w, by, v);
}

/// A word that no other word under the key outdid leads the list after one more
/// pick.
pub proof fn law_next_pick_takes_the_lead(t: TableV, k: Seq<char>, w: Seq<char>)
    requires
        t.wf(),
        is_clean(k),
        is_clean(w),
        t.count(k, w) < u32::MAX,
        forall|v: Seq<char>| #[trigger] t.count(k, v) <= t.count(k, w),
    ensures
        t.bumped(k, w, 1).list(k).len() > 0,
        t.bumped(k, w, 1).list(k)[0].0 == w,
{
    let r = t.bumped(k, w, 1);
    lemma_table_bumped_wf(t, k, w, 1);
    lemma_table_bumped_count(t, k, w, 1, k, w);
    lemma_count_in_nonneg(t.list(k), w);
    let l = r.list(k);
    if !exists|i: int| 0 <= i < l.len() && (#[trigger] l[i]).0 == w {
        lemma_count_in_absent(l, w);
    }
    let i = choose|i: int| 0 <= i < l.len() && (#[trigger] l[i]).0 == w;
    assert(r.lists.contains_key(k));
    lemma_count_in_at(l, 0);
    lemma_count_in_at(l, i);
    lemma_table_bumped_count(t, k, w, 1, k, l[0].0);
    if l[0].0 != w {
        assert(!rank::above(count_key()(l[i]), count_key()(l[0])));
        assert(t.count(k, l[0].0) <= t.count(k, w));
    }
}

proof fn lemma_total_upto_same(t: TableV, r: TableV, n: int, w: Seq<char>)
    requires
        0 <= n <= t.order.len(),
        n <= r.order.len(),
        forall|i: int| 0 <= i < n ==> r.order[i] == #[trigger] t.order[i],
        forall|i: int| 0 <= i < n ==> r.count(t.order[i], w) == t.count(#[trigger] t.order[i], w),
    ensures
        r.total_upto(n, w) == t.total_upto(n, w),
    decreases n,
{
    if n > 0 {
        lemma_total_upto_same(t, r, n - 1, w);
        assert(r.order[n - 1] == t.order[n - 1]);
    }
}

proof fn lemma_total_upto_one(t: TableV, r: TableV, n: int, p: int, w: Seq<char>, by: int)
    requires
        0 <= p < n <= t.order.len(),
        r.order == t.order,
        forall|i: int| 0 <= i < n && i != p ==> r.count(t.order[i], w) == t.count(#[trigger] t.order[i], w),
        r.count(t.order[p], w) == t.count(t.order[p], w) + by,
    ensures
        r.total_upto(n, w) == t.total_upto(n, w) + by,
    decreases n,
{
    if p == n - 1 {
        lemma_total_upto_same(t, r, n - 1, w);
    } else {
        lemma_total_upto_one(t, r, n - 1, p, w, by);
        assert(r.count(t.order[n - 1], w) == t.count(t.order[n - 1], w));
    }
}

/// A bump adds to the total of its word and to no other.
pub proof fn lemma_table_bumped_total(t: TableV, k: Seq<char>, w: Seq<char>, by: int, v: Seq<char>)
    requires
        t.wf(),
    ensures
        t.bumped(k, w, by).total(v) == t.total(v) + if v == w {
            by
        } else {
            0
        },
{
    let r = t.bumped(k, w, by);
    assert forall|q: Seq<char>| #[trigger] r.count(q, v) == t.count(q, v) + if q == k && v == w {
        by
    } else {
        0
    } by {
        lemma_table_bumped_count(t, k, w, by, q, v);
    }
    if t.lists.contains_key(k) {
        let p = lemma_key_position(t, k);
        let add = if v == w {
            by
        } else {
            0
        };
        assert forall|i: int| 0 <= i < t.order.len() && i != p implies r.count(t.order[i], v) == t.count(
            #[trigger] t.order[i],
            v,
        ) by {
            assert(t.order[i] != t.order[p]);
        }
        lemma_total_upto_one(t, r, t.order.len() as int, p, v, add);
    } else {
        assert forall|i: int| 0 <= i < t.order.len() implies r.count(t.order[i], v) == t.count(
            #[trigger] t.order[i],
            v,
        ) by {
            assert(t.order.contains(t.order[i]));
        }
        lemma_total_upto_same(t, r, t.order.len() as int, v);
        assert(r.order[t.order.len() as int] == k);
        assert(t.count(k, v) == 0);
    }
}

/// Counts are not negative, so a total is at least each count that it sums.
pub proof fn lemma_total_at_least(t: TableV, k: Seq<char>, w: Seq<char>)
    requires
        t.wf(),
    ensures
        0 <= t.count(k, w) <= t.total(w),
{
    assert forall|q: Seq<char>| 0 <= #[trigger] t.count(q, w) by {
        if t.lists.contains_key(q) {
            let l = t.lists[q];
            assert(list_ok(l));
            assert forall|j: int| 0 <= j < l.len() implies 0 <= (#[trigger] l[j]).1 by {
                assert(is_clean(l[j].0));
            }
            lemma_count_in_nonneg(l, w);
        }
    }
    lemma_total_upto_at_least(t, t.order.len() as int, w);
    if t.lists.contains_key(k) {
        let p = lemma_key_position(t, k);
    }
}

proof fn lemma_total_upto_at_least(t: TableV, n: int, w: Seq<char>)
    requires
        0 <= n <= t.order.len(),
        forall|q: Seq<char>| 0 <= #[trigger] t.count(q, w),
    ensures
        0 <= t.total_upto(n, w),
        forall|i: int| 0 <= i < n ==> t.count(#[trigger] t.order[i], w) <= t.total_upto(n, w),
    decreases n,
{
    if n > 0 {
        lemma_total_upto_at_least(t, n - 1, w);
        assert(0 <= t.count(t.order[n - 1], w));
    }
}

/// More records never make a sum smaller.
pub proof fn lemma_rows_grow(rows: Seq<RowV>, n: int, k: Seq<char>, w: Seq<char>)
    requires
        0 <= n <= rows.len(),
        forall|i: int| 0 <= i < rows.len() ==> 0 <= (#[trigger] rows[i]).count,
    ensures
        0 <= rows_count(rows.take(n), k, w) <= rows_count(rows, k, w),
        0 <= rows_total(rows.take(n), w) <= rows_total(rows, w),
        rows_count(rows, k, w) <= rows_total(rows, w),
    decreases rows.len(),
{
    if rows.len() == 0 {
        assert(rows.take(n) =~= rows);
    } else {
        let t = rows.drop_last();
        assert forall|i: int| 0 <= i < t.len() implies 0 <= (#[trigger] t[i]).count by {
            assert(t[i] == rows[i]);
        }
        assert(rows[rows.len() - 1] == rows.last());
        if n == rows.len() {
            assert(rows.take(n) =~= rows);
            lemma_rows_grow(t, t.len() as int, k, w);
        } else {
            lemma_rows_grow(t, n, k, w);
            assert(t.take(n) =~= rows.take(n));
        }
    }
}

/// A table built from records has their counts and totals, and is in shape if
/// the sums fit.
pub proof fn lemma_build(rows: Seq<RowV>)
    requires
        rows_ok(rows),
        forall|k: Seq<char>, w: Seq<char>| #[trigger] rows_count(rows, k, w) <= u32::MAX,
    ensures
        TableV::build(rows).wf(),
        forall|k: Seq<char>, w: Seq<char>| #[trigger] TableV::build(rows).count(k, w) == rows_count(rows, k, w),
        forall|w: Seq<char>| #[trigger] TableV::build(rows).total(w) == rows_total(rows, w),
    decreases rows.len(),
{
    if rows.len() == 0 {
    } else {
        let f = rows.drop_last();
        let x = rows.last();
        assert(rows[rows.len() - 1] == x);
        assert(rows_ok(f)) by {
            assert forall|i: int| 0 <= i < f.len() implies is_clean((#[trigger] f[i]).key) && is_clean(f[i].word) && 0
                <= f[i].count <= u32::MAX by {
                assert(f[i] == rows[i]);
            }
        }
        assert forall|k: Seq<char>, w: Seq<char>| #[trigger] rows_count(f, k, w) <= u32::MAX by {
            assert(rows_count(rows, k, w) <= u32::MAX);
        }
        lemma_build(f);
        let t = TableV::build(f);
        assert(t.count(x.key, x.word) == rows_count(f, x.key, x.word));
        assert(rows_count(rows, x.key, x.word) <= u32::MAX);
        lemma_table_bumped_wf(t, x.key, x.word, x.count);
        assert forall|k: Seq<char>, w: Seq<char>| #[trigger] TableV::build(rows).count(k, w) == rows_count(
            rows,
            k,
            w,
        ) by {
            lemma_table_bumped_count(t, x.key, x.word, x.count, k, w);
            assert(t.count(k, w) == rows_count(f, k, w));
        }
        assert forall|w: Seq<char>| #[trigger] TableV::build(rows).total(w) == rows_total(rows, w) by {
            lemma_table_bumped_total(t, x.key, x.word, x.count, w);
            assert(t.total(w) == rows_total(f, w));
        }
    }
}

/// Only the empty table is built from no records.
pub proof fn lemma_build_empty(rows: Seq<RowV>)
    ensures
        TableV::build(rows).order.len() == 0 <==> rows.len() == 0,
    decreases rows.len(),
{
    if rows.len() > 0 {
        let f = rows.drop_last();
        lemma_build_empty(f);
        if f.len() == 0 {
            assert(TableV::build(f) == TableV::empty());
        }
    }
}

/// A bump adds its word to a list and no other.
proof fn lemma_in_list_bumped(l: Seq<(Seq<char>, int)>, w: Seq<char>, by: int, v: Seq<char>)
    ensures
        in_list(bumped(l, w, by), v) <==> in_list(l, v) || v == w,
{
    let a = added(l, w, by);
    let r = bumped(l, w, by);
    let p = place(l, w, 0);
    lemma_place(l, w, 0);
    rank::lemma_ranked_members(a, count_key());
    if in_list(r, v) {
        let i = choose|i: int| 0 <= i < r.len() && (#[trigger] r[i]).0 == v;
        assert(a.contains(r[i]));
        let j = choose|j: int| 0 <= j < a.len() && a[j] == r[i];
        if v != w {
            assert(l[j].0 == v);
        }
    }
    if in_list(l, v) || v == w {
        let j = if v == w {
            p
        } else {
            choose|j: int| 0 <= j < l.len() && (#[trigger] l[j]).0 == v
        };
        assert(a[j].0 == v);
        assert(a.contains(a[j]));
        assert(r.contains(a[j]));
        let i = choose|i: int| 0 <= i < r.len() && r[i] == a[j];
        assert(r[i].0 == v);
    }
}

/// A bump adds its word to a table and no other.
pub proof fn lemma_table_bumped_holds(t: TableV, k: Seq<char>, w: Seq<char>, by: int, v: Seq<char>)
    ensures
        t.bumped(k, w, by).holds(v) <==> t.holds(v) || v == w,
{
    let r = t.bumped(k, w, by);
    lemma_in_list_bumped(t.list(k), w, by, v);
    if r.holds(v) {
        let q = choose|q: Seq<char>| #[trigger] r.lists.contains_key(q) && in_list(r.lists[q], v);
        if v != w {
            assert(t.lists.contains_key(q) && in_list(t.lists[q], v));
        }
    }
    if t.holds(v) {
        let q = choose|q: Seq<char>| #[trigger] t.lists.contains_key(q) && in_list(t.lists[q], v);
        assert(r.lists.contains_key(q) && in_list(r.lists[q], v));
    }
    if v == w {
        assert(r.lists.contains_key(k) && in_list(r.lists[k], v));
    }
}

/// A table built from records holds their words.
pub proof fn lemma_build_holds(rows: Seq<RowV>, w: Seq<char>)
    ensures
        TableV::build(rows).holds(w) <==> rows_hold(rows, w),
    decreases rows.len(),
{
    if rows.len() > 0 {
        let f = rows.drop_last();
        let x = rows.last();
        lemma_build_holds(f, w);
        lemma_table_bumped_holds(TableV::build(f), x.key, x.word, x.count, w);
        if rows_hold(rows, w) {
            let i = choose|i: int| 0 <= i < rows.len() && (#[trigger] rows[i]).word == w;
            if i < f.len() {
                assert(f[i].word == w);
            }
        }
        if rows_hold(f, w) {
            let i = choose|i: int| 0 <= i < f.len() && (#[trigger] f[i]).word == w;
            assert(rows[i].word == w);
        }
        if x.word == w {
            assert(rows[rows.len() - 1].word == w);
        }
    }
}

/// The first `n` keys of a table with their lists.
spec fn front(t: TableV, n: int) -> TableV {
    TableV { order: t.order.take(n), lists: Map::new(|k: Seq<char>| t.order.take(n).contains(k), |k: Seq<char>| t.lists[k]) }
}

/// Records of a key that is not in the table yet add the key with its list.
proof fn lemma_build_key(f: Seq<RowV>, t: TableV, k: Seq<char>, l: Seq<(Seq<char>, int)>, i: int)
    requires
        TableV::build(f) == t,
        !t.lists.contains_key(k),
        list_ok(l),
        0 < i <= l.len(),
    ensures
        TableV::build(f + key_rows(k, l).take(i)) == (TableV {
            order: t.order.push(k),
            lists: t.lists.insert(k, l.take(i)),
        }),
    decreases i,
{
    let g = f + key_rows(k, l).take(i);
    let x = key_rows(k, l)[i - 1];
    assert(g.last() == x);
    assert(g.drop_last() =~= f + key_rows(k, l).take(i - 1));
    let head = l.take(i - 1);
    assert(rank::descending(l.take(i), count_key())) by {
        assert forall|a: int, b: int| 0 <= a < b < l.take(i).len() implies !rank::above(
            count_key()(#[trigger] l.take(i)[b]),
            count_key()(#[trigger] l.take(i)[a]),
        ) by {
            assert(!rank::above(count_key()(l[b]), count_key()(l[a])));
        }
    }
    lemma_place(head, x.word, 0);
    if place(head, x.word, 0) < head.len() {
        let p = place(head, x.word, 0);
        assert(l[p].0 != l[i - 1].0);
    }
    assert(head.push((x.word, x.count)) =~= l.take(i));
    rank::lemma_ranked_fixed(l.take(i), count_key());
    assert(bumped(head, x.word, x.count) == l.take(i));
    if i == 1 {
        assert(g.drop_last() =~= f);
        assert(head =~= Seq::<(Seq<char>, int)>::empty());
        assert(t.list(k) =~= head);
    } else {
        lemma_build_key(f, t, k, l, i - 1);
        let t1 = TableV::build(g.drop_last());
        assert(t1.list(k) == head);
        assert(t1.bumped(k, x.word, x.count).lists =~= t.lists.insert(k, l.take(i)));
    }
}

proof fn lemma_build_front(t: TableV, n: int)
    requires
        t.wf(),
        0 <= n <= t.order.len(),
    ensures
        TableV::build(t.rows_upto(n)) == front(t, n),
    decreases n,
{
    if n == 0 {
        assert(front(t, 0) =~= TableV::empty());
    } else {
        lemma_build_front(t, n - 1);
        let k = t.order[n - 1];
        assert(t.order.contains(k));
        let l = t.lists[k];
        let f = t.rows_upto(n - 1);
        let t0 = front(t, n - 1);
        assert(!t0.lists.contains_key(k)) by {
            if t.order.take(n - 1).contains(k) {
                let o = t.order.take(n - 1);
                let i = choose|i: int| 0 <= i < o.len() && o[i] == k;
                assert(t.order[i] == t.order[n - 1]);
            }
        }
        lemma_build_key(f, t0, k, l, l.len() as int);
        assert(key_rows(k, l).take(l.len() as int) =~= key_rows(k, l));
        assert(l.take(l.len() as int) =~= l);
        let r = front(t, n);
        assert(r.order =~= t0.order.push(k));
        assert(r.lists =~= t0.lists.insert(k, l)) by {
            assert forall|q: Seq<char>| r.lists.contains_key(q) <==> #[trigger] t0.lists.insert(k, l).contains_key(
                q,
            ) by {
                if t.order.take(n).contains(q) {
                    let o = t.order.take(n);
                let i = choose|i: int| 0 <= i < o.len() && o[i] == q;
                    if i < n - 1 {
                        assert(t.order.take(n - 1)[i] == q);
                    }
                }
                if t.order.take(n - 1).contains(q) {
                    let o = t.order.take(n - 1);
                let i = choose|i: int| 0 <= i < o.len() && o[i] == q;
                    assert(t.order.take(n)[i] == q);
                }
                assert(t.order.take(n)[n - 1] == k);
            }
        }
    }
}

/// A table is rebuilt from its own records.
pub proof fn law_rebuilt_from_rows(t: TableV)
    requires
        t.wf(),
    ensures
        TableV::build(t.rows()) == t,
{
    lemma_build_front(t, t.order.len() as int);
    let r = front(t, t.order.len() as int);
    assert(r.order =~= t.order);
    assert(r.lists =~= t.lists) by {
        assert forall|q: Seq<char>| r.lists.contains_key(q) <==> #[trigger] t.lists.contains_key(q) by {
            assert(t.order.take(t.order.len() as int) =~= t.order);
        }
    }
}

proof fn lemma_rows_upto_keys(t: TableV, n: int)
    requires
        t.wf(),
        0 <= n <= t.order.len(),
    ensures
        forall|i: int| 0 <= i < t.rows_upto(n).len() ==> t.order.take(n).contains((#[trigger] t.rows_upto(n)[i]).key),
        rows_ok(t.rows_upto(n)),
    decreases n,
{
    if n > 0 {
        lemma_rows_upto_keys(t, n - 1);
        let k = t.order[n - 1];
        assert(t.order.contains(k));
        let a = t.rows_upto(n - 1);
        let b = key_rows(k, t.list(k));
        let r = t.rows_upto(n);
        assert forall|i: int| 0 <= i < r.len() implies t.order.take(n).contains((#[trigger] r[i]).key) && is_clean(
            r[i].key,
        ) && is_clean(r[i].word) && 0 <= r[i].count <= u32::MAX by {
            if i < a.len() {
                assert(r[i] == a[i]);
                let o = t.order.take(n - 1);
                let j = choose|j: int| 0 <= j < o.len() && o[j] == a[i].key;
                assert(t.order.take(n)[j] == a[i].key);
            } else {
                assert(r[i] == b[i - a.len()]);
                assert(t.order.take(n)[n - 1] == k);
                assert(is_clean(t.lists[k][i - a.len()].0));
            }
        }
    }
}

/// The records of a table in shape are clean and their counts fit.
pub proof fn lemma_rows_ok(t: TableV)
    requires
        t.wf(),
    ensures
        rows_ok(t.rows()),
{
    lemma_rows_upto_keys(t, t.order.len() as int);
}

/// Records that come key by key, each word of a key once, highest counts first.
pub open spec fn grouped(f: Seq<RowV>) -> bool {
    forall|i: int, j: int|
        0 <= i < j < f.len() && (#[trigger] f[i]).key == (#[trigger] f[j]).key ==> f[i].word != f[j].word && f[i].count
            >= f[j].count && forall|m: int| i < m < j ==> (#[trigger] f[m]).key == f[i].key
}

proof fn lemma_rows_upto_grouped(t: TableV, n: int)
    requires
        t.wf(),
        0 <= n <= t.order.len(),
    ensures
        grouped(t.rows_upto(n)),
    decreases n,
{
    if n > 0 {
        lemma_rows_upto_grouped(t, n - 1);
        lemma_rows_upto_keys(t, n - 1);
        let k = t.order[n - 1];
        assert(t.order.contains(k));
        let l = t.lists[k];
        let a = t.rows_upto(n - 1);
        let b = key_rows(k, l);
        let r = t.rows_upto(n);
        assert(r =~= a + b);
        assert forall|i: int, j: int|
            0 <= i < j < r.len() && (#[trigger] r[i]).key == (#[trigger] r[j]).key implies r[i].word != r[j].word
            && r[i].count >= r[j].count && forall|m: int| i < m < j ==> (#[trigger] r[m]).key == r[i].key by {
            if j < a.len() {
                assert(r[i] == a[i] && r[j] == a[j]);
                assert forall|m: int| i < m < j implies (#[trigger] r[m]).key == r[i].key by {
                    assert(r[m] == a[m]);
                }
            } else {
                assert(r[j] == b[j - a.len()]);
                if i < a.len() {
                    assert(r[i] == a[i]);
                    let o = t.order.take(n - 1);
                let q = choose|q: int| 0 <= q < o.len() && o[q] == a[i].key;
                    assert(t.order[q] == t.order[n - 1]);
                    assert(false);
                } else {
                    let ia = i - a.len();
                    let ja = j - a.len();
                    assert(r[i] == b[ia]);
                    assert(l[ia].0 != l[ja].0);
                    assert(!rank::above(count_key()(l[ja]), count_key()(l[ia])));
                    assert forall|m: int| i < m < j implies (#[trigger] r[m]).key == r[i].key by {
                        assert(r[m] == b[m - a.len()]);
                    }
                }
            }
        }
    }
}

proof fn lemma_rows_upto_local(t: TableV, r: TableV, n: int)
    requires
        0 <= n <= t.order.len(),
        n <= r.order.len(),
        forall|i: int| 0 <= i < n ==> r.order[i] == #[trigger] t.order[i] && r.list(t.order[i]) == t.list(t.order[i]),
    ensures
        r.rows_upto(n) == t.rows_upto(n),
    decreases n,
{
    if n > 0 {
        lemma_rows_upto_local(t, r, n - 1);
        assert(r.order[n - 1] == t.order[n - 1]);
    }
}

/// A record of a new key comes last.
proof fn lemma_bump_new_key(t: TableV, x: RowV)
    requires
        t.wf(),
        !t.lists.contains_key(x.key),
        is_clean(x.key),
        is_clean(x.word),
        0 <= x.count <= u32::MAX,
    ensures
        t.bumped(x.key, x.word, x.count).wf(),
        t.bumped(x.key, x.word, x.count).rows() == t.rows().push(x),
{
    let r = t.bumped(x.key, x.word, x.count);
    let n = t.order.len() as int;
    let l2 = seq![(x.word, x.count)];
    assert(t.list(x.key) =~= Seq::<(Seq<char>, int)>::empty());
    assert(added(t.list(x.key), x.word, x.count) =~= l2);
    rank::lemma_ranked_fixed(l2, count_key());
    lemma_table_bumped_wf(t, x.key, x.word, x.count);
    assert forall|i: int| 0 <= i < n implies r.order[i] == #[trigger] t.order[i] && r.list(t.order[i]) == t.list(
        t.order[i],
    ) by {
        assert(t.order.contains(t.order[i]));
    }
    lemma_rows_upto_local(t, r, n);
    assert(r.order[n] == x.key);
    assert(r.list(x.key) == l2);
    assert(key_rows(x.key, l2) =~= seq![x]);
    assert(r.rows_upto(n + 1) == r.rows_upto(n) + key_rows(x.key, l2));
    assert(r.rows() =~= t.rows().push(x));
}

/// A record of the last key with a new word and a count not above the others
/// comes last.
proof fn lemma_bump_last_key(t: TableV, x: RowV)
    requires
        t.wf(),
        t.order.len() > 0,
        t.order.last() == x.key,
        is_clean(x.word),
        0 <= x.count <= u32::MAX,
        forall|i: int|
            0 <= i < t.list(x.key).len() ==> (#[trigger] t.list(x.key)[i]).0 != x.word && t.list(x.key)[i].1 >= x.count,
    ensures
        t.bumped(x.key, x.word, x.count).wf(),
        t.bumped(x.key, x.word, x.count).rows() == t.rows().push(x),
{
    let r = t.bumped(x.key, x.word, x.count);
    let n = t.order.len() as int;
    assert(t.order[n - 1] == x.key);
    assert(t.order.contains(x.key));
    let l = t.list(x.key);
    assert(list_ok(l));
    lemma_place(l, x.word, 0);
    lemma_count_in_absent(l, x.word);
    let l2 = l.push((x.word, x.count));
    assert(rank::descending(l2, count_key())) by {
        assert forall|i: int, j: int| 0 <= i < j < l2.len() implies !rank::above(
            count_key()(#[trigger] l2[j]),
            count_key()(#[trigger] l2[i]),
        ) by {
            assert(l2[i] == l[i]);
            if j < l.len() {
                assert(l2[j] == l[j]);
            }
        }
    }
    rank::lemma_ranked_fixed(l2, count_key());
    assert(bumped(l, x.word, x.count) == l2);
    lemma_table_bumped_wf(t, x.key, x.word, x.count);
    assert forall|i: int| 0 <= i < n - 1 implies r.order[i] == #[trigger] t.order[i] && r.list(t.order[i]) == t.list(
        t.order[i],
    ) by {
        assert(t.order[i] != t.order[n - 1]);
    }
    lemma_rows_upto_local(t, r, n - 1);
    assert(key_rows(x.key, l2) =~= key_rows(x.key, l).push(x));
    assert(r.rows() == r.rows_upto(n - 1) + key_rows(x.key, l2));
    assert(t.rows() == t.rows_upto(n - 1) + key_rows(x.key, l));
    assert(r.rows() =~= t.rows().push(x));
}

/// A table built from grouped records has exactly these records.
proof fn lemma_build_grouped(f: Seq<RowV>)
    requires
        rows_ok(f),
        grouped(f),
    ensures
        TableV::build(f).wf(),
        TableV::build(f).rows() == f,
    decreases f.len(),
{
    if f.len() == 0 {
        assert(f =~= Seq::<RowV>::empty());
    } else {
        let g = f.drop_last();
        let x = f.last();
        assert(f[f.len() - 1] == x);
        assert forall|i: int| 0 <= i < g.len() implies is_clean((#[trigger] g[i]).key) && is_clean(g[i].word) && 0
            <= g[i].count <= u32::MAX by {
            assert(g[i] == f[i]);
        }
        assert forall|i: int, j: int|
            0 <= i < j < g.len() && (#[trigger] g[i]).key == (#[trigger] g[j]).key implies g[i].word != g[j].word
            && g[i].count >= g[j].count && forall|m: int| i < m < j ==> (#[trigger] g[m]).key == g[i].key by {
            assert(g[i] == f[i] && g[j] == f[j]);
            assert forall|m: int| i < m < j implies (#[trigger] g[m]).key == g[i].key by {
                assert(g[m] == f[m]);
            }
        }
        lemma_build_grouped(g);
        assert(g.push(x) =~= f);
        let t = TableV::build(g);
        if t.lists.contains_key(x.key) {
            lemma_grouped_tail(t, f);
            lemma_bump_last_key(t, x);
        } else {
            lemma_bump_new_key(t, x);
        }
    }
}

/// If the last of some grouped records has a key that the table of the others
/// holds, then it is the last key, its word is new, and its count is not above
/// the counts there.
proof fn lemma_grouped_tail(t: TableV, f: Seq<RowV>)
    requires
        t.wf(),
        f.len() > 0,
        t.rows() == f.drop_last(),
        grouped(f),
        t.lists.contains_key(f.last().key),
    ensures
        t.order.len() > 0,
        t.order.last() == f.last().key,
        forall|i: int|
            0 <= i < t.list(f.last().key).len() ==> (#[trigger] t.list(f.last().key)[i]).0 != f.last().word && t.list(
                f.last().key,
            )[i].1 >= f.last().count,
{
    let x = f.last();
    let e = f.len() - 1;
    let n = t.order.len() as int;
    let p = lemma_key_position(t, x.key);
    let a = t.rows_upto(p).len() as int;
    let l = t.list(x.key);
    assert(list_ok(l));
    lemma_rows_position(t, p, n);
    assert forall|i: int| 0 <= i < l.len() implies (#[trigger] l[i]).0 != x.word && l[i].1 >= x.count by {
        assert(t.rows()[a + i] == key_rows(x.key, l)[i]);
        assert(f[a + i] == t.rows()[a + i]);
        assert(f[a + i].key == f[e].key);
    }
    if p < n - 1 {
        let b = t.rows_upto(n - 1).len() as int;
        lemma_rows_position(t, n - 1, n);
        lemma_rows_position(t, p, n - 1);
        let q = t.order[n - 1];
        assert(t.order.contains(q));
        assert(list_ok(t.list(q)));
        assert(t.rows()[a + 0] == key_rows(x.key, l)[0]);
        assert(t.rows()[b + 0] == key_rows(q, t.list(q))[0]);
        assert(f[a] == t.rows()[a] && f[b] == t.rows()[b]);
        assert(f[a].key == f[e].key);
        assert(a < b);
        assert(f[b].key == f[a].key);
        assert(t.order[p] != t.order[n - 1]);
    }
}

/// Where the records of the key at position `p` stand.
proof fn lemma_rows_position(t: TableV, p: int, n: int)
    requires
        0 <= p < n <= t.order.len(),
    ensures
        t.rows_upto(p).len() + t.list(t.order[p]).len() <= t.rows_upto(n).len(),
        forall|i: int|
            0 <= i < t.list(t.order[p]).len() ==> t.rows_upto(n)[t.rows_upto(p).len() + i] == #[trigger] key_rows(
                t.order[p],
                t.list(t.order[p]),
            )[i],
    decreases n,
{
    if p < n - 1 {
        lemma_rows_position(t, p, n - 1);
    }
}

// ---------------------------------------------------------------------------
// Pruning
// ---------------------------------------------------------------------------

/// The counts of records.
pub open spec fn counts_of(f: Seq<RowV>) -> Seq<int> {
    Seq::new(f.len(), |i: int| f[i].count)
}

/// Numbers in descending order.
pub open spec fn number_key() -> spec_fn(int) -> (int, int) {
    |n: int| (n, 0int)
}

/// How many numbers are above `th`.
pub open spec fn above_count(c: Seq<int>, th: int) -> int
    decreases c.len(),
{
    if c.len() == 0 {
        0
    } else {
        above_count(c.drop_last(), th) + if c.last() > th {
            1int
        } else {
            0
        }
    }
}

/// How many numbers equal `th`.
pub open spec fn equal_count(c: Seq<int>, th: int) -> int
    decreases c.len(),
{
    if c.len() == 0 {
        0
    } else {
        equal_count(c.drop_last(), th) + if c.last() == th {
            1int
        } else {
            0
        }
    }
}

/// The `cap`-th highest count.
pub open spec fn threshold(f: Seq<RowV>, cap: int) -> int {
    rank::ranked(counts_of(f), number_key())[cap - 1]
}

/// The records with a count above `th`, and the first `room` of those with the
/// count `th`.
pub open spec fn kept(f: Seq<RowV>, th: int, room: int) -> Seq<RowV>
    decreases f.len(),
{
    if f.len() == 0 {
        Seq::empty()
    } else {
        let g = f.drop_last();
        if f.last().count > th || (f.last().count == th && equal_count(counts_of(g), th) < room) {
            kept(g, th, room).push(f.last())
        } else {
            kept(g, th, room)
        }
    }
}

/// The records that remain when only `cap` may: those with the highest counts,
/// and among the lowest of these the ones that come first.
pub open spec fn pruned_rows(f: Seq<RowV>, cap: int) -> Seq<RowV> {
    let th = threshold(f, cap);
    kept(f, th, cap - above_count(counts_of(f), th))
}

impl TableV {
    /// The table with at most `cap` records: those with the lowest counts are
    /// dropped.
    pub open spec fn pruned(self, cap: int) -> TableV {
        if self.rows().len() <= cap {
            self
        } else {
            TableV::build(pruned_rows(self.rows(), cap))
        }
    }
}

proof fn lemma_counts_inserted(c: Seq<int>, x: int, th: int)
    ensures
        above_count(rank::inserted(c, x, number_key()), th) == above_count(c, th) + if x > th {
            1int
        } else {
            0
        },
        equal_count(rank::inserted(c, x, number_key()), th) == equal_count(c, th) + if x == th {
            1int
        } else {
            0
        },
    decreases c.len(),
{
    let r = rank::inserted(c, x, number_key());
    if c.len() > 0 && rank::above(number_key()(x), number_key()(c.last())) {
        lemma_counts_inserted(c.drop_last(), x, th);
        assert(r.drop_last() =~= rank::inserted(c.drop_last(), x, number_key()));
    } else {
        assert(r.drop_last() =~= c);
    }
}

proof fn lemma_counts_ranked(c: Seq<int>, th: int)
    ensures
        above_count(rank::ranked(c, number_key()), th) == above_count(c, th),
        equal_count(rank::ranked(c, number_key()), th) == equal_count(c, th),
    decreases c.len(),
{
    if c.len() > 0 {
        lemma_counts_ranked(c.drop_last(), th);
        lemma_counts_inserted(rank::ranked(c.drop_last(), number_key()), c.last(), th);
    }
}

/// In a descending list, fewer than `n` numbers are above the `n`-th, and at
/// least `n` are not below it.
proof fn lemma_nth_highest(c: Seq<int>, n: int)
    requires
        rank::descending(c, number_key()),
        0 < n <= c.len(),
    ensures
        above_count(c, c[n - 1]) < n <= above_count(c, c[n - 1]) + equal_count(c, c[n - 1]),
    decreases c.len(),
{
    let th = c[n - 1];
    let d = c.drop_last();
    assert(rank::descending(d, number_key())) by {
        assert forall|i: int, j: int| 0 <= i < j < d.len() implies !rank::above(
            number_key()(#[trigger] d[j]),
            number_key()(#[trigger] d[i]),
        ) by {
            assert(d[i] == c[i] && d[j] == c[j]);
        }
    }
    assert(c[c.len() - 1] == c.last());
    if n < c.len() {
        lemma_nth_highest(d, n);
        assert(d[n - 1] == th);
        assert(!rank::above(number_key()(c[c.len() - 1]), number_key()(c[n - 1])));
        lemma_counts_bounds(d, th);
    } else {
        lemma_all_at_least(d, th);
    }
}

proof fn lemma_counts_bounds(c: Seq<int>, th: int)
    ensures
        0 <= above_count(c, th),
        0 <= equal_count(c, th),
        above_count(c, th) + equal_count(c, th) <= c.len(),
    decreases c.len(),
{
    if c.len() > 0 {
        lemma_counts_bounds(c.drop_last(), th);
    }
}

proof fn lemma_all_at_least(d: Seq<int>, th: int)
    ensures
        above_count(d, th) <= d.len(),
        (forall|i: int| 0 <= i < d.len() ==> #[trigger] d[i] >= th) ==> above_count(d, th) + equal_count(d, th)
            == d.len(),
    decreases d.len(),
{
    if d.len() > 0 {
        let e = d.drop_last();
        lemma_all_at_least(e, th);
        if forall|i: int| 0 <= i < d.len() ==> #[trigger] d[i] >= th {
            assert forall|i: int| 0 <= i < e.len() implies #[trigger] e[i] >= th by {
                assert(e[i] == d[i]);
            }
            assert(d[d.len() - 1] >= th);
        }
    }
}

proof fn lemma_kept_len(f: Seq<RowV>, th: int, room: int)
    requires
        0 <= room,
    ensures
        ({
            let e = equal_count(counts_of(f), th);
            kept(f, th, room).len() == above_count(counts_of(f), th) + if e < room {
                e
            } else {
                room
            }
        }),
    decreases f.len(),
{
    if f.len() > 0 {
        lemma_kept_len(f.drop_last(), th, room);
        assert(counts_of(f).drop_last() =~= counts_of(f.drop_last()));
        assert(counts_of(f).last() == f.last().count);
    }
}

/// The places of the records that are kept.
spec fn kept_places(f: Seq<RowV>, th: int, room: int) -> Seq<int>
    decreases f.len(),
{
    if f.len() == 0 {
        Seq::empty()
    } else {
        let g = f.drop_last();
        if f.last().count > th || (f.last().count == th && equal_count(counts_of(g), th) < room) {
            kept_places(g, th, room).push(f.len() - 1)
        } else {
            kept_places(g, th, room)
        }
    }
}

proof fn lemma_kept_places(f: Seq<RowV>, th: int, room: int)
    ensures
        ({
            let p = kept_places(f, th, room);
            let k = kept(f, th, room);
            &&& p.len() == k.len()
            &&& forall|i: int| 0 <= i < p.len() ==> 0 <= #[trigger] p[i] < f.len() && k[i] == f[p[i]] && f[p[i]].count >= th
            &&& forall|i: int, j: int| 0 <= i < j < p.len() ==> #[trigger] p[i] < #[trigger] p[j]
        }),
        forall|i: int| 0 <= i < f.len() && (#[trigger] f[i]).count > th ==> kept(f, th, room).contains(f[i]),
    decreases f.len(),
{
    if f.len() > 0 {
        let g = f.drop_last();
        lemma_kept_places(g, th, room);
        let p = kept_places(f, th, room);
        let q = kept_places(g, th, room);
        let k = kept(f, th, room);
        let m = kept(g, th, room);
        assert forall|i: int| 0 <= i < p.len() implies 0 <= #[trigger] p[i] < f.len() && k[i] == f[p[i]] && f[p[i]].count
            >= th by {
            if i < q.len() {
                assert(p[i] == q[i]);
                assert(g[q[i]] == f[q[i]]);
            }
        }
        assert forall|i: int, j: int| 0 <= i < j < p.len() implies #[trigger] p[i] < #[trigger] p[j] by {
            assert(p[i] == q[i]);
            if j < q.len() {
                assert(p[j] == q[j]);
            }
        }
        assert forall|i: int| 0 <= i < f.len() && (#[trigger] f[i]).count > th implies k.contains(f[i]) by {
            if i < g.len() {
                assert(g[i] == f[i]);
                assert(m.contains(g[i]));
                let a = choose|a: int| 0 <= a < m.len() && m[a] == g[i];
                assert(k[a] == f[i]);
            } else {
                assert(k[k.len() - 1] == f[i]);
            }
        }
    }
}

proof fn lemma_kept_grouped(f: Seq<RowV>, th: int, room: int)
    requires
        grouped(f),
        rows_ok(f),
    ensures
        grouped(kept(f, th, room)),
        rows_ok(kept(f, th, room)),
{
    lemma_kept_places(f, th, room);
    let p = kept_places(f, th, room);
    let k = kept(f, th, room);
    assert forall|i: int, j: int|
        0 <= i < j < k.len() && (#[trigger] k[i]).key == (#[trigger] k[j]).key implies k[i].word != k[j].word
        && k[i].count >= k[j].count && forall|m: int| i < m < j ==> (#[trigger] k[m]).key == k[i].key by {
        assert(k[i] == f[p[i]] && k[j] == f[p[j]]);
        assert(p[i] < p[j]);
        assert forall|m: int| i < m < j implies (#[trigger] k[m]).key == k[i].key by {
            assert(p[i] < p[m] && p[m] < p[j]);
            assert(k[m] == f[p[m]]);
        }
    }
    assert forall|i: int| 0 <= i < k.len() implies is_clean((#[trigger] k[i]).key) && is_clean(k[i].word) && 0
        <= k[i].count <= u32::MAX by {
        assert(k[i] == f[p[i]]);
    }
}

/// Sums over the records that are kept are not above sums over all of them.
proof fn lemma_kept_sums(f: Seq<RowV>, th: int, room: int, k: Seq<char>, w: Seq<char>)
    requires
        rows_ok(f),
    ensures
        rows_count(kept(f, th, room), k, w) <= rows_count(f, k, w),
        rows_total(kept(f, th, room), w) <= rows_total(f, w),
    decreases f.len(),
{
    if f.len() > 0 {
        let g = f.drop_last();
        assert forall|i: int| 0 <= i < g.len() implies is_clean((#[trigger] g[i]).key) && is_clean(g[i].word) && 0
            <= g[i].count <= u32::MAX by {
            assert(g[i] == f[i]);
        }
        assert(f[f.len() - 1] == f.last());
        lemma_kept_sums(g, th, room, k, w);
        let m = kept(g, th, room);
        assert(m.push(f.last()).drop_last() =~= m);
    }
}

/// Pruning keeps the shape of a table, leaves at most `cap` records (exactly
/// `cap` if there were more), makes no sum larger, and drops lowest counts
/// first: no dropped record has a higher count than one that stays.
pub proof fn law_pruned(t: TableV, cap: int)
    requires
        t.wf(),
        0 < cap,
    ensures
        t.pruned(cap).wf(),
        t.rows().len() > cap ==> t.pruned(cap).rows().len() == cap,
        t.rows().len() <= cap ==> t.pruned(cap) == t,
        forall|w: Seq<char>| #[trigger] t.pruned(cap).total(w) <= t.total(w),
        forall|i: int, j: int|
            0 <= i < t.pruned(cap).rows().len() && 0 <= j < t.rows().len() && !t.pruned(cap).rows().contains(
                #[trigger] t.rows()[j],
            ) ==> t.rows()[j].count <= (#[trigger] t.pruned(cap).rows()[i]).count,
        forall|i: int| 0 <= i < t.pruned(cap).rows().len() ==> t.rows().contains(#[trigger] t.pruned(cap).rows()[i]),
{
    let f = t.rows();
    let r = t.pruned(cap);
    if f.len() > cap {
        let c = counts_of(f);
        let s = rank::ranked(c, number_key());
        let th = threshold(f, cap);
        let room = cap - above_count(c, th);
        rank::lemma_ranked_descending(c, number_key());
        rank::lemma_ranked_members(c, number_key());
        lemma_nth_highest(s, cap);
        lemma_counts_ranked(c, th);
        lemma_kept_len(f, th, room);
        lemma_rows_upto_grouped(t, t.order.len() as int);
        lemma_rows_ok(t);
        lemma_kept_grouped(f, th, room);
        let k = pruned_rows(f, cap);
        lemma_build_grouped(k);
        lemma_kept_places(f, th, room);
        let p = kept_places(f, th, room);
        assert(r.rows() == k);
        assert forall|i: int| 0 <= i < k.len() implies f.contains(#[trigger] k[i]) && k[i].count >= th by {
            assert(k[i] == f[p[i]]);
        }
        law_rebuilt_from_rows(t);
        assert forall|a: Seq<char>, w: Seq<char>| #[trigger] rows_count(f, a, w) <= u32::MAX by {
            lemma_rows_count_of_table(t, a, w);
        }
        lemma_build(f);
        assert forall|a: Seq<char>, w: Seq<char>| #[trigger] rows_count(k, a, w) <= u32::MAX by {
            lemma_kept_sums(f, th, room, a, w);
            assert(rows_count(f, a, w) <= u32::MAX);
        }
        lemma_build(k);
        assert forall|w: Seq<char>| #[trigger] r.total(w) <= t.total(w) by {
            lemma_kept_sums(f, th, room, w, w);
            assert(TableV::build(f).total(w) == rows_total(f, w));
        }
    } else {
        assert forall|i: int| 0 <= i < f.len() implies f.contains(#[trigger] f[i]) by {}
    }
}

proof fn lemma_rows_upto_count(t: TableV, n: int, k: Seq<char>, w: Seq<char>)
    requires
        t.wf(),
        0 <= n <= t.order.len(),
    ensures
        rows_count(t.rows_upto(n), k, w) == if t.order.take(n).contains(k) {
            t.count(k, w)
        } else {
            0
        },
    decreases n,
{
    if n > 0 {
        lemma_rows_upto_count(t, n - 1, k, w);
        let q = t.order[n - 1];
        lemma_rows_count_append(t.rows_upto(n - 1), q, t.list(q), k, w);
        assert(t.order.take(n)[n - 1] == q);
        if t.order.take(n - 1).contains(k) {
            let o = t.order.take(n - 1);
                let i = choose|i: int| 0 <= i < o.len() && o[i] == k;
            assert(t.order.take(n)[i] == k);
            assert(t.order[i] != t.order[n - 1]);
        } else if t.order.take(n).contains(k) {
            let o = t.order.take(n);
                let i = choose|i: int| 0 <= i < o.len() && o[i] == k;
            if i < n - 1 {
                assert(t.order.take(n - 1)[i] == k);
            }
        }
    }
}

proof fn lemma_rows_count_append(f: Seq<RowV>, q: Seq<char>, l: Seq<(Seq<char>, int)>, k: Seq<char>, w: Seq<char>)
    ensures
        rows_count(f + key_rows(q, l), k, w) == rows_count(f, k, w) + if q == k {
            count_in(l, w)
        } else {
            0
        },
    decreases l.len(),
{
    let g = f + key_rows(q, l);
    if l.len() == 0 {
        assert(g =~= f);
    } else {
        lemma_rows_count_append(f, q, l.drop_last(), k, w);
        assert(g.drop_last() =~= f + key_rows(q, l.drop_last()));
        assert(g.last() == (RowV { key: q, word: l.last().0, count: l.last().1 }));
    }
}

/// The records of a table carry its counts.
pub proof fn lemma_rows_count_of_table(t: TableV, k: Seq<char>, w: Seq<char>)
    requires
        t.wf(),
    ensures
        rows_count(t.rows(), k, w) == t.count(k, w),
        t.count(k, w) <= u32::MAX,
{
    lemma_rows_upto_count(t, t.order.len() as int, k, w);
    assert(t.order.take(t.order.len() as int) =~= t.order);
    if t.lists.contains_key(k) {
        assert(t.order.contains(k));
        let l = t.lists[k];
        assert(list_ok(l));
        lemma_place(l, w, 0);
        let p = place(l, w, 0);
        if p < l.len() {
            lemma_count_in_at(l, p);
            assert(is_clean(l[p].0));
        } else {
            lemma_count_in_absent(l, w);
        }
    } else {
        assert(!t.order.contains(k));
    }
}

// ---------------------------------------------------------------------------
// The table itself
// ---------------------------------------------------------------------------

/// One record of a table.
pub struct Row {
    pub key: String,
    pub word: String,
    pub count: u32,
}

impl View for Row {
    type V = RowV;

    open spec fn view(&self) -> RowV {
        RowV { key: self.key@, word: self.word@, count: self.count as int }
    }
}

/// The models of a list of records.
pub open spec fn rows_view(v: Seq<Row>) -> Seq<RowV> {
    Seq::new(v.len(), |i: int| v[i]@)
}

impl Ranked for u32 {
    open spec fn rank(&self) -> (int, int) {
        (*self as int, 0)
    }

    fn outranks(&self, other: &Self) -> (r: bool) {
        *self > *other
    }
}

/// Keys with their lists of counted words.
pub struct PickTable {
    order: Vec<String>,
    map: StringHashMap<Vec<(String, u32)>>,
}

impl View for PickTable {
    type V = TableV;

    closed spec fn view(&self) -> TableV {
        TableV {
            order: text::views(self.order@),
            lists: self.map@.map_values(|v: Vec<(String, u32)>| picks(v@)),
        }
    }
}

/// A copy of a list.
fn copy_list(v: &Vec<(String, u32)>) -> (r: Vec<(String, u32)>)
    ensures
        picks(r@) == picks(v@),
{
    let mut out: Vec<(String, u32)> = Vec::new();
    let mut i: usize = 0;
    while i < v.len()
        invariant
            0 <= i <= v@.len(),
            picks(out@) == picks(v@.take(i as int)),
        decreases v@.len() - i,
    {
        let ghost before = out@;
        out.push((v[i].0.clone(), v[i].1));
        assert(v@.take(i + 1) =~= v@.take(i as int).push(v@[i as int]));
        assert(picks(out@) =~= picks(before).push((v@[i as int].0@, v@[i as int].1 as int)));
        assert(picks(v@.take(i + 1)) =~= picks(v@.take(i as int)).push((v@[i as int].0@, v@[i as int].1 as int)));
        i = i + 1;
    }
    assert(v@.take(v@.len() as int) =~= v@);
    out
}

impl PickTable {
    /// A table without keys.
    pub fn new() -> (r: PickTable)
        ensures
            r@ == TableV::empty(),
    {
        let r = PickTable { order: Vec::new(), map: StringHashMap::new() };
        assert(r@ =~= TableV::empty());
        r
    }

    /// The list of a key.
    pub fn get(&self, key: &str) -> (r: Option<&Vec<(String, u32)>>)
        ensures
            match r {
                Some(v) => self@.lists.contains_key(key@) && picks(v@) == self@.lists[key@],
                None => !self@.lists.contains_key(key@),
            },
    {
        self.map.get(key)
    }

    /// The number of keys.
    pub fn keys(&self) -> (r: usize)
        ensures
            r == self@.order.len(),
    {
        self.order.len()
    }

    /// The key at position `i`.
    pub fn key(&self, i: usize) -> (r: &str)
        requires
            i < self@.order.len(),
        ensures
            r@ == self@.order[i as int],
    {
        self.order[i].as_str()
    }

    /// The count of `word` under `key`.
    pub fn count_of(&self, key: &str, word: &str) -> (r: u32)
        requires
            self@.wf(),
        ensures
            r == self@.count(key@, word@),
    {
        match self.get(key) {
            Some(v) => {
                let ghost l = picks(v@);
                assert(list_ok(l));
                let mut i: usize = 0;
                while i < v.len()
                    invariant
                        0 <= i <= v@.len(),
                        l == picks(v@),
                        list_ok(l),
                        l == self@.list(key@),
                        forall|j: int| 0 <= j < i ==> (#[trigger] l[j]).0 != word@,
                    decreases v@.len() - i,
                {
                    assert(l[i as int].0 == v@[i as int].0@);
                    if text::same(v[i].0.as_str(), word) {
                        proof {
                            lemma_count_in_at(l, i as int);
                        }
                        return v[i].1;
                    }
                    i = i + 1;
                }
                proof {
                    lemma_count_in_absent(l, word@);
                }
                0
            },
            None => 0,
        }
    }

    /// Adds `by` to the count of `word` under `key`.
    pub fn bump(&mut self, key: &str, word: &str, by: u32)
        requires
            old(self)@.wf(),
            old(self)@.count(key@, word@) + by <= u32::MAX,
        ensures
            final(self)@ == old(self)@.bumped(key@, word@, by as int),
    {
        let ghost t = self@;
        let (known, mut list) = match self.map.get(key) {
            Some(v) => (true, copy_list(v)),
            None => (false, Vec::new()),
        };
        proof {
            let l = picks(list@);
            assert(l =~= t.list(key@));
            if t.lists.contains_key(key@) {
                assert(list_ok(l));
            }
            lemma_place(l, word@, 0);
            let p = place(l, word@, 0);
            if p < l.len() {
                lemma_count_in_at(l, p);
            }
        }
        bump(&mut list, word, by);
        if !known {
            self.order.push(text::copy_of(key));
            assert(text::views(self.order@) =~= t.order.push(key@));
        }
        self.map.insert(text::copy_of(key), list);
        assert(self@.lists =~= t.bumped(key@, word@, by as int).lists);
    }

    /// The records of the table.
    pub fn rows(&self) -> (r: Vec<Row>)
        requires
            self@.wf(),
        ensures
            rows_view(r@) == self@.rows(),
    {
        let mut out: Vec<Row> = Vec::new();
        let mut n: usize = 0;
        assert(rows_view(out@) =~= self@.rows_upto(0));
        while n < self.order.len()
            invariant
                0 <= n <= self@.order.len(),
                self@.order.len() == self.order@.len(),
                self@.wf(),
                rows_view(out@) == self@.rows_upto(n as int),
            decreases self@.order.len() - n,
        {
            let ghost done = rows_view(out@);
            let ghost k = self@.order[n as int];
            assert(self@.order.contains(k));
            let key = self.order[n].as_str();
            match self.get(key) {
                Some(v) => {
                    let ghost l = picks(v@);
                    let mut i: usize = 0;
                    assert(done + key_rows(k, l).take(0) =~= done);
                    while i < v.len()
                        invariant
                            0 <= i <= v@.len(),
                            l == picks(v@),
                            key@ == k,
                            rows_view(out@) == done + key_rows(k, l).take(i as int),
                        decreases v@.len() - i,
                    {
                        let ghost before = rows_view(out@);
                        out.push(Row { key: text::copy_of(key), word: v[i].0.clone(), count: v[i].1 });
                        assert(rows_view(out@) =~= before.push(out@.last()@));
                        assert(key_rows(k, l).take(i + 1) =~= key_rows(k, l).take(i as int).push(key_rows(k, l)[i as int]));
                        assert(key_rows(k, l)[i as int] == out@.last()@);
                        assert(rows_view(out@) =~= done + key_rows(k, l).take(i + 1));
                        i = i + 1;
                    }
                    assert(key_rows(k, l).take(l.len() as int) =~= key_rows(k, l));
                },
                None => {},
            }
            n = n + 1;
        }
        out
    }

    /// The table made from records; `None` if a count would not fit.
    pub fn build(rows: &Vec<Row>) -> (r: Option<PickTable>)
        requires
            rows_ok(rows_view(rows@)),
        ensures
            match r {
                Some(t) => t@ == TableV::build(rows_view(rows@)) && t@.wf() && forall|k: Seq<char>, w: Seq<char>|
                    #[trigger] rows_count(rows_view(rows@), k, w) <= u32::MAX,
                None => exists|k: Seq<char>, w: Seq<char>|
                    #[trigger] rows_count(rows_view(rows@), k, w) > u32::MAX,
            },
    {
        let ghost f = rows_view(rows@);
        let mut t = PickTable::new();
        let mut i: usize = 0;
        assert(f.take(0) =~= Seq::<RowV>::empty());
        while i < rows.len()
            invariant
                0 <= i <= rows@.len(),
                f == rows_view(rows@),
                rows_ok(f),
                t@ == TableV::build(f.take(i as int)),
                forall|k: Seq<char>, w: Seq<char>| #[trigger] rows_count(f.take(i as int), k, w) <= u32::MAX,
            decreases rows@.len() - i,
        {
            let ghost g = f.take(i as int);
            let row = &rows[i];
            proof {
                assert(rows_ok(g)) by {
                    assert forall|j: int| 0 <= j < g.len() implies is_clean((#[trigger] g[j]).key) && is_clean(
                        g[j].word,
                    ) && 0 <= g[j].count <= u32::MAX by {
                        assert(g[j] == f[j]);
                    }
                }
                lemma_build(g);
                assert(f[i as int] == row@);
                assert(f.take(i + 1).drop_last() =~= g);
                assert(f.take(i + 1).last() == row@);
                assert(t@.count(row.key@, row.word@) == rows_count(g, row.key@, row.word@));
            }
            let have: u32 = t.count_of(row.key.as_str(), row.word.as_str());
            if have > u32::MAX - row.count {
                proof {
                    assert forall|j: int| 0 <= j < f.len() implies 0 <= (#[trigger] f[j]).count by {
                        assert(is_clean(f[j].key));
                    }
                    lemma_rows_grow(f, i + 1, row.key@, row.word@);
                    assert(rows_count(f.take(i + 1), row.key@, row.word@) > u32::MAX);
                    assert(rows_count(f, row.key@, row.word@) > u32::MAX);
                }
                return None;
            }
            t.bump(row.key.as_str(), row.word.as_str(), row.count);
            proof {
                assert forall|k: Seq<char>, w: Seq<char>| #[trigger] rows_count(f.take(i + 1), k, w) <= u32::MAX by {
                    assert(rows_count(g, k, w) <= u32::MAX);
                }
            }
            i = i + 1;
        }
        proof {
            assert(f.take(f.len() as int) =~= f);
            lemma_build(f);
        }
        Some(t)
    }

    /// Drops the records with the lowest counts until at most `cap` remain.
    pub fn prune(&mut self, cap: usize)
        requires
            old(self)@.wf(),
            0 < cap,
        ensures
            final(self)@ == old(self)@.pruned(cap as int),
            final(self)@.wf(),
    {
        let rows = self.rows();
        let ghost f = rows_view(rows@);
        if rows.len() <= cap {
            return;
        }
        let mut counts: Vec<u32> = Vec::new();
        let mut i: usize = 0;
        while i < rows.len()
            invariant
                0 <= i <= rows@.len(),
                f == rows_view(rows@),
                counts@.len() == i,
                forall|j: int| 0 <= j < i ==> #[trigger] counts@[j] as int == f[j].count,
            decreases rows@.len() - i,
        {
            assert(f[i as int] == rows@[i as int]@);
            counts.push(rows[i].count);
            i = i + 1;
        }
        let ghost c = counts@;
        let sorted = rank::by_rank(counts);
        proof {
            let g = |n: u32| n as int;
            rank::lemma_ranked_map(c, g, rank::rank_key::<u32>(), number_key());
            assert(c.map_values(g) =~= counts_of(f));
            rank::lemma_ranked_members(c, rank::rank_key::<u32>());
            assert(sorted@.map_values(g)[cap - 1] == sorted@[cap - 1] as int);
        }
        let th: u32 = sorted[cap - 1];
        assert(th == threshold(f, cap as int));
        let ghost room = cap - above_count(counts_of(f), th as int);
        let mut over: usize = 0;
        let mut i: usize = 0;
        assert(counts_of(f).take(0) =~= Seq::<int>::empty());
        while i < rows.len()
            invariant
                0 <= i <= rows@.len(),
                f == rows_view(rows@),
                over <= i,
                over == above_count(counts_of(f).take(i as int), th as int),
            decreases rows@.len() - i,
        {
            assert(f[i as int] == rows@[i as int]@);
            assert(counts_of(f).take(i + 1).drop_last() =~= counts_of(f).take(i as int));
            if rows[i].count > th {
                over = over + 1;
            }
            i = i + 1;
        }
        assert(counts_of(f).take(f.len() as int) =~= counts_of(f));
        proof {
            let s = rank::ranked(counts_of(f), number_key());
            rank::lemma_ranked_descending(counts_of(f), number_key());
            rank::lemma_ranked_members(counts_of(f), number_key());
            lemma_nth_highest(s, cap as int);
            lemma_counts_ranked(counts_of(f), th as int);
        }
        let mut left: usize = cap - over;
        let mut keep: Vec<Row> = Vec::new();
        let mut i: usize = 0;
        assert(f.take(0) =~= Seq::<RowV>::empty());
        assert(rows_view(keep@) =~= Seq::<RowV>::empty());
        while i < rows.len()
            invariant
                0 <= i <= rows@.len(),
                f == rows_view(rows@),
                0 <= room,
                rows_view(keep@) == kept(f.take(i as int), th as int, room),
                left == if equal_count(counts_of(f.take(i as int)), th as int) < room {
                    room - equal_count(counts_of(f.take(i as int)), th as int)
                } else {
                    0
                },
            decreases rows@.len() - i,
        {
            let ghost before = rows_view(keep@);
            let row = &rows[i];
            proof {
                assert(f[i as int] == row@);
                assert(f.take(i + 1).drop_last() =~= f.take(i as int));
                assert(f.take(i + 1).last() == row@);
                assert(counts_of(f.take(i + 1)).drop_last() =~= counts_of(f.take(i as int)));
                assert(counts_of(f.take(i + 1)).last() == row.count);
            }
            let tie = row.count == th;
            if row.count > th || (tie && left > 0) {
                keep.push(Row { key: row.key.clone(), word: row.word.clone(), count: row.count });
                assert(rows_view(keep@) =~= before.push(row@));
            }
            if tie && left > 0 {
                left = left - 1;
            }
            i = i + 1;
        }
        assert(f.take(f.len() as int) =~= f);
        proof {
            law_pruned(self@, cap as int);
            lemma_rows_ok(self@);
            lemma_rows_upto_grouped(self@, self@.order.len() as int);
            lemma_kept_grouped(f, th as int, room);
            assert forall|a: Seq<char>, w: Seq<char>| #[trigger] rows_count(rows_view(keep@), a, w) <= u32::MAX by {
                lemma_kept_sums(f, th as int, room, a, w);
                lemma_rows_count_of_table(self@, a, w);
            }
        }
        match PickTable::build(&keep) {
            Some(t) => {
                *self = t;
            },
            None => {
                proof {
                    let (a, w) = choose|a: Seq<char>, w: Seq<char>|
                        #[trigger] rows_count(rows_view(keep@), a, w) > u32::MAX;
                    assert(rows_count(rows_view(keep@), a, w) <= u32::MAX);
                }
            },
        }
    }
}

} // verus!
