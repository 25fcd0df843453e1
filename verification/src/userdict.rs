//! Per-user memory: which words the user picked for which pinyin, plus
//! word-to-word follow pairs for suggestions (联想).
//!
//! The memory is kept as text, one record per line:
//!
//! ```text
//! e\t<pinyin>\t<word>\t<count>   picked `word` for `pinyin` count times
//! b\t<prev>\t<next>\t<count>     typed `next` right after `prev`
//! ```
//!
//! The pick count of a word is always the sum of its `e` records. Follow picks
//! bump only the pairs: a 联想 pick was never chosen for a pinyin, so it must
//! not skew conversion.

use vstd::hash_map::StringHashMap;
use vstd::prelude::*;

use crate::picks;
use crate::picks::{PickTable, Row, RowV, TableV};
use crate::rank;
use crate::rank::Ranked;
use crate::text;

verus! {

/// Records beyond these caps are pruned, lowest count first, at save time.
pub const MAX_ENTRIES: usize = 4000;

pub const MAX_BIGRAMS: usize = 4000;

/// How many follow-up suggestions are shown.
pub const MAX_SUGGESTIONS: usize = 6;

/// The model of an optional text.
pub open spec fn opt_view(o: Option<&str>) -> Option<Seq<char>> {
    match o {
        Some(s) => Some(s@),
        None => None,
    }
}

/// The model of the memory.
#[verifier::ext_equal]
pub struct UserV {
    /// Pinyin (lower case) with the words picked for it.
    pub entries: TableV,
    /// Words with the words that followed them.
    pub bigrams: TableV,
    /// Whether something was recorded since the last save.
    pub dirty: bool,
}

/// Matches are ordered by how much of the run they cover, then by count.
pub open spec fn match_key() -> spec_fn((int, Seq<char>, int)) -> (int, int) {
    |m: (int, Seq<char>, int)| (m.0, m.2)
}

/// The words of one list as matches that cover `k` characters.
pub open spec fn matches_of(k: int, l: Seq<(Seq<char>, int)>) -> Seq<(int, Seq<char>, int)> {
    Seq::new(l.len(), |i: int| (k, l[i].0, l[i].1))
}

/// The two best words of each of the first `k` prefixes of a run.
pub open spec fn gathered(t: TableV, run: Seq<char>, k: int) -> Seq<(int, Seq<char>, int)>
    decreases k,
{
    if k <= 0 {
        Seq::empty()
    } else {
        gathered(t, run, k - 1) + matches_of(k, rank::cut(t.list(run.take(k)), 2))
    }
}

impl UserV {
    /// Tables in shape, and pick counts that fit.
    pub open spec fn wf(self) -> bool {
        &&& self.entries.wf()
        &&& self.bigrams.wf()
        &&& forall|w: Seq<char>| #[trigger] self.entries.total(w) <= u32::MAX
    }

    /// The memory of a user who picked nothing yet.
    pub open spec fn empty() -> UserV {
        UserV { entries: TableV::empty(), bigrams: TableV::empty(), dirty: false }
    }

    /// How often a word was picked, whatever the pinyin.
    pub open spec fn count(self, w: Seq<char>) -> int {
        self.entries.total(w)
    }

    /// The memory after `word` was picked for `pinyin`, right after `prev`.
    pub open spec fn picked(self, pinyin: Seq<char>, word: Seq<char>, prev: Option<Seq<char>>) -> UserV {
        if picks::is_clean(pinyin) && picks::is_clean(word) {
            UserV {
                entries: self.entries.bumped(text::lowered(pinyin), word, 1),
                bigrams: if prev is Some && picks::is_clean(prev->0) {
                    self.bigrams.bumped(prev->0, word, 1)
                } else {
                    self.bigrams
                },
                dirty: true,
            }
        } else {
            self
        }
    }

    /// Whether the counts that a pick adds to can grow.
    pub open spec fn room_for_pick(self, pinyin: Seq<char>, word: Seq<char>, prev: Option<Seq<char>>) -> bool {
        picks::is_clean(pinyin) && picks::is_clean(word) ==> {
            &&& self.count(word) < u32::MAX
            &&& prev is Some && picks::is_clean(prev->0) ==> self.bigrams.count(prev->0, word) < u32::MAX
        }
    }

    /// The memory after `word` was typed right after `prev`.
    pub open spec fn followed(self, prev: Seq<char>, word: Seq<char>) -> UserV {
        if picks::is_clean(prev) && picks::is_clean(word) {
            UserV { bigrams: self.bigrams.bumped(prev, word, 1), dirty: true, ..self }
        } else {
            self
        }
    }

    /// Whether the count that a follow adds to can grow.
    pub open spec fn room_for_follow(self, prev: Seq<char>, word: Seq<char>) -> bool {
        picks::is_clean(prev) && picks::is_clean(word) ==> self.bigrams.count(prev, word) < u32::MAX
    }

    /// The picks remembered for prefixes of a run: the longest prefixes first,
    /// then the highest counts, at most four.
    pub open spec fn prefix_matches(self, run: Seq<char>) -> Seq<(int, Seq<char>, int)> {
        if vstd::utf8::is_ascii_chars(run) {
            rank::cut(rank::ranked(gathered(self.entries, run, run.len() as int), match_key()), 4)
        } else {
            Seq::empty()
        }
    }

    /// The words that most often followed `prev`.
    pub open spec fn suggestions(self, prev: Seq<char>) -> Seq<Seq<char>> {
        let l = rank::cut(self.bigrams.list(prev), MAX_SUGGESTIONS as int);
        Seq::new(l.len(), |i: int| l[i].0)
    }

    /// The memory within the caps.
    pub open spec fn pruned(self) -> UserV {
        UserV {
            entries: self.entries.pruned(MAX_ENTRIES as int),
            bigrams: self.bigrams.pruned(MAX_BIGRAMS as int),
            ..self
        }
    }

    /// The lines that keep the memory.
    pub open spec fn saved_lines(self) -> Seq<Seq<char>> {
        rows_lines('e', self.entries.rows()) + rows_lines('b', self.bigrams.rows())
    }

    /// The text that keeps the memory.
    pub open spec fn saved(self) -> Seq<char> {
        text::joined(self.saved_lines())
    }
}

/// The line of a record.
pub open spec fn row_line(tag: char, r: RowV) -> Seq<char> {
    ((seq![tag].push('\t') + r.key).push('\t') + r.word).push('\t') + text::decimal(r.count as nat)
}

/// The lines of records.
pub open spec fn rows_lines(tag: char, rows: Seq<RowV>) -> Seq<Seq<char>> {
    Seq::new(rows.len(), |i: int| row_line(tag, rows[i]))
}

/// The record that a line keeps: `true` with a pick, `false` with a follow pair.
pub open spec fn record_of(line: Seq<char>) -> Option<(bool, RowV)> {
    let f = text::split(line, '\t');
    if f.len() >= 4 && (f[0] == seq!['e'] || f[0] == seq!['b']) && picks::is_clean(f[1]) && picks::is_clean(f[2])
        && text::number_in(f[3], u32::MAX as int) is Some {
        Some(
            (
                f[0] == seq!['e'],
                RowV { key: f[1], word: f[2], count: text::number_in(f[3], u32::MAX as int)->0 },
            ),
        )
    } else {
        None
    }
}

/// The records of one kind that lines keep.
pub open spec fn records_in(ls: Seq<Seq<char>>, picks: bool) -> Seq<RowV>
    decreases ls.len(),
{
    if ls.len() == 0 {
        Seq::empty()
    } else {
        let head = records_in(ls.drop_last(), picks);
        match record_of(ls.last()) {
            Some((kind, row)) => if kind == picks {
                head.push(row)
            } else {
                head
            },
            None => head,
        }
    }
}

/// Whether every sum over the records of a text fits.
pub open spec fn sums_fit(ls: Seq<Seq<char>>) -> bool {
    &&& forall|w: Seq<char>| #[trigger] picks::rows_total(records_in(ls, true), w) <= u32::MAX
    &&& forall|k: Seq<char>, w: Seq<char>| #[trigger] picks::rows_count(records_in(ls, false), k, w) <= u32::MAX
}

/// What was saved is what the next load sees: the text that keeps the memory is
/// read back as the same records, and their sums fit.
pub proof fn law_saved_is_loaded(d: UserV)
    requires
        d.wf(),
    ensures
        TableV::build(records_in(text::lines_of(d.saved()), true)) == d.entries,
        TableV::build(records_in(text::lines_of(d.saved()), false)) == d.bigrams,
        sums_fit(text::lines_of(d.saved())),
{
    let e = d.entries.rows();
    let b = d.bigrams.rows();
    let ls = d.saved_lines();
    picks::lemma_rows_ok(d.entries);
    picks::lemma_rows_ok(d.bigrams);
    assert forall|i: int| 0 <= i < ls.len() implies text::plain_line(#[trigger] ls[i]) by {
        if i < e.len() {
            assert(picks::is_clean(e[i].key));
            lemma_row_line('e', e[i]);
        } else {
            assert(picks::is_clean(b[i - e.len()].key));
            lemma_row_line('b', b[i - e.len()]);
        }
    }
    text::lemma_lines_of_joined(ls);
    lemma_records_of_lines(e, b, b.len() as int);
    assert(b.take(b.len() as int) =~= b);
    picks::law_rebuilt_from_rows(d.entries);
    picks::law_rebuilt_from_rows(d.bigrams);
    assert forall|k: Seq<char>, w: Seq<char>| #[trigger] picks::rows_count(b, k, w) <= u32::MAX by {
        picks::lemma_rows_count_of_table(d.bigrams, k, w);
    }
    assert forall|k: Seq<char>, w: Seq<char>| #[trigger] picks::rows_count(e, k, w) <= u32::MAX by {
        picks::lemma_rows_count_of_table(d.entries, k, w);
    }
    picks::lemma_build(e);
    assert forall|w: Seq<char>| #[trigger] picks::rows_total(e, w) <= u32::MAX by {
        assert(TableV::build(e).total(w) == picks::rows_total(e, w));
        assert(d.entries.total(w) <= u32::MAX);
    }
}

/// The line of a clean record is plain and is read back as the record.
proof fn lemma_row_line(tag: char, r: RowV)
    requires
        tag == 'e' || tag == 'b',
        picks::is_clean(r.key),
        picks::is_clean(r.word),
        0 <= r.count <= u32::MAX,
    ensures
        text::plain_line(row_line(tag, r)),
        record_of(row_line(tag, r)) == Some((tag == 'e', r)),
{
    let d = text::decimal(r.count as nat);
    let a = seq![tag];
    let b = a.push('\t') + r.key;
    let c = b.push('\t') + r.word;
    let line = row_line(tag, r);
    text::lemma_decimal_value(r.count as nat);
    text::lemma_decimal_round_trip(r.count as nat, u32::MAX as int);
    assert(text::is_digit(d[d.len() - 1]));
    assert forall|i: int| 0 <= i < d.len() implies #[trigger] d[i] != '\t' && d[i] != '\n' by {
        assert(text::is_digit(d[i]));
    }
    assert(line.last() == d.last());
    assert(!line.contains('\n')) by {
        if line.contains('\n') {
            let i = choose|i: int| 0 <= i < line.len() && line[i] == '\n';
            let n1 = 2 + r.key.len();
            let n2 = n1 + 1 + r.word.len();
            if i < 2 {
            } else if i < n1 {
                assert(r.key[i - 2] == '\n');
            } else if i == n1 {
            } else if i < n2 {
                assert(r.word[i - n1 - 1] == '\n');
            } else if i == n2 {
            } else {
                assert(d[i - n2 - 1] == '\n');
            }
        }
    }
    text::lemma_split_single(a, '\t');
    text::lemma_split_single(r.key, '\t');
    text::lemma_split_single(r.word, '\t');
    text::lemma_split_single(d, '\t');
    text::lemma_split_join(a, r.key, '\t');
    text::lemma_split_join(b, r.word, '\t');
    text::lemma_split_join(c, d, '\t');
    assert(text::split(line, '\t') =~= seq![a, r.key, r.word, d]);
    assert(a =~= seq!['e'] || a =~= seq!['b']);
    assert(seq!['b'][0] != seq!['e'][0]);
}

proof fn lemma_records_of_lines(e: Seq<RowV>, b: Seq<RowV>, n: int)
    requires
        picks::rows_ok(e),
        picks::rows_ok(b),
        0 <= n <= b.len(),
    ensures
        records_in(rows_lines('e', e) + rows_lines('b', b.take(n)), true) == e,
        records_in(rows_lines('e', e) + rows_lines('b', b.take(n)), false) == b.take(n),
    decreases e.len() + n,
{
    let ls = rows_lines('e', e) + rows_lines('b', b.take(n));
    if n > 0 {
        lemma_records_of_lines(e, b, n - 1);
        assert(ls.drop_last() =~= rows_lines('e', e) + rows_lines('b', b.take(n - 1)));
        assert(ls.last() == row_line('b', b[n - 1]));
        assert(picks::is_clean(b[n - 1].key));
        lemma_row_line('b', b[n - 1]);
        assert(b.take(n) =~= b.take(n - 1).push(b[n - 1]));
    } else if e.len() > 0 {
        let f = e.drop_last();
        assert forall|i: int| 0 <= i < f.len() implies picks::is_clean((#[trigger] f[i]).key) && picks::is_clean(f[i].word) && 0
            <= f[i].count <= u32::MAX by {
            assert(f[i] == e[i]);
        }
        lemma_records_of_lines(f, b, 0);
        assert(ls.drop_last() =~= rows_lines('e', f) + rows_lines('b', b.take(0)));
        assert(e[e.len() - 1] == e.last());
        assert(ls.last() == row_line('e', e.last()));
        assert(picks::is_clean(e[e.len() - 1].key));
        lemma_row_line('e', e.last());
        assert(e =~= f.push(e.last()));
    } else {
        assert(ls =~= Seq::<Seq<char>>::empty());
        assert(e =~= Seq::<RowV>::empty());
        assert(b.take(0) =~= Seq::<RowV>::empty());
    }
}

/// Every record that lines keep is clean and fits.
proof fn lemma_records_ok(ls: Seq<Seq<char>>, kind: bool)
    ensures
        picks::rows_ok(records_in(ls, kind)),
    decreases ls.len(),
{
    if ls.len() > 0 {
        lemma_records_ok(ls.drop_last(), kind);
        let head = records_in(ls.drop_last(), kind);
        let r = records_in(ls, kind);
        if let Some((k, row)) = record_of(ls.last()) {
            let t = text::unsigned_part(text::split(ls.last(), '\t')[3]);
            text::lemma_value_nonneg(t);
        }
        assert forall|i: int| 0 <= i < r.len() implies picks::is_clean((#[trigger] r[i]).key) && picks::is_clean(r[i].word) && 0
            <= r[i].count <= u32::MAX by {
            if i < head.len() {
                assert(r[i] == head[i]);
            }
        }
    }
}

/// A clean text stays clean in lower case.
pub proof fn lemma_lowered_clean(s: Seq<char>)
    requires
        picks::is_clean(s),
    ensures
        picks::is_clean(text::lowered(s)),
{
    let l = text::lowered(s);
    assert forall|i: int| 0 <= i < l.len() implies #[trigger] l[i] != '\t' && l[i] != '\n' && l[i] != '\r' by {
        assert(l[i] == text::lower_char(s[i]));
        assert(s.contains(s[i]));
    }
}

/// A pick keeps the memory in shape.
pub proof fn lemma_picked_wf(d: UserV, pinyin: Seq<char>, word: Seq<char>, prev: Option<Seq<char>>)
    requires
        d.wf(),
        d.room_for_pick(pinyin, word, prev),
    ensures
        d.picked(pinyin, word, prev).wf(),
{
    if picks::is_clean(pinyin) && picks::is_clean(word) {
        let t = d.entries;
        let key = text::lowered(pinyin);
        let r = d.picked(pinyin, word, prev);
        lemma_lowered_clean(pinyin);
        picks::lemma_total_at_least(t, key, word);
        picks::lemma_table_bumped_wf(t, key, word, 1);
        if prev is Some && picks::is_clean(prev->0) {
            picks::lemma_table_bumped_wf(d.bigrams, prev->0, word, 1);
        }
        assert forall|w: Seq<char>| #[trigger] r.entries.total(w) <= u32::MAX by {
            picks::lemma_table_bumped_total(t, key, word, 1, w);
            assert(t.total(w) <= u32::MAX);
        }
    }
}

/// A pick counts once: the count of its word grows by one, and no other count
/// of a word changes.
pub proof fn law_a_pick_counts_once(d: UserV, pinyin: Seq<char>, word: Seq<char>, prev: Option<Seq<char>>, w: Seq<char>)
    requires
        d.wf(),
        d.room_for_pick(pinyin, word, prev),
        picks::is_clean(pinyin),
        picks::is_clean(word),
    ensures
        d.picked(pinyin, word, prev).wf(),
        d.picked(pinyin, word, prev).count(w) == d.count(w) + if w == word {
            1int
        } else {
            0
        },
{
    lemma_picked_wf(d, pinyin, word, prev);
    picks::lemma_table_bumped_total(d.entries, text::lowered(pinyin), word, 1, w);
}

/// A follow pick changes no count of a word.
pub proof fn law_follows_do_not_count(d: UserV, prev: Seq<char>, word: Seq<char>, w: Seq<char>)
    ensures
        d.followed(prev, word).count(w) == d.count(w),
{
}

/// A memory within the caps is in shape.
pub proof fn lemma_pruned_wf(d: UserV)
    requires
        d.wf(),
    ensures
        d.pruned().wf(),
{
    picks::law_pruned(d.entries, MAX_ENTRIES as int);
    picks::law_pruned(d.bigrams, MAX_BIGRAMS as int);
    assert forall|w: Seq<char>| #[trigger] d.pruned().entries.total(w) <= u32::MAX by {
        assert(d.entries.total(w) <= u32::MAX);
    }
}

/// Memory and disk stay in sync: a save leaves in memory what the next load of
/// its text gives, within the caps.
pub proof fn law_memory_and_disk_stay_in_sync(d: UserV)
    requires
        d.wf(),
    ensures
        ({
            let ls = text::lines_of(d.pruned().saved());
            &&& sums_fit(ls)
            &&& TableV::build(records_in(ls, true)) == d.pruned().entries
            &&& TableV::build(records_in(ls, false)) == d.pruned().bigrams
        }),
        d.pruned().entries.rows().len() <= MAX_ENTRIES,
        d.pruned().bigrams.rows().len() <= MAX_BIGRAMS,
{
    lemma_pruned_wf(d);
    law_saved_is_loaded(d.pruned());
    picks::law_pruned(d.entries, MAX_ENTRIES as int);
    picks::law_pruned(d.bigrams, MAX_BIGRAMS as int);
}

// ---------------------------------------------------------------------------
// The memory itself
// ---------------------------------------------------------------------------

/// Whether `s` can stand in a field of a record.
pub fn clean(s: &str) -> (r: bool)
    ensures
        r == picks::is_clean(s@),
{
    let v = text::chars_of(s);
    if v.len() == 0 {
        return false;
    }
    let mut i: usize = 0;
    while i < v.len()
        invariant
            0 <= i <= v@.len(),
            v@ == s@,
            forall|k: int| 0 <= k < i ==> #[trigger] s@[k] != '\t' && s@[k] != '\n' && s@[k] != '\r',
        decreases v@.len() - i,
    {
        if v[i] == '\t' || v[i] == '\n' || v[i] == '\r' {
            assert(s@.contains(s@[i as int]));
            return false;
        }
        i = i + 1;
    }
    true
}

impl<'a> Ranked for (usize, &'a str, u32) {
    open spec fn rank(&self) -> (int, int) {
        (self.0 as int, self.2 as int)
    }

    fn outranks(&self, other: &Self) -> (r: bool) {
        self.0 > other.0 || (self.0 == other.0 && self.2 > other.2)
    }
}

/// The models of a list of matches.
pub open spec fn matches_view(v: Seq<(usize, &str, u32)>) -> Seq<(int, Seq<char>, int)> {
    v.map_values(|m: (usize, &str, u32)| (m.0 as int, m.1@, m.2 as int))
}

/// The record that a line keeps.
fn parse_record(line: &str) -> (r: Option<(bool, Row)>)
    ensures
        match r {
            Some((kind, row)) => record_of(line@) == Some((kind, row@)),
            None => record_of(line@) is None,
        },
{
    let f = text::split_on(line, '\t');
    let ghost fv = text::split(line@, '\t');
    if f.len() < 4 {
        return None;
    }
    let tag = text::chars_of(f[0].as_str());
    assert(tag@ == fv[0]);
    assert(f@[1]@ == fv[1] && f@[2]@ == fv[2] && f@[3]@ == fv[3]);
    if tag.len() != 1 || !(tag[0] == 'e' || tag[0] == 'b') {
        proof {
            if fv[0] == seq!['e'] || fv[0] == seq!['b'] {
                assert(fv[0].len() == 1);
                assert(fv[0][0] == 'e' || fv[0][0] == 'b');
            }
        }
        return None;
    }
    let kind = tag[0] == 'e';
    assert(fv[0] =~= seq![tag@[0]]);
    assert(kind == (fv[0] == seq!['e'])) by {
        if fv[0] == seq!['e'] {
            assert(fv[0][0] == 'e');
        }
    }
    if !clean(f[1].as_str()) || !clean(f[2].as_str()) {
        return None;
    }
    match text::parse_number(f[3].as_str(), 0xffff_ffff) {
        Some(n) => {
            assert(n <= u32::MAX) by {
                assert(text::number_in(fv[3], u32::MAX as int) == Some(n as int));
            }
            Some((kind, Row { key: f[1].clone(), word: f[2].clone(), count: n as u32 }))
        },
        None => None,
    }
}

/// The pick count that a map of counts gives a word.
spec fn count_or_zero(m: Map<Seq<char>, u32>, w: Seq<char>) -> int {
    if m.contains_key(w) {
        m[w] as int
    } else {
        0
    }
}

/// The pick counts of records; `None` if one does not fit.
fn tally(rows: &Vec<Row>) -> (r: Option<StringHashMap<u32>>)
    requires
        picks::rows_ok(picks::rows_view(rows@)),
    ensures
        match r {
            Some(m) => {
                &&& forall|w: Seq<char>| #[trigger] count_or_zero(m@, w) == picks::rows_total(picks::rows_view(rows@), w)
                &&& forall|w: Seq<char>| #[trigger] m@.contains_key(w) <==> picks::rows_hold(picks::rows_view(rows@), w)
                &&& m@.is_empty() <==> rows@.len() == 0
            },
            None => exists|w: Seq<char>| #[trigger] picks::rows_total(picks::rows_view(rows@), w) > u32::MAX,
        },
{
    let ghost f = picks::rows_view(rows@);
    let mut m: StringHashMap<u32> = StringHashMap::new();
    let mut i: usize = 0;
    assert(f.take(0) =~= Seq::<RowV>::empty());
    while i < rows.len()
        invariant
            0 <= i <= rows@.len(),
            f == picks::rows_view(rows@),
            picks::rows_ok(f),
            forall|w: Seq<char>| #[trigger] count_or_zero(m@, w) == picks::rows_total(f.take(i as int), w),
            forall|w: Seq<char>| #[trigger] m@.contains_key(w) <==> picks::rows_hold(f.take(i as int), w),
            m@.is_empty() <==> i == 0,
        decreases rows@.len() - i,
    {
        let row = &rows[i];
        let ghost before = m@;
        proof {
            assert(f[i as int] == row@);
            assert(f.take(i + 1).drop_last() =~= f.take(i as int));
            assert(f.take(i + 1).last() == row@);
            assert(count_or_zero(before, row.word@) == picks::rows_total(f.take(i as int), row.word@));
        }
        let have: u32 = match m.get(row.word.as_str()) {
            Some(n) => *n,
            None => 0,
        };
        if have > u32::MAX - row.count {
            proof {
                assert forall|j: int| 0 <= j < f.len() implies 0 <= (#[trigger] f[j]).count by {
                    assert(picks::is_clean(f[j].key));
                }
                picks::lemma_rows_grow(f, i + 1, row.key@, row.word@);
                assert(picks::rows_total(f, row.word@) > u32::MAX);
            }
            return None;
        }
        m.insert(row.word.clone(), have + row.count);
        proof {
            assert forall|w: Seq<char>| #[trigger] count_or_zero(m@, w) == picks::rows_total(f.take(i + 1), w) by {
                assert(count_or_zero(before, w) == picks::rows_total(f.take(i as int), w));
            }
            let g = f.take(i + 1);
            assert forall|w: Seq<char>| #[trigger] m@.contains_key(w) <==> picks::rows_hold(g, w) by {
                assert(before.contains_key(w) <==> picks::rows_hold(f.take(i as int), w));
                if picks::rows_hold(g, w) && w != row.word@ {
                    let j = choose|j: int| 0 <= j < g.len() && (#[trigger] g[j]).word == w;
                    assert(f.take(i as int)[j].word == w);
                }
                if picks::rows_hold(f.take(i as int), w) {
                    let j = choose|j: int| 0 <= j < f.take(i as int).len() && (#[trigger] f.take(i as int)[j]).word == w;
                    assert(g[j].word == w);
                }
                if w == row.word@ {
                    assert(g[i as int].word == w);
                }
            }
            assert(m@.dom().contains(row.word@));
            assert(!m@.is_empty());
        }
        i = i + 1;
    }
    assert(f.take(f.len() as int) =~= f);
    Some(m)
}

/// Per-user memory of picks and follow pairs.
pub struct UserDict {
    entries: PickTable,
    counts: StringHashMap<u32>,
    bigrams: PickTable,
    dirty: bool,
}

impl View for UserDict {
    type V = UserV;

    closed spec fn view(&self) -> UserV {
        UserV { entries: self.entries@, bigrams: self.bigrams@, dirty: self.dirty }
    }
}

impl Default for UserDict {
    /// The memory of a user who picked nothing yet.
    fn default() -> (r: UserDict)
        ensures
            r.wf(),
            r@ == UserV::empty(),
    {
        let r = UserDict {
            entries: PickTable::new(),
            counts: StringHashMap::new(),
            bigrams: PickTable::new(),
            dirty: false,
        };
        assert forall|w: Seq<char>| #[trigger] r@.entries.total(w) == 0 by {}
        r
    }
}

impl UserDict {
    /// The memory is in shape, and the pick counts are those of the records:
    /// each word of a record has its count, and no other word has one.
    pub closed spec fn wf(&self) -> bool {
        &&& self@.wf()
        &&& forall|w: Seq<char>| #[trigger] count_or_zero(self.counts@, w) == self@.entries.total(w)
        &&& forall|w: Seq<char>| #[trigger] self.counts@.contains_key(w) <==> self@.entries.holds(w)
        &&& self.counts@.is_empty() <==> self@.entries.order.len() == 0
    }

    /// What `wf` says of the model.
    pub proof fn lemma_wf(&self)
        requires
            self.wf(),
        ensures
            self@.wf(),
    {
    }

    /// The memory that a text keeps; `None` if the counts of a text add up to
    /// more than a count can hold.
    pub fn load(text: &str) -> (r: Option<UserDict>)
        ensures
            r is Some <==> sums_fit(text::lines_of(text@)),
            r is Some ==> r->0.wf() && r->0@ == (UserV {
                entries: TableV::build(records_in(text::lines_of(text@), true)),
                bigrams: TableV::build(records_in(text::lines_of(text@), false)),
                dirty: false,
            }),
    {
        let ls = text::lines(text);
        let ghost lv = text::lines_of(text@);
        let mut e: Vec<Row> = Vec::new();
        let mut b: Vec<Row> = Vec::new();
        let mut i: usize = 0;
        proof {
            assert(lv.take(0) =~= Seq::<Seq<char>>::empty());
            assert(picks::rows_view(e@) =~= Seq::<RowV>::empty());
            assert(picks::rows_view(b@) =~= Seq::<RowV>::empty());
        }
        while i < ls.len()
            invariant
                0 <= i <= ls@.len(),
                lv == text::views(ls@),
                picks::rows_view(e@) == records_in(lv.take(i as int), true),
                picks::rows_view(b@) == records_in(lv.take(i as int), false),
            decreases ls@.len() - i,
        {
            let ghost e0 = picks::rows_view(e@);
            let ghost b0 = picks::rows_view(b@);
            proof {
                assert(lv.take(i + 1).drop_last() =~= lv.take(i as int));
                assert(lv.take(i + 1).last() == ls@[i as int]@);
            }
            match parse_record(ls[i].as_str()) {
                Some((kind, row)) => {
                    if kind {
                        e.push(row);
                        assert(picks::rows_view(e@) =~= e0.push(row@));
                    } else {
                        b.push(row);
                        assert(picks::rows_view(b@) =~= b0.push(row@));
                    }
                },
                None => {},
            }
            i = i + 1;
        }
        proof {
            assert(lv.take(lv.len() as int) =~= lv);
            lemma_records_ok(lv, true);
            lemma_records_ok(lv, false);
        }
        let ghost er = picks::rows_view(e@);
        let ghost br = picks::rows_view(b@);
        let counts = match tally(&e) {
            Some(m) => m,
            None => {
                return None;
            },
        };
        proof {
            assert forall|j: int| 0 <= j < er.len() implies 0 <= (#[trigger] er[j]).count by {
                assert(picks::is_clean(er[j].key));
            }
            assert forall|w: Seq<char>| #[trigger] picks::rows_total(er, w) <= u32::MAX by {
                assert(count_or_zero(counts@, w) == picks::rows_total(er, w));
            }
            assert forall|k: Seq<char>, w: Seq<char>| #[trigger] picks::rows_count(er, k, w) <= u32::MAX by {
                picks::lemma_rows_grow(er, 0, k, w);
                assert(picks::rows_total(er, w) <= u32::MAX);
            }
            picks::lemma_build(er);
        }
        let entries = match PickTable::build(&e) {
            Some(t) => t,
            None => {
                return None;
            },
        };
        let bigrams = match PickTable::build(&b) {
            Some(t) => t,
            None => {
                return None;
            },
        };
        proof {
            assert forall|w: Seq<char>| #[trigger] count_or_zero(counts@, w) == entries@.total(w) by {
                assert(entries@.total(w) == picks::rows_total(er, w));
            }
            assert forall|w: Seq<char>| #[trigger] counts@.contains_key(w) <==> entries@.holds(w) by {
                picks::lemma_build_holds(er, w);
            }
            picks::lemma_build_empty(er);
        }
        Some(UserDict { entries, counts, bigrams, dirty: false })
    }

    /// Derives the pick counts from the records again.
    fn rebuild_counts(&mut self)
        requires
            old(self)@.wf(),
        ensures
            final(self).wf(),
            final(self)@ == old(self)@,
    {
        let rows = self.entries.rows();
        let ghost f = picks::rows_view(rows@);
        proof {
            picks::lemma_rows_ok(self@.entries);
            picks::law_rebuilt_from_rows(self@.entries);
            assert forall|k: Seq<char>, w: Seq<char>| #[trigger] picks::rows_count(f, k, w) <= u32::MAX by {
                picks::lemma_rows_count_of_table(self@.entries, k, w);
            }
            picks::lemma_build(f);
            picks::lemma_build_empty(f);
        }
        match tally(&rows) {
            Some(m) => {
                proof {
                    assert forall|w: Seq<char>| #[trigger] count_or_zero(m@, w) == self@.entries.total(w) by {
                        assert(TableV::build(f).total(w) == picks::rows_total(f, w));
                    }
                    assert forall|w: Seq<char>| #[trigger] m@.contains_key(w) <==> self@.entries.holds(w) by {
                        picks::lemma_build_holds(f, w);
                    }
                }
                self.counts = m;
            },
            None => {
                proof {
                    let w = choose|w: Seq<char>| #[trigger] picks::rows_total(f, w) > u32::MAX;
                    assert(TableV::build(f).total(w) == picks::rows_total(f, w));
                    assert(self@.entries.total(w) <= u32::MAX);
                }
            },
        }
    }

    /// True when the user has no pick history yet.
    pub fn is_untrained(&self) -> (r: bool)
        requires
            self.wf(),
        ensures
            r == (self@.entries.order.len() == 0),
    {
        self.counts.is_empty()
    }

    /// Total pick count of a word.
    pub fn count(&self, word: &str) -> (r: u32)
        requires
            self.wf(),
        ensures
            r == self@.count(word@),
    {
        assert(count_or_zero(self.counts@, word@) == self@.entries.total(word@));
        match self.counts.get(word) {
            Some(n) => *n,
            None => 0,
        }
    }

    /// Whether the counts that a pick adds to can grow.
    pub fn has_room_for_pick(&self, pinyin: &str, word: &str, prev: Option<&str>) -> (r: bool)
        requires
            self.wf(),
        ensures
            r == self@.room_for_pick(pinyin@, word@, opt_view(prev)),
    {
        if !clean(pinyin) || !clean(word) {
            return true;
        }
        if self.count(word) == u32::MAX {
            return false;
        }
        match prev {
            Some(p) => !clean(p) || self.bigrams.count_of(p, word) < u32::MAX,
            None => true,
        }
    }

    /// Records a candidate pick: `pinyin` produced `word`, right after `prev`.
    /// Texts that are not clean are not recorded.
    pub fn record_pick(&mut self, pinyin: &str, word: &str, prev: Option<&str>)
        requires
            old(self).wf(),
            old(self)@.room_for_pick(pinyin@, word@, opt_view(prev)),
        ensures
            final(self).wf(),
            final(self)@ == old(self)@.picked(pinyin@, word@, opt_view(prev)),
    {
        if !clean(pinyin) || !clean(word) {
            return;
        }
        let key = text::to_lower(pinyin);
        let ghost t = self@.entries;
        let ghost counts0 = self.counts@;
        proof {
            lemma_lowered_clean(pinyin@);
            picks::lemma_total_at_least(t, key@, word@);
            picks::lemma_table_bumped_wf(t, key@, word@, 1);
            assert forall|w: Seq<char>| #[trigger] t.bumped(key@, word@, 1).total(w) == t.total(w) + if w == word@ {
                1int
            } else {
                0
            } by {
                picks::lemma_table_bumped_total(t, key@, word@, 1, w);
            }
        }
        let n: u32 = self.count(word);
        self.entries.bump(key.as_str(), word, 1);
        self.counts.insert(text::copy_of(word), n + 1);
        match prev {
            Some(p) => {
                if clean(p) {
                    proof {
                        picks::lemma_table_bumped_wf(self.bigrams@, p@, word@, 1);
                    }
                    self.bigrams.bump(p, word, 1);
                }
            },
            None => {},
        }
        self.dirty = true;
        proof {
            assert forall|w: Seq<char>| #[trigger] self@.entries.total(w) <= u32::MAX by {
                assert(t.total(w) <= u32::MAX);
            }
            assert forall|w: Seq<char>| #[trigger] count_or_zero(self.counts@, w) == self@.entries.total(w) by {
                assert(count_or_zero(counts0, w) == t.total(w));
            }
            assert forall|w: Seq<char>| #[trigger] self.counts@.contains_key(w) <==> self@.entries.holds(w) by {
                picks::lemma_table_bumped_holds(t, key@, word@, 1, w);
                assert(counts0.contains_key(w) <==> t.holds(w));
            }
            assert(self.counts@.dom().contains(word@));
            assert(!self.counts@.is_empty());
            if t.lists.contains_key(key@) {
                assert(t.order.contains(key@));
            }
        }
    }

    /// Past picks whose pinyin is a prefix of `run`, with how much of the run
    /// they cover and how often they were picked.
    pub fn prefix_matches(&self, run: &str) -> (r: Vec<(usize, &str, u32)>)
        requires
            self.wf(),
        ensures
            matches_view(r@) == self@.prefix_matches(run@),
    {
        let mut out: Vec<(usize, &str, u32)> = Vec::new();
        if !run.is_ascii() {
            assert(matches_view(out@) =~= Seq::<(int, Seq<char>, int)>::empty());
            return out;
        }
        let n: usize = run.unicode_len();
        let ghost t = self@.entries;
        let mut k: usize = 0;
        assert(matches_view(out@) =~= Seq::<(int, Seq<char>, int)>::empty());
        while k < n
            invariant
                0 <= k <= n,
                n == run@.len(),
                run.is_ascii(),
                t == self@.entries,
                matches_view(out@) == gathered(t, run@, k as int),
            decreases n - k,
        {
            let ghost done = matches_view(out@);
            let prefix = run.substring_ascii(0, k + 1);
            assert(prefix@ =~= run@.take(k + 1));
            let ghost l = t.list(run@.take(k + 1));
            match self.entries.get(prefix) {
                Some(v) => {
                    let m: usize = if v.len() < 2 { v.len() } else { 2 };
                    let ghost fl = rank::cut(l, 2);
                    let mut i: usize = 0;
                    assert(done + matches_of(k + 1, fl).take(0) =~= done);
                    while i < m
                        invariant
                            0 <= i <= m <= v@.len(),
                            m == fl.len(),
                            k < n,
                            l == picks::picks(v@),
                            fl == rank::cut(l, 2),
                            matches_view(out@) == done + matches_of(k + 1, fl).take(i as int),
                        decreases m - i,
                    {
                        let ghost before = matches_view(out@);
                        let ghost all = matches_of(k + 1, fl);
                        out.push((k + 1, v[i].0.as_str(), v[i].1));
                        assert(l[i as int] == (v@[i as int].0@, v@[i as int].1 as int));
                        assert(matches_view(out@) =~= before.push(all[i as int]));
                        assert(all.take(i + 1) =~= all.take(i as int).push(all[i as int]));
                        assert(matches_view(out@) =~= done + all.take(i + 1));
                        i = i + 1;
                    }
                    assert(matches_of(k + 1, fl).take(fl.len() as int) =~= matches_of(k + 1, fl));
                },
                None => {
                    assert(done + matches_of(k + 1, rank::cut(l, 2)) =~= done);
                },
            }
            k = k + 1;
        }
        let ghost a = out@;
        let mut sorted = rank::by_rank(out);
        proof {
            let f = |m: (usize, &str, u32)| (m.0 as int, m.1@, m.2 as int);
            rank::lemma_ranked_map(a, f, rank::rank_key::<(usize, &str, u32)>(), match_key());
            assert(a.map_values(f) =~= matches_view(a));
            assert(sorted@.map_values(f) =~= matches_view(sorted@));
        }
        let ghost all = matches_view(sorted@);
        sorted.truncate(4);
        assert(matches_view(sorted@) =~= rank::cut(all, 4));
        sorted
    }

    /// Whether the count that a follow adds to can grow.
    pub fn has_room_for_follow(&self, prev: &str, word: &str) -> (r: bool)
        requires
            self.wf(),
        ensures
            r == self@.room_for_follow(prev@, word@),
    {
        !clean(prev) || !clean(word) || self.bigrams.count_of(prev, word) < u32::MAX
    }

    /// Records that `word` was typed right after `prev`. A 联想 pick has no
    /// pinyin, so pick counts stay as they are.
    pub fn record_follow(&mut self, prev: &str, word: &str)
        requires
            old(self).wf(),
            old(self)@.room_for_follow(prev@, word@),
        ensures
            final(self).wf(),
            final(self)@ == old(self)@.followed(prev@, word@),
    {
        if !clean(prev) || !clean(word) {
            return;
        }
        proof {
            picks::lemma_table_bumped_wf(self.bigrams@, prev@, word@, 1);
        }
        self.bigrams.bump(prev, word, 1);
        self.dirty = true;
    }

    /// Follow-up suggestions after `prev`, best first.
    pub fn suggestions(&self, prev: &str) -> (r: Vec<String>)
        requires
            self.wf(),
        ensures
            text::views(r@) == self@.suggestions(prev@),
    {
        let mut out: Vec<String> = Vec::new();
        let ghost l = rank::cut(self@.bigrams.list(prev@), MAX_SUGGESTIONS as int);
        let ghost words = self@.suggestions(prev@);
        match self.bigrams.get(prev) {
            Some(v) => {
                let m: usize = if v.len() < MAX_SUGGESTIONS { v.len() } else { MAX_SUGGESTIONS };
                let mut i: usize = 0;
                assert(text::views(out@) =~= words.take(0));
                while i < m
                    invariant
                        0 <= i <= m <= v@.len(),
                        m == l.len(),
                        l == rank::cut(picks::picks(v@), MAX_SUGGESTIONS as int),
                        words == Seq::new(l.len(), |i: int| l[i].0),
                        text::views(out@) == words.take(i as int),
                    decreases m - i,
                {
                    let ghost before = text::views(out@);
                    out.push(v[i].0.clone());
                    assert(l[i as int].0 == v@[i as int].0@);
                    assert(text::views(out@) =~= before.push(words[i as int]));
                    assert(words.take(i + 1) =~= words.take(i as int).push(words[i as int]));
                    i = i + 1;
                }
                assert(words.take(words.len() as int) =~= words);
            },
            None => {
                assert(text::views(out@) =~= words);
            },
        }
        out
    }

    /// Drops the records with the lowest counts until the caps hold.
    fn prune(&mut self)
        requires
            old(self).wf(),
        ensures
            final(self).wf(),
            final(self)@ == old(self)@.pruned(),
    {
        proof {
            lemma_pruned_wf(self@);
        }
        self.entries.prune(MAX_ENTRIES);
        self.bigrams.prune(MAX_BIGRAMS);
        self.rebuild_counts();
    }

    /// The text to save, if something was recorded since the last save. The
    /// memory is first pruned to the caps, so that it stays what the next load
    /// sees.
    pub fn save_if_dirty(&mut self) -> (r: Option<String>)
        requires
            old(self).wf(),
        ensures
            final(self).wf(),
            r is Some <==> old(self)@.dirty,
            r is None ==> final(self)@ == old(self)@,
            r is Some ==> final(self)@ == old(self)@.pruned() && r->0@ == old(self)@.pruned().saved(),
    {
        if !self.dirty {
            return None;
        }
        self.prune();
        let e = self.entries.rows();
        let b = self.bigrams.rows();
        let mut out = String::new();
        proof {
            picks::lemma_rows_ok(self@.entries);
            picks::lemma_rows_ok(self@.bigrams);
            assert(text::joined(Seq::<Seq<char>>::empty()) =~= Seq::<char>::empty());
        }
        push_rows(&mut out, 'e', &e, Ghost(Seq::empty()));
        assert(Seq::<Seq<char>>::empty() + rows_lines('e', self@.entries.rows()) =~= rows_lines(
            'e',
            self@.entries.rows(),
        ));
        push_rows(&mut out, 'b', &b, Ghost(rows_lines('e', self@.entries.rows())));
        Some(out)
    }

    /// Notes that the text was saved.
    pub fn mark_saved(&mut self)
        requires
            old(self).wf(),
        ensures
            final(self).wf(),
            final(self)@ == (UserV { dirty: false, ..old(self)@ }),
    {
        self.dirty = false;
    }
}

/// Appends the lines of records to a text that holds the lines `done`.
fn push_rows(out: &mut String, tag: char, rows: &Vec<Row>, Ghost(done): Ghost<Seq<Seq<char>>>)
    requires
        old(out)@ == text::joined(done),
    ensures
        final(out)@ == text::joined(done + rows_lines(tag, picks::rows_view(rows@))),
{
    let ghost f = picks::rows_view(rows@);
    let ghost ls = rows_lines(tag, f);
    let mut i: usize = 0;
    assert(done + ls.take(0) =~= done);
    while i < rows.len()
        invariant
            0 <= i <= rows@.len(),
            f == picks::rows_view(rows@),
            ls == rows_lines(tag, f),
            out@ == text::joined(done + ls.take(i as int)),
        decreases rows@.len() - i,
    {
        let ghost before = out@;
        let row = &rows[i];
        assert(f[i as int] == row@);
        out.push(tag);
        out.push('\t');
        out.append(row.key.as_str());
        out.push('\t');
        out.append(row.word.as_str());
        out.push('\t');
        text::push_number(out, row.count as u64);
        out.push('\n');
        proof {
            let now = done + ls.take(i + 1);
            assert(now.drop_last() =~= done + ls.take(i as int));
            assert(now.last() == row_line(tag, row@));
            assert(out@ =~= (before + row_line(tag, row@)).push('\n'));
        }
        i = i + 1;
    }
    assert(done + ls.take(ls.len() as int) =~= done + ls);
}

// ---------------------------------------------------------------------------
// What is remembered
// ---------------------------------------------------------------------------

/// A pick is remembered once, where it belongs: the count of its word under its
/// pinyin grows by one, the count of the word behind the previous one grows by
/// one, and no other count changes.
pub proof fn law_a_pick_is_counted_where_it_belongs(
    d: UserV,
    pinyin: Seq<char>,
    word: Seq<char>,
    prev: Option<Seq<char>>,
    k: Seq<char>,
    w: Seq<char>,
)
    requires
        picks::is_clean(pinyin),
        picks::is_clean(word),
    ensures
        d.picked(pinyin, word, prev).entries.count(k, w) == d.entries.count(k, w) + if k == text::lowered(pinyin) && w
            == word {
            1int
        } else {
            0
        },
        d.picked(pinyin, word, prev).bigrams.count(k, w) == d.bigrams.count(k, w) + if prev is Some && picks::is_clean(
            prev->0,
        ) && k == prev->0 && w == word {
            1int
        } else {
            0
        },
        d.picked(pinyin, word, prev).dirty,
{
    picks::lemma_table_bumped_count(d.entries, text::lowered(pinyin), word, 1, k, w);
    if prev is Some && picks::is_clean(prev->0) {
        picks::lemma_table_bumped_count(d.bigrams, prev->0, word, 1, k, w);
    }
}

/// A follow is remembered once: the count of its word behind the previous one
/// grows by one, and no other count changes.
pub proof fn law_a_follow_is_counted_once(d: UserV, prev: Seq<char>, word: Seq<char>, k: Seq<char>, w: Seq<char>)
    requires
        picks::is_clean(prev),
        picks::is_clean(word),
    ensures
        d.followed(prev, word).bigrams.count(k, w) == d.bigrams.count(k, w) + if k == prev && w == word {
            1int
        } else {
            0
        },
        d.followed(prev, word).entries == d.entries,
        d.followed(prev, word).dirty,
{
    picks::lemma_table_bumped_count(d.bigrams, prev, word, 1, k, w);
}

/// What would corrupt the records is not remembered: nothing changes where the
/// pinyin or the word is empty or holds a tab or a line end.
pub proof fn law_broken_texts_are_not_remembered(
    d: UserV,
    pinyin: Seq<char>,
    word: Seq<char>,
    prev: Option<Seq<char>>,
    c: char,
)
    requires
        c == '\t' || c == '\n' || c == '\r',
        pinyin.len() == 0 || word.len() == 0 || pinyin.contains(c) || word.contains(c),
    ensures
        d.picked(pinyin, word, prev) == d,
        d.followed(pinyin, word) == d,
{
}

/// Suggestions are the words that followed most often, best first: each was
/// typed behind the word, none twice, no later one more often than an earlier
/// one, and a word that is left out was not typed more often than any of them,
/// of which there are then six.
pub proof fn law_suggestions_are_the_most_frequent(d: UserV, prev: Seq<char>)
    requires
        d.wf(),
    ensures
        ({
            let s = d.suggestions(prev);
            &&& s.len() <= 6
            &&& s.no_duplicates()
            &&& forall|i: int| 0 <= i < s.len() ==> picks::in_list(d.bigrams.list(prev), #[trigger] s[i])
            &&& forall|i: int, j: int|
                0 <= i < j < s.len() ==> d.bigrams.count(prev, #[trigger] s[i]) >= d.bigrams.count(
                    prev,
                    #[trigger] s[j],
                )
            &&& forall|w: Seq<char>, i: int|
                d.bigrams.count(prev, w) > 0 && !s.contains(w) && 0 <= i < s.len() ==> s.len() == 6 && #[trigger] d.bigrams.count(
                    prev,
                    s[i],
                ) >= #[trigger] d.bigrams.count(prev, w)
            &&& forall|w: Seq<char>| #[trigger] d.bigrams.count(prev, w) > 0 && s.len() < 6 ==> s.contains(w)
        }),
{
    let l = d.bigrams.list(prev);
    let s = d.suggestions(prev);
    let c = rank::cut(l, 6);
    if d.bigrams.lists.contains_key(prev) {
        assert(picks::list_ok(l));
        picks::lemma_counts_of_list(l);
        assert forall|i: int| 0 <= i < s.len() implies s[i] == (#[trigger] l[i]).0 && d.bigrams.count(prev, s[i]) == l[i].1 by {}
        assert forall|i: int, j: int| 0 <= i < s.len() && 0 <= j < s.len() && i != j implies s[i] != s[j] by {
            if i < j {
                assert(l[i].0 != l[j].0);
            } else {
                assert(l[j].0 != l[i].0);
            }
        }
        assert forall|i: int, j: int| 0 <= i < j < s.len() implies d.bigrams.count(prev, #[trigger] s[i])
            >= d.bigrams.count(prev, #[trigger] s[j]) by {
            assert(!rank::above(picks::count_key()(l[j]), picks::count_key()(l[i])));
            assert(l[i].0 == s[i] && l[j].0 == s[j]);
        }
        assert forall|i: int| 0 <= i < s.len() implies picks::in_list(l, #[trigger] s[i]) by {
            assert(l[i].0 == s[i]);
        }
        assert forall|w: Seq<char>| #[trigger] d.bigrams.count(prev, w) > 0 && !s.contains(w) implies s.len() == 6
            && forall|i: int| 0 <= i < s.len() ==> #[trigger] d.bigrams.count(prev, s[i]) >= d.bigrams.count(prev, w) by {
            let m = choose|m: int| 0 <= m < l.len() && (#[trigger] l[m]).0 == w;
            if m < s.len() {
                assert(s[m] == w);
            }
            assert forall|i: int| 0 <= i < s.len() implies #[trigger] d.bigrams.count(prev, s[i]) >= d.bigrams.count(
                prev,
                w,
            ) by {
                assert(!rank::above(picks::count_key()(l[m]), picks::count_key()(l[i])));
                assert(l[i].0 == s[i]);
            }
        }
    }
}

proof fn lemma_gathered_members(t: TableV, run: Seq<char>, k: int, m: (int, Seq<char>, int))
    ensures
        gathered(t, run, k).contains(m) <==> 1 <= m.0 <= k && rank::cut(t.list(run.take(m.0)), 2).contains((m.1, m.2)),
    decreases k,
{
    if k > 0 {
        lemma_gathered_members(t, run, k - 1, m);
        let head = gathered(t, run, k - 1);
        let c = rank::cut(t.list(run.take(k)), 2);
        let b = matches_of(k, c);
        let g = gathered(t, run, k);
        if g.contains(m) {
            let i = choose|i: int| 0 <= i < g.len() && g[i] == m;
            if i < head.len() {
                assert(head[i] == m);
            } else {
                assert(b[i - head.len()] == m);
                assert(c[i - head.len()] == (m.1, m.2));
            }
        }
        if head.contains(m) {
            let i = choose|i: int| 0 <= i < head.len() && head[i] == m;
            assert(g[i] == m);
        }
        if m.0 == k && c.contains((m.1, m.2)) {
            let i = choose|i: int| 0 <= i < c.len() && c[i] == (m.1, m.2);
            assert(g[head.len() + i] == m);
        }
    }
}

proof fn lemma_least_char(c: char)
    ensures
        '\0' <= c,
{
}

/// Remembered picks for a run: each was picked for the first letters that it
/// covers, as often as it says; longer ones come first, and of one length those
/// picked more often; there are at most four. One that is left out has two others
/// for the same letters that were picked at least as often, or four before it.
/// A text that is not ASCII has none.
pub proof fn law_prefix_matches_are_the_best_picks(d: UserV, run: Seq<char>, k: int, w: Seq<char>, bad: int)
    requires
        d.wf(),
    ensures
        ({
            let ms = d.prefix_matches(run);
            let ascii = forall|i: int| 0 <= i < run.len() ==> #[trigger] run[i] <= '\u{7f}';
            let n = d.entries.count(run.take(k), w);
            &&& ms.len() <= 4
            &&& forall|i: int|
                0 <= i < ms.len() ==> 1 <= (#[trigger] ms[i]).0 <= run.len() && d.entries.count(run.take(ms[i].0), ms[i].1)
                    == ms[i].2 && picks::in_list(d.entries.list(run.take(ms[i].0)), ms[i].1)
            &&& forall|i: int, j: int|
                0 <= i < j < ms.len() ==> (#[trigger] ms[i]).0 > (#[trigger] ms[j]).0 || (ms[i].0 == ms[j].0 && ms[i].2
                    >= ms[j].2)
            &&& ascii && 1 <= k <= run.len() && picks::in_list(d.entries.list(run.take(k)), w) && !ms.contains((k, w, n))
                ==> {
                ||| exists|a: Seq<char>, b: Seq<char>|
                    a != b && a != w && b != w && #[trigger] d.entries.count(run.take(k), a) >= n && #[trigger] d.entries.count(
                        run.take(k),
                        b,
                    ) >= n
                ||| ms.len() == 4 && forall|i: int|
                    0 <= i < 4 ==> (#[trigger] ms[i]).0 > k || (ms[i].0 == k && ms[i].2 >= n)
            }
            &&& 0 <= bad < run.len() && run[bad] > '\u{7f}' ==> ms.len() == 0
        }),
{
    let t = d.entries;
    let ms = d.prefix_matches(run);
    let g = gathered(t, run, run.len() as int);
    let r = rank::ranked(g, match_key());
    rank::lemma_ranked_members(g, match_key());
    rank::lemma_ranked_descending(g, match_key());
    if vstd::utf8::is_ascii_chars(run) {
        assert forall|i: int| 0 <= i < ms.len() implies 1 <= (#[trigger] ms[i]).0 <= run.len() && t.count(
            run.take(ms[i].0),
            ms[i].1,
        ) == ms[i].2 && picks::in_list(t.list(run.take(ms[i].0)), ms[i].1) by {
            assert(ms[i] == r[i]);
            assert(g.contains(r[i]));
            lemma_gathered_members(t, run, run.len() as int, ms[i]);
            let l = t.list(run.take(ms[i].0));
            let c = rank::cut(l, 2);
            let x = choose|x: int| 0 <= x < c.len() && c[x] == (ms[i].1, ms[i].2);
            assert(l[x].0 == ms[i].1);
            assert(t.lists.contains_key(run.take(ms[i].0)));
            picks::lemma_counts_of_list(l);
        }
        assert forall|i: int, j: int| 0 <= i < j < ms.len() implies (#[trigger] ms[i]).0 > (#[trigger] ms[j]).0 || (
        ms[i].0 == ms[j].0 && ms[i].2 >= ms[j].2) by {
            assert(ms[i] == r[i] && ms[j] == r[j]);
            assert(!rank::above(match_key()(r[j]), match_key()(r[i])));
        }
        let n = t.count(run.take(k), w);
        let m = (k, w, n);
        if 1 <= k <= run.len() && picks::in_list(t.list(run.take(k)), w) && !ms.contains(m) {
            let l = t.list(run.take(k));
            assert(t.lists.contains_key(run.take(k)));
            picks::lemma_counts_of_list(l);
            let x = choose|x: int| 0 <= x < l.len() && (#[trigger] l[x]).0 == w;
            assert(l[x] == (w, n));
            if x >= 2 {
                assert(!rank::above(picks::count_key()(l[x]), picks::count_key()(l[0])));
                assert(!rank::above(picks::count_key()(l[x]), picks::count_key()(l[1])));
                assert(l[0].0 != l[1].0 && l[0].0 != l[x].0 && l[1].0 != l[x].0);
                assert(t.count(run.take(k), l[0].0) >= n && t.count(run.take(k), l[1].0) >= n);
            } else {
                let c = rank::cut(l, 2);
                assert(c[x] == (w, n));
                lemma_gathered_members(t, run, run.len() as int, m);
                assert(r.contains(m));
                let y = choose|y: int| 0 <= y < r.len() && r[y] == m;
                if y < ms.len() {
                    assert(ms[y] == m);
                }
                assert forall|i: int| 0 <= i < 4 implies (#[trigger] ms[i]).0 > k || (ms[i].0 == k && ms[i].2 >= n) by {
                    assert(ms[i] == r[i]);
                    assert(!rank::above(match_key()(r[y]), match_key()(r[i])));
                }
            }
        }
        if 0 <= bad < run.len() && run[bad] > '\u{7f}' {
            assert(false);
        }
    } else {
        if forall|i: int| 0 <= i < run.len() ==> #[trigger] run[i] <= '\u{7f}' {
            assert forall|i: int| 0 <= i < run.len() implies '\0' <= #[trigger] run[i] <= '\u{7f}' by {
                lemma_least_char(run[i]);
            }
            assert(vstd::utf8::is_ascii_chars(run));
        }
    }
}

/// The memory is kept as lines of four fields with tabs between them: "e" with
/// pinyin, a word and its count, or "b" with a word, the word behind it and
/// their count. Fields behind these do not matter; a line with another tag, a
/// field that is empty, or no number keeps nothing; and each line adds its
/// record to those before it.
pub proof fn law_records_are_lines(
    ls: Seq<Seq<char>>,
    tag: Seq<char>,
    key: Seq<char>,
    word: Seq<char>,
    n: nat,
    rest: Seq<char>,
    of_picks: bool,
)
    requires
        picks::is_clean(key),
        picks::is_clean(word),
        n <= u32::MAX,
        !tag.contains('\t'),
    ensures
        ({
            let line = tag.push('\t') + key.push('\t') + word.push('\t') + text::decimal(n);
            let kept = RowV { key, word, count: n as int };
            &&& tag == seq!['e'] ==> records_in(ls.push(line), true) == records_in(ls, true).push(kept) && records_in(
                ls.push(line),
                false,
            ) == records_in(ls, false)
            &&& tag == seq!['b'] ==> records_in(ls.push(line), false) == records_in(ls, false).push(kept) && records_in(
                ls.push(line),
                true,
            ) == records_in(ls, true)
            &&& tag != seq!['e'] && tag != seq!['b'] ==> records_in(ls.push(line), of_picks) == records_in(ls, of_picks)
            &&& records_in(ls.push(line.push('\t') + rest), of_picks) == records_in(ls.push(line), of_picks)
            &&& records_in(ls.push(tag.push('\t') + key.push('\t') + word), of_picks) == records_in(ls, of_picks)
        }),
{
    let t = '\t';
    let d = text::decimal(n);
    let line = tag.push(t) + key.push(t) + word.push(t) + d;
    let long = line.push(t) + rest;
    let short = tag.push(t) + key.push(t) + word;
    text::lemma_decimal_value(n);
    text::lemma_decimal_round_trip(n, u32::MAX as int);
    assert(!d.contains(t)) by {
        if d.contains(t) {
            let i = choose|i: int| 0 <= i < d.len() && d[i] == t;
            assert(text::is_digit(d[i]));
        }
    }
    text::lemma_split_single(tag, t);
    text::lemma_split_single(key, t);
    text::lemma_split_single(word, t);
    text::lemma_split_single(d, t);
    text::lemma_split_join(tag, key, t);
    text::lemma_split_join(tag.push(t) + key, word, t);
    assert((tag.push(t) + key).push(t) + word =~= short);
    text::lemma_split_join(short, d, t);
    assert(short.push(t) + d =~= line);
    text::lemma_split_join(line, rest, t);
    assert(text::split(tag.push(t) + key, t) =~= seq![tag, key]);
    assert(text::split(short, t) =~= seq![tag, key, word]);
    assert(text::split(line, t) =~= seq![tag, key, word, d]);
    let f = text::split(long, t);
    assert(f == seq![tag, key, word, d] + text::split(rest, t));
    assert(f[0] == tag && f[1] == key && f[2] == word && f[3] == d);
    assert(seq!['e'][0] != seq!['b'][0]);
    assert(record_of(long) == record_of(line));
    assert(record_of(short) is None);
    assert(ls.push(line).drop_last() =~= ls);
    assert(ls.push(long).drop_last() =~= ls);
    assert(ls.push(short).drop_last() =~= ls);
}

/// Every record is saved as one line, picks before follows, and nothing else.
pub proof fn law_every_record_is_saved(d: UserV, i: int)
    requires
        d.wf(),
    ensures
        ({
            let ls = text::lines_of(d.saved());
            let e = d.entries.rows();
            let b = d.bigrams.rows();
            &&& ls.len() == e.len() + b.len()
            &&& 0 <= i < e.len() ==> ls[i] == seq!['e', '\t'] + e[i].key.push('\t') + e[i].word.push('\t')
                + text::decimal(e[i].count as nat)
            &&& 0 <= i < b.len() ==> ls[e.len() + i] == seq!['b', '\t'] + b[i].key.push('\t') + b[i].word.push('\t')
                + text::decimal(b[i].count as nat)
        }),
{
    let e = d.entries.rows();
    let b = d.bigrams.rows();
    let ls = d.saved_lines();
    picks::lemma_rows_ok(d.entries);
    picks::lemma_rows_ok(d.bigrams);
    assert forall|k: int| 0 <= k < ls.len() implies text::plain_line(#[trigger] ls[k]) by {
        if k < e.len() {
            assert(picks::is_clean(e[k].key));
            lemma_row_line('e', e[k]);
        } else {
            assert(picks::is_clean(b[k - e.len()].key));
            lemma_row_line('b', b[k - e.len()]);
        }
    }
    text::lemma_lines_of_joined(ls);
    if 0 <= i < e.len() {
        assert(ls[i] =~= seq!['e', '\t'] + e[i].key.push('\t') + e[i].word.push('\t') + text::decimal(e[i].count as nat));
    }
    if 0 <= i < b.len() {
        assert(ls[e.len() + i] =~= seq!['b', '\t'] + b[i].key.push('\t') + b[i].word.push('\t') + text::decimal(
            b[i].count as nat,
        ));
    }
}

/// Records that are loaded add up: each adds its count to that of its word
/// under its key, and to no other.
pub proof fn law_loaded_records_add_up(rows: Seq<RowV>, r: RowV, k: Seq<char>, w: Seq<char>)
    ensures
        TableV::build(Seq::<RowV>::empty()).count(k, w) == 0,
        TableV::build(rows.push(r)).count(k, w) == TableV::build(rows).count(k, w) + if r.key == k && r.word == w {
            r.count
        } else {
            0
        },
{
    assert(rows.push(r).drop_last() =~= rows);
    picks::lemma_table_bumped_count(TableV::build(rows), r.key, r.word, r.count, k, w);
}

/// The memory within its caps keeps at most 4000 picks and 4000 follows; one
/// that has no more is left as it is.
pub proof fn law_small_memories_are_kept_whole(d: UserV)
    requires
        d.wf(),
    ensures
        d.pruned().entries.rows().len() <= 4000,
        d.pruned().bigrams.rows().len() <= 4000,
        d.entries.rows().len() <= 4000 ==> d.pruned().entries == d.entries,
        d.bigrams.rows().len() <= 4000 ==> d.pruned().bigrams == d.bigrams,
{
    picks::law_pruned(d.entries, 4000);
    picks::law_pruned(d.bigrams, 4000);
}

} // verus!
