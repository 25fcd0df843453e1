//! The pinyin dictionary.
//!
//! Syllables are interned to numbers and the syllables of a word are packed
//! into one integer key, so that a lookup compares integers. Beside the words,
//! the dictionary knows every syllable prefix of a word, which bounds the
//! search for words in a run of letters, and the words by the initials of their
//! syllables (简拼).

use std::collections::{HashMap, HashSet};

use vstd::hash_map::StringHashMap;
use vstd::prelude::*;

use crate::rank;
use crate::rank::Ranked;
use crate::text;

verus! {

/// Longest word, in syllables, that is looked up.
pub const MAX_WORD_SYLS: usize = 8;

/// Bits per syllable number in a packed key.
pub const SYL_BITS: u32 = 9;

/// How many words are kept for the same initials.
pub const MAX_ABBREV: usize = 12;

/// The longest syllable, where no syllable is known.
pub const DEFAULT_SYLLABLE_LEN: usize = 6;

// ---------------------------------------------------------------------------
// Keys
// ---------------------------------------------------------------------------

/// A key with one more syllable.
pub open spec fn packed(key: u128, syl_id: u16) -> u128 {
    (key << SYL_BITS) | (syl_id as u128)
}

/// A key with one more syllable.
pub fn pack(key: u128, syl_id: u16) -> (r: u128)
    ensures
        r == packed(key, syl_id),
{
    (key << SYL_BITS) | (syl_id as u128)
}

/// The letters of initials, five bits each.
pub open spec fn initials_key(letters: Seq<u8>) -> u64
    decreases letters.len(),
{
    if letters.len() == 0 {
        0
    } else {
        (initials_key(letters.drop_last()) << 5u64) | ((letters.last() - 96) as u64)
    }
}

/// The key of one to eight lower-case letters.
pub open spec fn packed_initials(letters: Seq<u8>) -> Option<u64> {
    if 1 <= letters.len() <= 8 && (forall|i: int| 0 <= i < letters.len() ==> 97 <= #[trigger] letters[i] <= 122) {
        Some(initials_key(letters))
    } else {
        None
    }
}

/// Packs one to eight lower-case letters into a 简拼 key.
pub fn pack_initials(letters: &[u8]) -> (r: Option<u64>)
    ensures
        r == packed_initials(letters@),
{
    if letters.len() < 1 || letters.len() > 8 {
        return None;
    }
    let mut key: u64 = 0;
    let mut i: usize = 0;
    assert(letters@.take(0) =~= Seq::<u8>::empty());
    while i < letters.len()
        invariant
            0 <= i <= letters@.len(),
            1 <= letters@.len() <= 8,
            key == initials_key(letters@.take(i as int)),
            forall|k: int| 0 <= k < i ==> 97 <= #[trigger] letters@[k] <= 122,
        decreases letters@.len() - i,
    {
        let b: u8 = letters[i];
        if b < 97 || b > 122 {
            return None;
        }
        proof {
            assert(letters@.take(i + 1).drop_last() =~= letters@.take(i as int));
        }
        key = (key << 5u64) | ((b - 96) as u64);
        i = i + 1;
    }
    assert(letters@.take(letters@.len() as int) =~= letters@);
    Some(key)
}

// ---------------------------------------------------------------------------
// The text of a dictionary
// ---------------------------------------------------------------------------

/// One line of a dictionary text: `word\tfreq\tsyl1'syl2`.
pub struct DictLine {
    pub word: String,
    /// The frequency, as it is written.
    pub freq: String,
    pub syls: Vec<String>,
}

/// The model of one line of a dictionary text.
#[verifier::ext_equal]
pub struct DictLineV {
    pub word: Seq<char>,
    pub freq: Seq<char>,
    pub syls: Seq<Seq<char>>,
}

impl View for DictLine {
    type V = DictLineV;

    open spec fn view(&self) -> DictLineV {
        DictLineV { word: self.word@, freq: self.freq@, syls: text::views(self.syls@) }
    }
}

/// The models of lines.
pub open spec fn dict_lines_view(v: Seq<DictLine>) -> Seq<DictLineV> {
    Seq::new(v.len(), |i: int| v[i]@)
}

/// What a line says: its first three fields.
pub open spec fn dict_line_of(line: Seq<char>) -> Option<DictLineV> {
    let f = text::split(line, '\t');
    if f.len() >= 3 {
        Some(DictLineV { word: f[0], freq: f[1], syls: text::split(f[2], '\'') })
    } else {
        None
    }
}

/// What the lines say; lines with less than three fields say nothing.
pub open spec fn dict_lines_in(ls: Seq<Seq<char>>) -> Seq<DictLineV>
    decreases ls.len(),
{
    if ls.len() == 0 {
        Seq::empty()
    } else {
        let head = dict_lines_in(ls.drop_last());
        match dict_line_of(ls.last()) {
            Some(l) => head.push(l),
            None => head,
        }
    }
}

/// The lines of a dictionary text.
pub fn parse_dict(text: &str) -> (r: Vec<DictLine>)
    ensures
        dict_lines_view(r@) == dict_lines_in(text::lines_of(text@)),
{
    let ls = text::lines(text);
    let ghost lv = text::lines_of(text@);
    let mut out: Vec<DictLine> = Vec::new();
    let mut i: usize = 0;
    proof {
        assert(lv.take(0) =~= Seq::<Seq<char>>::empty());
        assert(dict_lines_view(out@) =~= Seq::<DictLineV>::empty());
    }
    while i < ls.len()
        invariant
            0 <= i <= ls@.len(),
            lv == text::views(ls@),
            dict_lines_view(out@) == dict_lines_in(lv.take(i as int)),
        decreases ls@.len() - i,
    {
        let ghost before = dict_lines_view(out@);
        proof {
            assert(lv.take(i + 1).drop_last() =~= lv.take(i as int));
            assert(lv.take(i + 1).last() == ls@[i as int]@);
        }
        let f = text::split_on(ls[i].as_str(), '\t');
        let ghost fv = text::split(ls@[i as int]@, '\t');
        assert(fv == text::views(f@));
        if f.len() >= 3 {
            assert(f@[0]@ == fv[0] && f@[1]@ == fv[1] && f@[2]@ == fv[2]);
            let syls = text::split_on(f[2].as_str(), '\'');
            out.push(DictLine { word: f[0].clone(), freq: f[1].clone(), syls });
            assert(dict_lines_view(out@) =~= before.push(dict_line_of(ls@[i as int]@)->0));
        }
        i = i + 1;
    }
    assert(lv.take(lv.len() as int) =~= lv);
    out
}

// ---------------------------------------------------------------------------
// What a dictionary holds
// ---------------------------------------------------------------------------

/// A dictionary entry: a word, its score and its syllables. Scores are
/// logarithms of probabilities, in units of 2^-52.
pub struct Entry {
    pub word: String,
    pub score: i64,
    pub syls: Vec<String>,
}

/// The model of an entry.
#[verifier::ext_equal]
pub struct EntryV {
    pub word: Seq<char>,
    pub score: i64,
    pub syls: Seq<Seq<char>>,
}

impl View for Entry {
    type V = EntryV;

    open spec fn view(&self) -> EntryV {
        EntryV { word: self.word@, score: self.score, syls: text::views(self.syls@) }
    }
}

/// The models of entries.
pub open spec fn entries_view(v: Seq<Entry>) -> Seq<EntryV> {
    Seq::new(v.len(), |i: int| v[i]@)
}

/// A word with its score.
pub type Scored = (Seq<char>, i64);

/// Words are ordered by score.
pub open spec fn score_key() -> spec_fn(Scored) -> (int, int) {
    |p: Scored| (p.1 as int, 0int)
}

/// The models of words with their scores.
pub open spec fn scored(v: Seq<(String, i64)>) -> Seq<Scored> {
    v.map_values(|p: (String, i64)| (p.0@, p.1))
}

impl Ranked for (String, i64) {
    open spec fn rank(&self) -> (int, int) {
        (self.1 as int, 0int)
    }

    fn outranks(&self, other: &Self) -> (r: bool) {
        self.1 > other.1
    }
}

/// Known syllables with those of a word that are new.
pub open spec fn with_syllables(known: Seq<Seq<char>>, syls: Seq<Seq<char>>) -> Seq<Seq<char>>
    decreases syls.len(),
{
    if syls.len() == 0 {
        known
    } else {
        let k = with_syllables(known, syls.drop_last());
        if k.contains(syls.last()) {
            k
        } else {
            k.push(syls.last())
        }
    }
}

/// The syllables of entries, in the order of their first appearance.
pub open spec fn syllables_of(entries: Seq<EntryV>) -> Seq<Seq<char>>
    decreases entries.len(),
{
    if entries.len() == 0 {
        Seq::empty()
    } else {
        with_syllables(syllables_of(entries.drop_last()), entries.last().syls)
    }
}

/// The number of a known syllable: its place, from 1.
pub open spec fn id_of(known: Seq<Seq<char>>, s: Seq<char>) -> u16 {
    (known.index_of(s) + 1) as u16
}

/// The key of syllables.
pub open spec fn key_of(known: Seq<Seq<char>>, syls: Seq<Seq<char>>) -> u128
    decreases syls.len(),
{
    if syls.len() == 0 {
        0
    } else {
        packed(key_of(known, syls.drop_last()), id_of(known, syls.last()))
    }
}

/// The first byte of a syllable; 0 if it is empty.
pub open spec fn first_byte(s: Seq<char>) -> u8 {
    let b = vstd::utf8::encode_utf8(s);
    if b.len() == 0 {
        0
    } else {
        b[0]
    }
}

/// The initials of syllables.
pub open spec fn initials(syls: Seq<Seq<char>>) -> Seq<u8> {
    Seq::new(syls.len(), |i: int| first_byte(syls[i]))
}

/// Whether an entry is short enough to be looked up.
pub open spec fn looked_up(e: EntryV) -> bool {
    1 <= e.syls.len() <= MAX_WORD_SYLS
}

/// The words with a key, in the order of the entries.
pub open spec fn keyed(known: Seq<Seq<char>>, entries: Seq<EntryV>, key: u128) -> Seq<Scored>
    decreases entries.len(),
{
    if entries.len() == 0 {
        Seq::empty()
    } else {
        let head = keyed(known, entries.drop_last(), key);
        let e = entries.last();
        if looked_up(e) && key_of(known, e.syls) == key {
            head.push((e.word, e.score))
        } else {
            head
        }
    }
}

/// The words with initials, in the order of the entries.
pub open spec fn abbreviated(entries: Seq<EntryV>, key: u64) -> Seq<Scored>
    decreases entries.len(),
{
    if entries.len() == 0 {
        Seq::empty()
    } else {
        let head = abbreviated(entries.drop_last(), key);
        let e = entries.last();
        if looked_up(e) && packed_initials(initials(e.syls)) == Some(key) {
            head.push((e.word, e.score))
        } else {
            head
        }
    }
}

/// Whether a key is that of the first syllables of an entry.
pub open spec fn is_prefix(known: Seq<Seq<char>>, entries: Seq<EntryV>, key: u128) -> bool {
    exists|i: int, n: int|
        0 <= i < entries.len() && 1 <= n <= entries[i].syls.len() && #[trigger] key_of(known, entries[i].syls.take(n))
            == key
}

/// The length in bytes of the longest of the syllables.
pub open spec fn longest(syls: Seq<Seq<char>>) -> nat
    decreases syls.len(),
{
    if syls.len() == 0 {
        0
    } else {
        let a = longest(syls.drop_last());
        let b = vstd::utf8::encode_utf8(syls.last()).len();
        if b > a {
            b
        } else {
            a
        }
    }
}

/// The model of a dictionary.
#[verifier::ext_equal]
pub struct DictV {
    /// The known syllables.
    pub syls: Seq<Seq<char>>,
    /// The number of each syllable.
    pub ids: Map<Seq<char>, u16>,
    /// The words of each key, by descending score.
    pub words: Map<u128, Seq<Scored>>,
    /// Every key of the first syllables of an entry.
    pub prefixes: Set<u128>,
    /// The best words with the same initials, by descending score.
    pub abbrev: Map<u64, Seq<Scored>>,
    /// The length of the longest syllable.
    pub max_len: nat,
}

impl DictV {
    /// The dictionary of entries.
    pub open spec fn of(entries: Seq<EntryV>) -> DictV {
        let known = syllables_of(entries);
        DictV {
            syls: known,
            ids: Map::new(|s: Seq<char>| known.contains(s), |s: Seq<char>| id_of(known, s)),
            words: Map::new(
                |k: u128| keyed(known, entries, k).len() > 0,
                |k: u128| rank::ranked(keyed(known, entries, k), score_key()),
            ),
            prefixes: Set::new(|k: u128| is_prefix(known, entries, k)),
            abbrev: Map::new(
                |k: u64| abbreviated(entries, k).len() > 0,
                |k: u64| rank::cut(rank::ranked(abbreviated(entries, k), score_key()), MAX_ABBREV as int),
            ),
            max_len: if known.len() == 0 {
                DEFAULT_SYLLABLE_LEN as nat
            } else {
                longest(known)
            },
        }
    }

    /// Lists of words are not empty, and ordered by score.
    pub open spec fn wf(self) -> bool {
        &&& forall|k: u128| #[trigger]
            self.words.contains_key(k) ==> self.words[k].len() > 0 && rank::descending(self.words[k], score_key())
        &&& forall|k: u64| #[trigger]
            self.abbrev.contains_key(k) ==> self.abbrev[k].len() > 0 && rank::descending(self.abbrev[k], score_key())
    }
}

/// A dictionary of entries is in shape.
pub proof fn lemma_of_wf(entries: Seq<EntryV>)
    ensures
        DictV::of(entries).wf(),
{
    let d = DictV::of(entries);
    assert forall|k: u128| #[trigger] d.words.contains_key(k) implies d.words[k].len() > 0 && rank::descending(
        d.words[k],
        score_key(),
    ) by {
        let l = keyed(d.syls, entries, k);
        rank::lemma_ranked_contents(l, score_key());
        rank::lemma_ranked_descending(l, score_key());
    }
    assert forall|k: u64| #[trigger] d.abbrev.contains_key(k) implies d.abbrev[k].len() > 0 && rank::descending(
        d.abbrev[k],
        score_key(),
    ) by {
        let l = abbreviated(entries, k);
        rank::lemma_ranked_contents(l, score_key());
        rank::lemma_ranked_descending(l, score_key());
        let r = rank::ranked(l, score_key());
        let c = rank::cut(r, MAX_ABBREV as int);
        assert forall|i: int, j: int| 0 <= i < j < c.len() implies !rank::above(
            score_key()(#[trigger] c[j]),
            score_key()(#[trigger] c[i]),
        ) by {
            assert(c[i] == r[i] && c[j] == r[j]);
        }
    }
}

// ---------------------------------------------------------------------------
// Building it
// ---------------------------------------------------------------------------

/// The models of lists of words, by key.
pub open spec fn lists<K>(m: Map<K, Vec<(String, i64)>>) -> Map<K, Seq<Scored>> {
    Map::new(|k: K| m.contains_key(k), |k: K| scored(m[k]@))
}

/// The list of a key; empty if there is none.
spec fn listing<K>(m: Map<K, Vec<(String, i64)>>, k: K) -> Seq<Scored> {
    if m.contains_key(k) {
        scored(m[k]@)
    } else {
        Seq::empty()
    }
}

/// Adds a word to the list of a key, of which the best `cap` words are kept.
fn put<K: Copy + Eq + std::hash::Hash>(
    m: &mut HashMap<K, Vec<(String, i64)>>,
    key: K,
    word: &String,
    score: i64,
    cap: usize,
)
    requires
        vstd::std_specs::hash::obeys_key_model::<K>(),
    ensures
        forall|k: K| #[trigger]
            final(m)@.contains_key(k) <==> old(m)@.contains_key(k) || k == key,
        forall|k: K| #[trigger]
            listing(final(m)@, k) == if k == key {
                rank::cut(rank::inserted(listing(old(m)@, k), (word@, score), score_key()), cap as int)
            } else {
                listing(old(m)@, k)
            },
        cap == usize::MAX ==> listing(final(m)@, key) == rank::inserted(
            listing(old(m)@, key),
            (word@, score),
            score_key(),
        ),
{
    let ghost before = m@;
    let mut v: Vec<(String, i64)> = match m.remove(&key) {
        Some(v) => v,
        None => Vec::new(),
    };
    let ghost v0 = v@;
    let x = (word.clone(), score);
    proof {
        if !before.contains_key(key) {
            assert(scored(v0) =~= Seq::<Scored>::empty());
        }
        rank::lemma_inserted_map(
            v0,
            x,
            |p: (String, i64)| (p.0@, p.1),
            rank::rank_key::<(String, i64)>(),
            score_key(),
        );
    }
    rank::insert(&mut v, x);
    let ghost v1 = v@;
    assert(scored(v1) == rank::inserted(listing(before, key), (word@, score), score_key()));
    if v.len() > cap {
        v.truncate(cap);
    }
    assert(scored(v@) =~= rank::cut(scored(v1), cap as int));
    m.insert(key, v);
}

/// A syllable of a list without repetitions has one place.
proof fn lemma_place(known: Seq<Seq<char>>, i: int)
    requires
        known.no_duplicates(),
        0 <= i < known.len(),
    ensures
        known.index_of(known[i]) == i,
{
    let k = known.index_of(known[i]);
    assert(known[i] == known[i]);
    assert(0 <= k < known.len() && known[k] == known[i]);
}

/// Numbers of syllables stay when a new syllable comes.
proof fn lemma_new_syllable(known: Seq<Seq<char>>, s: Seq<char>)
    requires
        known.no_duplicates(),
        !known.contains(s),
    ensures
        known.push(s).no_duplicates(),
        id_of(known.push(s), s) == (known.len() + 1) as u16,
        forall|t: Seq<char>| #[trigger] known.contains(t) ==> id_of(known.push(s), t) == id_of(known, t),
        forall|t: Seq<char>| #[trigger] known.push(s).contains(t) <==> known.contains(t) || t == s,
{
    let more = known.push(s);
    assert forall|i: int, j: int| 0 <= i < more.len() && 0 <= j < more.len() && i != j implies more[i] != more[j] by {
        if i == known.len() {
            assert(known.contains(known[j]));
        } else if j == known.len() {
            assert(known.contains(known[i]));
        }
    }
    lemma_place(more, known.len() as int);
    assert(more[known.len() as int] == s);
    assert forall|t: Seq<char>| #[trigger] known.contains(t) implies id_of(more, t) == id_of(known, t) by {
        let i = known.index_of(t);
        lemma_place(known, i);
        lemma_place(more, i);
        assert(more[i] == t);
    }
    assert forall|t: Seq<char>| #[trigger] more.contains(t) <==> known.contains(t) || t == s by {
        if known.contains(t) {
            assert(more[known.index_of(t)] == t);
        }
    }
}

/// Numbers the syllables of entries.
fn intern(entries: &Vec<Entry>) -> (r: (Vec<String>, StringHashMap<u16>))
    ensures
        text::views(r.0@) == syllables_of(entries_view(entries@)),
        r.1@ == DictV::of(entries_view(entries@)).ids,
{
    let ghost ev = entries_view(entries@);
    let mut syl_text: Vec<String> = Vec::new();
    let mut ids: StringHashMap<u16> = StringHashMap::new();
    let mut i: usize = 0;
    proof {
        assert(ev.take(0) =~= Seq::<EntryV>::empty());
        assert(text::views(syl_text@) =~= Seq::<Seq<char>>::empty());
    }
    while i < entries.len()
        invariant
            0 <= i <= entries@.len(),
            ev == entries_view(entries@),
            text::views(syl_text@) == syllables_of(ev.take(i as int)),
            text::views(syl_text@).no_duplicates(),
            forall|s: Seq<char>| #[trigger] ids@.contains_key(s) <==> text::views(syl_text@).contains(s),
            forall|s: Seq<char>| #[trigger] ids@.contains_key(s) ==> ids@[s] == id_of(text::views(syl_text@), s),
        decreases entries@.len() - i,
    {
        let e = &entries[i];
        let ghost sv = text::views(e.syls@);
        let ghost known0 = syllables_of(ev.take(i as int));
        let mut j: usize = 0;
        proof {
            assert(ev.take(i + 1).drop_last() =~= ev.take(i as int));
            assert(ev.take(i + 1).last() == e@);
            assert(sv.take(0) =~= Seq::<Seq<char>>::empty());
        }
        while j < e.syls.len()
            invariant
                0 <= j <= e.syls@.len(),
                sv == text::views(e.syls@),
                text::views(syl_text@) == with_syllables(known0, sv.take(j as int)),
                text::views(syl_text@).no_duplicates(),
                forall|s: Seq<char>| #[trigger] ids@.contains_key(s) <==> text::views(syl_text@).contains(s),
                forall|s: Seq<char>| #[trigger] ids@.contains_key(s) ==> ids@[s] == id_of(text::views(syl_text@), s),
            decreases e.syls@.len() - j,
        {
            let s = &e.syls[j];
            let ghost known = text::views(syl_text@);
            let ghost ids0 = ids@;
            proof {
                assert(sv.take(j + 1).drop_last() =~= sv.take(j as int));
                assert(sv.take(j + 1).last() == s@);
            }
            if !ids.contains_key(s.as_str()) {
                syl_text.push(s.clone());
                let id: u16 = #[verifier::truncate]
                (syl_text.len() as u16);
                ids.insert(s.clone(), id);
                proof {
                    assert(text::views(syl_text@) =~= known.push(s@));
                    lemma_new_syllable(known, s@);
                    assert forall|t: Seq<char>| #[trigger] ids@.contains_key(t) implies ids@[t] == id_of(
                        known.push(s@),
                        t,
                    ) by {
                        if t != s@ {
                            assert(ids0.contains_key(t));
                            assert(known.contains(t));
                        }
                    }
                    assert forall|t: Seq<char>| #[trigger] ids@.contains_key(t) <==> known.push(s@).contains(t) by {
                        assert(ids0.contains_key(t) <==> known.contains(t));
                    }
                }
            }
            j = j + 1;
        }
        assert(sv.take(sv.len() as int) =~= sv);
        i = i + 1;
    }
    assert(ev.take(ev.len() as int) =~= ev);
    assert(ids@ =~= DictV::of(ev).ids);
    (syl_text, ids)
}

/// The length in bytes of the longest syllable.
fn longest_of(syls: &Vec<String>) -> (r: usize)
    ensures
        r == longest(text::views(syls@)),
{
    let ghost sv = text::views(syls@);
    let mut r: usize = 0;
    let mut i: usize = 0;
    assert(sv.take(0) =~= Seq::<Seq<char>>::empty());
    while i < syls.len()
        invariant
            0 <= i <= syls@.len(),
            sv == text::views(syls@),
            r == longest(sv.take(i as int)),
        decreases syls@.len() - i,
    {
        proof {
            assert(sv.take(i + 1).drop_last() =~= sv.take(i as int));
            assert(sv.take(i + 1).last() == syls@[i as int]@);
        }
        let n: usize = syls[i].as_str().as_bytes().len();
        if n > r {
            r = n;
        }
        i = i + 1;
    }
    assert(sv.take(sv.len() as int) =~= sv);
    r
}

/// The syllables of an entry are known.
proof fn lemma_known(entries: Seq<EntryV>, i: int, j: int)
    requires
        0 <= i < entries.len(),
        0 <= j < entries[i].syls.len(),
    ensures
        syllables_of(entries).contains(entries[i].syls[j]),
    decreases entries.len(),
{
    let t = entries.drop_last();
    let known = syllables_of(t);
    lemma_with_syllables(known, entries.last().syls);
    if i < t.len() {
        lemma_known(t, i, j);
    } else {
        assert(entries.last().syls[j] == entries[i].syls[j]);
    }
}

/// New syllables join the known ones.
proof fn lemma_with_syllables(known: Seq<Seq<char>>, syls: Seq<Seq<char>>)
    ensures
        forall|s: Seq<char>| #[trigger] known.contains(s) ==> with_syllables(known, syls).contains(s),
        forall|j: int| 0 <= j < syls.len() ==> with_syllables(known, syls).contains(#[trigger] syls[j]),
    decreases syls.len(),
{
    if syls.len() > 0 {
        let t = syls.drop_last();
        lemma_with_syllables(known, t);
        let k = with_syllables(known, t);
        let r = with_syllables(known, syls);
        assert forall|s: Seq<char>| #[trigger] k.contains(s) implies r.contains(s) by {
            let m = choose|m: int| 0 <= m < k.len() && k[m] == s;
            assert(r[m] == s);
        }
        assert(r.contains(syls.last())) by {
            if !k.contains(syls.last()) {
                assert(r[k.len() as int] == syls.last());
            }
        }
        assert forall|j: int| 0 <= j < syls.len() implies r.contains(#[trigger] syls[j]) by {
            if j < t.len() {
                assert(t[j] == syls[j]);
                assert(k.contains(t[j]));
            }
        }
    }
}

/// Adds the keys of the first syllables of a word, and returns its key.
fn add_prefixes(
    ids: &StringHashMap<u16>,
    syls: &Vec<String>,
    prefixes: &mut HashSet<u128>,
    Ghost(known): Ghost<Seq<Seq<char>>>,
) -> (r: u128)
    requires
        forall|j: int| 0 <= j < syls@.len() ==> ids@.contains_key(#[trigger] syls@[j]@) && ids@[syls@[j]@] == id_of(known, syls@[j]@),
    ensures
        r == key_of(known, text::views(syls@)),
        forall|k: u128| #[trigger]
            final(prefixes)@.contains(k) <==> old(prefixes)@.contains(k) || exists|n: int|
                1 <= n <= syls@.len() && #[trigger] key_of(known, text::views(syls@).take(n)) == k,
{
    let ghost sv = text::views(syls@);
    let ghost before = prefixes@;
    let mut key: u128 = 0;
    let mut j: usize = 0;
    assert(sv.take(0) =~= Seq::<Seq<char>>::empty());
    while j < syls.len()
        invariant
            0 <= j <= syls@.len(),
            sv == text::views(syls@),
            key == key_of(known, sv.take(j as int)),
            forall|j: int| 0 <= j < syls@.len() ==> ids@.contains_key(#[trigger] syls@[j]@) && ids@[syls@[j]@] == id_of(known, syls@[j]@),
            forall|k: u128| #[trigger]
                prefixes@.contains(k) <==> before.contains(k) || exists|n: int|
                    1 <= n <= j && #[trigger] key_of(known, sv.take(n)) == k,
        decreases syls@.len() - j,
    {
        let ghost mid = prefixes@;
        proof {
            assert(sv.take(j + 1).drop_last() =~= sv.take(j as int));
            assert(sv.take(j + 1).last() == syls@[j as int]@);
        }
        let id: u16 = match ids.get(syls[j].as_str()) {
            Some(id) => *id,
            None => 0,
        };
        key = pack(key, id);
        prefixes.insert(key);
        assert forall|k: u128| #[trigger]
            prefixes@.contains(k) <==> before.contains(k) || exists|n: int|
                1 <= n <= j + 1 && #[trigger] key_of(known, sv.take(n)) == k by {
            assert(mid.contains(k) <==> before.contains(k) || exists|n: int|
                1 <= n <= j && #[trigger] key_of(known, sv.take(n)) == k);
            if k == key {
                assert(key_of(known, sv.take(j + 1)) == k);
            }
        }
        j = j + 1;
    }
    assert(sv.take(sv.len() as int) =~= sv);
    key
}

/// The first bytes of syllables.
fn initials_of(syls: &Vec<String>) -> (r: Vec<u8>)
    ensures
        r@ == initials(text::views(syls@)),
{
    let ghost sv = text::views(syls@);
    let mut out: Vec<u8> = Vec::new();
    let mut j: usize = 0;
    while j < syls.len()
        invariant
            0 <= j <= syls@.len(),
            sv == text::views(syls@),
            out@ == initials(sv).take(j as int),
        decreases syls@.len() - j,
    {
        let b = syls[j].as_str().as_bytes();
        let first: u8 = if b.len() == 0 { 0 } else { b[0] };
        out.push(first);
        assert(first == initials(sv)[j as int]);
        assert(initials(sv).take(j + 1) =~= initials(sv).take(j as int).push(first));
        j = j + 1;
    }
    assert(initials(sv).take(sv.len() as int) =~= initials(sv));
    out
}

/// The dictionary.
pub struct PinyinDict {
    /// Interned syllable spellings; the number of one is its place, from 1.
    syl_text: Vec<String>,
    /// The number of each spelling.
    syl_ids: StringHashMap<u16>,
    /// The words of each key, by descending score.
    words: HashMap<u128, Vec<(String, i64)>>,
    /// Every key of the first syllables of a word.
    key_prefixes: HashSet<u128>,
    /// 简拼: the best words of each key of initials.
    abbrev: HashMap<u64, Vec<(String, i64)>>,
    max_syllable_len: usize,
}

impl View for PinyinDict {
    type V = DictV;

    closed spec fn view(&self) -> DictV {
        DictV {
            syls: text::views(self.syl_text@),
            ids: self.syl_ids@,
            words: lists(self.words@),
            prefixes: self.key_prefixes@,
            abbrev: lists(self.abbrev@),
            max_len: self.max_syllable_len as nat,
        }
    }
}

/// What is known of the tables after some entries.
spec fn tables_hold(
    known: Seq<Seq<char>>,
    entries: Seq<EntryV>,
    words: Map<u128, Vec<(String, i64)>>,
    prefixes: Set<u128>,
    abbrev: Map<u64, Vec<(String, i64)>>,
) -> bool {
    &&& forall|k: u128| #[trigger] words.contains_key(k) <==> keyed(known, entries, k).len() > 0
    &&& forall|k: u128| #[trigger] listing(words, k) == rank::ranked(keyed(known, entries, k), score_key())
    &&& forall|k: u128| #[trigger] prefixes.contains(k) <==> is_prefix(known, entries, k)
    &&& forall|k: u64| #[trigger] abbrev.contains_key(k) <==> abbreviated(entries, k).len() > 0
    &&& forall|k: u64| #[trigger]
        listing(abbrev, k) == rank::cut(rank::ranked(abbreviated(entries, k), score_key()), MAX_ABBREV as int)
}

impl PinyinDict {
    /// The dictionary of entries.
    pub fn load(entries: &Vec<Entry>) -> (r: PinyinDict)
        ensures
            r@ == DictV::of(entries_view(entries@)),
            r@.wf(),
    {
        let ghost ev = entries_view(entries@);
        let ghost known = syllables_of(ev);
        let (syl_text, syl_ids) = intern(entries);
        let mut words: HashMap<u128, Vec<(String, i64)>> = HashMap::new();
        let mut key_prefixes: HashSet<u128> = HashSet::new();
        let mut abbrev: HashMap<u64, Vec<(String, i64)>> = HashMap::new();
        let mut i: usize = 0;
        proof {
            assert(ev.take(0) =~= Seq::<EntryV>::empty());
            assert(tables_hold(known, ev.take(0), words@, key_prefixes@, abbrev@)) by {
                assert forall|k: u128| #[trigger] key_prefixes@.contains(k) <==> is_prefix(known, ev.take(0), k) by {}
            }
        }
        while i < entries.len()
            invariant
                0 <= i <= entries@.len(),
                ev == entries_view(entries@),
                known == syllables_of(ev),
                syl_ids@ == DictV::of(ev).ids,
                tables_hold(known, ev.take(i as int), words@, key_prefixes@, abbrev@),
            decreases entries@.len() - i,
        {
            let e = &entries[i];
            let ghost w0 = words@;
            let ghost p0 = key_prefixes@;
            let ghost a0 = abbrev@;
            let ghost done = ev.take(i as int);
            let ghost next = ev.take(i + 1);
            proof {
                assert(next.drop_last() =~= done);
                assert(next.last() == e@);
                assert(e@ == ev[i as int]);
                assert forall|j: int| 0 <= j < e.syls@.len() implies syl_ids@.contains_key(#[trigger] e.syls@[j]@)
                    && syl_ids@[e.syls@[j]@] == id_of(known, e.syls@[j]@) by {
                    lemma_known(ev, i as int, j);
                    assert(ev[i as int].syls[j] == e.syls@[j]@);
                }
            }
            let key: u128 = add_prefixes(&syl_ids, &e.syls, &mut key_prefixes, Ghost(known));
            let n: usize = e.syls.len();
            if n >= 1 && n <= MAX_WORD_SYLS {
                put(&mut words, key, &e.word, e.score, usize::MAX);
                let letters = initials_of(&e.syls);
                match pack_initials(letters.as_slice()) {
                    Some(jp) => {
                        put(&mut abbrev, jp, &e.word, e.score, MAX_ABBREV);
                    },
                    None => {},
                }
            }
            proof {
                lemma_prefix_step(known, done, e@, next);
                assert forall|k: u128| #[trigger] key_prefixes@.contains(k) <==> is_prefix(known, next, k) by {
                    assert(p0.contains(k) <==> is_prefix(known, done, k));
                }
                assert forall|k: u128| #[trigger] words@.contains_key(k) <==> keyed(known, next, k).len() > 0 by {
                    assert(w0.contains_key(k) <==> keyed(known, done, k).len() > 0);
                }
                assert forall|k: u128| #[trigger] listing(words@, k) == rank::ranked(
                    keyed(known, next, k),
                    score_key(),
                ) by {
                    assert(listing(w0, k) == rank::ranked(keyed(known, done, k), score_key()));
                    assert(keyed(known, done, k).push((e@.word, e@.score)).drop_last() =~= keyed(known, done, k));
                }
                assert forall|k: u64| #[trigger] abbrev@.contains_key(k) <==> abbreviated(next, k).len() > 0 by {
                    assert(a0.contains_key(k) <==> abbreviated(done, k).len() > 0);
                }
                assert forall|k: u64| #[trigger] listing(abbrev@, k) == rank::cut(
                    rank::ranked(abbreviated(next, k), score_key()),
                    MAX_ABBREV as int,
                ) by {
                    assert(listing(a0, k) == rank::cut(
                        rank::ranked(abbreviated(done, k), score_key()),
                        MAX_ABBREV as int,
                    ));
                    lemma_listed(abbreviated(done, k), (e@.word, e@.score), MAX_ABBREV as int);
                }
            }
            i = i + 1;
        }
        let max_syllable_len: usize = if syl_text.len() == 0 {
            DEFAULT_SYLLABLE_LEN
        } else {
            longest_of(&syl_text)
        };
        proof {
            assert(ev.take(ev.len() as int) =~= ev);
            let d = DictV::of(ev);
            assert(lists(words@) =~= d.words) by {
                assert forall|k: u128| words@.contains_key(k) implies #[trigger] lists(words@)[k] == d.words[k] by {
                    assert(listing(words@, k) == rank::ranked(keyed(known, ev, k), score_key()));
                }
            }
            assert(lists(abbrev@) =~= d.abbrev) by {
                assert forall|k: u64| abbrev@.contains_key(k) implies #[trigger] lists(abbrev@)[k] == d.abbrev[k] by {
                    assert(listing(abbrev@, k) == rank::cut(
                        rank::ranked(abbreviated(ev, k), score_key()),
                        MAX_ABBREV as int,
                    ));
                }
            }
            assert(key_prefixes@ =~= d.prefixes);
            lemma_of_wf(ev);
        }
        PinyinDict { syl_text, syl_ids, words, key_prefixes, abbrev, max_syllable_len }
    }

    /// How many syllables are known.
    pub fn syllable_count(&self) -> (r: usize)
        ensures
            r == self@.syls.len(),
    {
        self.syl_text.len()
    }
}

/// The keys of first syllables with one more entry.
proof fn lemma_prefix_step(known: Seq<Seq<char>>, done: Seq<EntryV>, e: EntryV, next: Seq<EntryV>)
    requires
        next.len() == done.len() + 1,
        next.drop_last() == done,
        next.last() == e,
    ensures
        forall|k: u128| #[trigger]
            is_prefix(known, next, k) <==> is_prefix(known, done, k) || exists|n: int|
                1 <= n <= e.syls.len() && #[trigger] key_of(known, e.syls.take(n)) == k,
{
    let m = done.len() as int;
    assert forall|i: int| 0 <= i < m implies #[trigger] done[i] == next[i] by {}
    assert(next[m] == e);
    assert forall|k: u128| #[trigger]
        is_prefix(known, next, k) <==> is_prefix(known, done, k) || exists|n: int|
            1 <= n <= e.syls.len() && #[trigger] key_of(known, e.syls.take(n)) == k by {
        if is_prefix(known, next, k) {
            let (i, n) = choose|i: int, n: int|
                0 <= i < next.len() && 1 <= n <= next[i].syls.len() && #[trigger] key_of(known, next[i].syls.take(n))
                    == k;
            if i < m {
                assert(key_of(known, done[i].syls.take(n)) == k);
            } else {
                assert(key_of(known, e.syls.take(n)) == k);
            }
        }
        if is_prefix(known, done, k) {
            let (i, n) = choose|i: int, n: int|
                0 <= i < done.len() && 1 <= n <= done[i].syls.len() && #[trigger] key_of(known, done[i].syls.take(n))
                    == k;
            assert(key_of(known, next[i].syls.take(n)) == k);
        }
        if exists|n: int| 1 <= n <= e.syls.len() && #[trigger] key_of(known, e.syls.take(n)) == k {
            let n = choose|n: int| 1 <= n <= e.syls.len() && #[trigger] key_of(known, e.syls.take(n)) == k;
            assert(key_of(known, next[m].syls.take(n)) == k);
        }
    }
}

/// One more word in a list of which the best `cap` words are kept.
proof fn lemma_listed(l: Seq<Scored>, x: Scored, cap: int)
    requires
        0 < cap,
    ensures
        rank::cut(rank::inserted(rank::cut(rank::ranked(l, score_key()), cap), x, score_key()), cap) == rank::cut(
            rank::ranked(l.push(x), score_key()),
            cap,
        ),
{
    assert(l.push(x).drop_last() =~= l);
    rank::lemma_ranked_descending(l, score_key());
    rank::lemma_inserted_cut(rank::ranked(l, score_key()), x, score_key(), cap);
}

// ---------------------------------------------------------------------------
// Finding words in a run
// ---------------------------------------------------------------------------

/// Where the next syllable starts: an apostrophe between syllables is skipped.
pub open spec fn piece_start(run: Seq<char>, pos: int, depth: int) -> int {
    if depth > 0 && pos < run.len() && run[pos] == '\'' {
        pos + 1
    } else {
        pos
    }
}

/// The furthest end of a syllable that starts at `start`.
pub open spec fn reach(d: DictV, run: Seq<char>, start: int) -> int {
    if start + d.max_len < run.len() {
        start + d.max_len
    } else {
        run.len() as int
    }
}

/// The key after the letters from `start` to `end` as one more syllable, if
/// they are a syllable and words start with that key.
pub open spec fn step_key(d: DictV, run: Seq<char>, start: int, key: u128, end: int) -> Option<u128> {
    let piece = run.subrange(start, end);
    if !piece.contains('\'') && d.ids.contains_key(piece) && d.prefixes.contains(packed(key, d.ids[piece])) {
        Some(packed(key, d.ids[piece]))
    } else {
        None
    }
}

/// The ends, up to `end`, and keys of one more syllable from `start`.
pub open spec fn kids_upto(d: DictV, run: Seq<char>, start: int, key: u128, end: int) -> Seq<(int, u128)>
    decreases end - start,
{
    if end <= start {
        Seq::empty()
    } else {
        let head = kids_upto(d, run, start, key, end - 1);
        match step_key(d, run, start, key, end) {
            Some(k) => head.push((end, k)),
            None => head,
        }
    }
}

/// The ends and keys of one more syllable behind `pos`.
pub open spec fn kids(d: DictV, run: Seq<char>, pos: int, key: u128, depth: int) -> Seq<(int, u128)> {
    let start = piece_start(run, pos, depth);
    kids_upto(d, run, start, key, reach(d, run, start))
}

/// The joins behind `pos`, where `depth` syllables with the given key are read
/// already: those with one more syllable, then those with more, the longest
/// next syllable first. A join is an end with the key of the syllables up to
/// it; words start with that key, or have it.
pub open spec fn walk(d: DictV, run: Seq<char>, pos: int, key: u128, depth: int) -> Seq<(int, u128)>
    decreases MAX_WORD_SYLS - depth, 0int,
{
    if depth >= MAX_WORD_SYLS {
        Seq::empty()
    } else {
        let ks = kids(d, run, pos, key, depth);
        ks + below(d, run, ks, depth + 1)
    }
}

/// The joins behind each of `ks`, the last one first.
pub open spec fn below(d: DictV, run: Seq<char>, ks: Seq<(int, u128)>, depth: int) -> Seq<(int, u128)>
    decreases MAX_WORD_SYLS - depth, ks.len() + 1,
{
    if ks.len() == 0 {
        Seq::empty()
    } else {
        walk(d, run, ks.last().0, ks.last().1, depth) + below(d, run, ks.drop_last(), depth)
    }
}

/// Joins, each with whether its key has words.
pub open spec fn flagged(d: DictV, ks: Seq<(int, u128)>) -> Seq<(int, u128, bool)> {
    ks.map_values(|p: (int, u128)| (p.0, p.1, d.words.contains_key(p.1)))
}

/// The joins that start at `j`, each with whether it is a word.
pub open spec fn joins_from(d: DictV, run: Seq<char>, j: int) -> Seq<(int, u128, bool)> {
    flagged(d, walk(d, run, j, 0, 0))
}

/// Those of the joins that are words, in the same order.
pub open spec fn words_among(js: Seq<(int, u128, bool)>) -> Seq<(int, u128)>
    decreases js.len(),
{
    if js.len() == 0 {
        Seq::empty()
    } else {
        let head = words_among(js.drop_last());
        if js.last().2 {
            head.push((js.last().0, js.last().1))
        } else {
            head
        }
    }
}

/// The words that start at `j`, with the positions where they end.
pub open spec fn words_from(d: DictV, run: Seq<char>, j: int) -> Seq<(int, u128)> {
    words_among(joins_from(d, run, j))
}

/// The ends, up to `end`, of the single syllables that start at `j`.
pub open spec fn syllable_ends(d: DictV, run: Seq<char>, j: int, end: int) -> Seq<int>
    decreases end - j,
{
    if end <= j {
        Seq::empty()
    } else {
        let head = syllable_ends(d, run, j, end - 1);
        let piece = run.subrange(j, end);
        if !piece.contains('\'') && d.ids.contains_key(piece) {
            head.push(end)
        } else {
            head
        }
    }
}

/// The models of ends with keys.
pub open spec fn ends_view(v: Seq<(usize, u128)>) -> Seq<(int, u128)> {
    v.map_values(|p: (usize, u128)| (p.0 as int, p.1))
}

/// The models of joins.
pub open spec fn joins_view(v: Seq<(usize, u128, bool)>) -> Seq<(int, u128, bool)> {
    v.map_values(|p: (usize, u128, bool)| (p.0 as int, p.1, p.2))
}

/// Behind an apostrophe there are no more syllables from the same start.
proof fn lemma_kids_stop(d: DictV, run: Seq<char>, start: int, key: u128, at: int, end: int)
    requires
        0 <= start <= at < end <= run.len(),
        run[at] == '\'',
    ensures
        kids_upto(d, run, start, key, end) == kids_upto(d, run, start, key, at),
        syllable_ends(d, run, start, end) == syllable_ends(d, run, start, at),
    decreases end - at,
{
    assert(run.subrange(start, end)[at - start] == '\'');
    if at < end - 1 {
        lemma_kids_stop(d, run, start, key, at, end - 1);
    }
}

impl PinyinDict {
    /// The words of a key.
    pub(crate) fn words_of(&self, key: u128) -> (r: Option<&Vec<(String, i64)>>)
        ensures
            match r {
                Some(v) => self@.words.contains_key(key) && scored(v@) == self@.words[key],
                None => !self@.words.contains_key(key),
            },
    {
        self.words.get(&key)
    }

    /// The best words of a key of initials.
    pub(crate) fn abbrev_of(&self, key: u64) -> (r: Option<&Vec<(String, i64)>>)
        ensures
            match r {
                Some(v) => self@.abbrev.contains_key(key) && scored(v@) == self@.abbrev[key],
                None => !self@.abbrev.contains_key(key),
            },
    {
        self.abbrev.get(&key)
    }

    /// The ends and keys of one more syllable behind `pos`.
    fn kids_of(&self, run: &Vec<char>, pos: usize, key: u128, depth: usize) -> (r: Vec<(usize, u128)>)
        requires
            pos <= run@.len(),
        ensures
            ends_view(r@) == kids(self@, run@, pos as int, key, depth as int),
            forall|i: int| 0 <= i < r@.len() ==> pos < (#[trigger] r@[i]).0 <= run@.len(),
    {
        let ghost d = self@;
        let start: usize = if depth > 0 && pos < run.len() && run[pos] == '\'' { pos + 1 } else { pos };
        let n: usize = run.len();
        let max_end: usize = if self.max_syllable_len < n - start { start + self.max_syllable_len } else { n };
        let mut out: Vec<(usize, u128)> = Vec::new();
        let mut end: usize = start;
        let mut open = true;
        assert(ends_view(out@) =~= Seq::<(int, u128)>::empty());
        while open && end < max_end
            invariant
                start <= end <= max_end <= n,
                pos <= start,
                n == run@.len(),
                d == self@,
                open ==> ends_view(out@) == kids_upto(d, run@, start as int, key, end as int),
                !open ==> ends_view(out@) == kids_upto(d, run@, start as int, key, max_end as int),
                open ==> forall|k: int| start <= k < end ==> #[trigger] run@[k] != '\'',
                forall|i: int| 0 <= i < out@.len() ==> pos < (#[trigger] out@[i]).0 <= run@.len(),
            decreases max_end - end + if open { 1int } else { 0 },
        {
            if run[end] == '\'' {
                proof {
                    lemma_kids_stop(d, run@, start as int, key, end as int, max_end as int);
                }
                open = false;
            } else {
                end = end + 1;
                let piece = text::string_of(run, start, end);
                let ghost before = ends_view(out@);
                proof {
                    assert forall|k: int| 0 <= k < piece@.len() implies #[trigger] piece@[k] != '\'' by {
                        assert(piece@[k] == run@[start + k]);
                    }
                    assert(!piece@.contains('\''));
                }
                match self.syl_ids.get(piece.as_str()) {
                    Some(id) => {
                        let k: u128 = pack(key, *id);
                        if self.key_prefixes.contains(&k) {
                            out.push((end, k));
                            assert(ends_view(out@) =~= before.push((end as int, k)));
                        }
                    },
                    None => {},
                }
            }
        }
        out
    }

    /// Appends the joins behind `pos`.
    fn walk_on(&self, run: &Vec<char>, pos: usize, key: u128, depth: usize, out: &mut Vec<(usize, u128, bool)>)
        requires
            pos <= run@.len(),
        ensures
            joins_view(final(out)@) == joins_view(old(out)@) + flagged(
                self@,
                walk(self@, run@, pos as int, key, depth as int),
            ),
        decreases MAX_WORD_SYLS - depth,
    {
        let ghost d = self@;
        let ghost start = joins_view(out@);
        if depth >= MAX_WORD_SYLS {
            assert(start + flagged(d, Seq::empty()) =~= start);
            return;
        }
        let ks = self.kids_of(run, pos, key, depth);
        let ghost kv = kids(d, run@, pos as int, key, depth as int);
        let mut i: usize = 0;
        assert(joins_view(out@) =~= start + flagged(d, kv.take(0)));
        while i < ks.len()
            invariant
                0 <= i <= ks@.len(),
                d == self@,
                kv == ends_view(ks@),
                joins_view(out@) == start + flagged(d, kv.take(i as int)),
            decreases ks@.len() - i,
        {
            let ghost before = joins_view(out@);
            let (end, k) = ks[i];
            let is_word = self.words_of(k).is_some();
            out.push((end, k, is_word));
            proof {
                assert(kv[i as int] == (end as int, k));
                assert(joins_view(out@) =~= before.push((end as int, k, is_word)));
                assert(joins_view(out@) =~= start + flagged(d, kv.take(i + 1)));
            }
            i = i + 1;
        }
        assert(kv.take(kv.len() as int) =~= kv);
        let ghost mid = joins_view(out@);
        let ghost rest = flagged(d, below(d, run@, kv, depth + 1));
        let mut m: usize = ks.len();
        while m > 0
            invariant
                0 <= m <= ks@.len(),
                depth < MAX_WORD_SYLS,
                d == self@,
                kv == ends_view(ks@),
                forall|i: int| 0 <= i < ks@.len() ==> (#[trigger] ks@[i]).0 <= run@.len(),
                mid + rest == joins_view(out@) + flagged(d, below(d, run@, kv.take(m as int), depth + 1)),
            decreases m,
        {
            let ghost before = joins_view(out@);
            m = m - 1;
            let (end, k) = ks[m];
            proof {
                assert(kv.take(m + 1).drop_last() =~= kv.take(m as int));
                assert(kv.take(m + 1).last() == (end as int, k));
            }
            self.walk_on(run, end, k, depth + 1, out);
            proof {
                let w = walk(d, run@, end as int, k, depth + 1);
                let b = below(d, run@, kv.take(m as int), depth + 1);
                assert(before + flagged(d, w + b) =~= (before + flagged(d, w)) + flagged(d, b));
            }
        }
        proof {
            let b = below(d, run@, kv, depth + 1);
            assert(below(d, run@, kv.take(0), depth + 1) =~= Seq::<(int, u128)>::empty());
            assert(joins_view(out@) + flagged(d, Seq::empty()) =~= joins_view(out@));
            assert(start + flagged(d, kv + b) =~= (start + flagged(d, kv)) + flagged(d, b));
        }
    }

    /// The joins that start at `j`: every end and key that the letters spell as
    /// syllables with which words start, each with whether it is a word; found
    /// by a bounded search over the ways to split the letters.
    pub fn walk_words(&self, run: &Vec<char>, j: usize) -> (r: Vec<(usize, u128, bool)>)
        requires
            j <= run@.len(),
        ensures
            joins_view(r@) == joins_from(self@, run@, j as int),
    {
        let mut out: Vec<(usize, u128, bool)> = Vec::new();
        self.walk_on(run, j, 0, 0, &mut out);
        assert(joins_view(out@) =~= joins_from(self@, run@, j as int));
        out
    }

    /// Those of the joins that start at `j` that are words.
    pub(crate) fn words_at(&self, run: &Vec<char>, j: usize) -> (r: Vec<(usize, u128)>)
        requires
            j <= run@.len(),
        ensures
            ends_view(r@) == words_from(self@, run@, j as int),
    {
        let js = self.walk_words(run, j);
        let ghost jv = joins_view(js@);
        let mut out: Vec<(usize, u128)> = Vec::new();
        let mut i: usize = 0;
        assert(ends_view(out@) =~= words_among(jv.take(0)));
        while i < js.len()
            invariant
                0 <= i <= js@.len(),
                jv == joins_view(js@),
                ends_view(out@) == words_among(jv.take(i as int)),
            decreases js@.len() - i,
        {
            let ghost before = ends_view(out@);
            let (end, key, is_word) = js[i];
            proof {
                assert(jv.take(i + 1).drop_last() =~= jv.take(i as int));
                assert(jv.take(i + 1).last() == (end as int, key, is_word));
            }
            if is_word {
                out.push((end, key));
                assert(ends_view(out@) =~= before.push((end as int, key)));
            }
            i = i + 1;
        }
        assert(jv.take(jv.len() as int) =~= jv);
        out
    }

    /// The ends of the single syllables that start at `j`.
    pub fn syllables_at(&self, run: &Vec<char>, j: usize) -> (r: Vec<usize>)
        requires
            j <= run@.len(),
        ensures
            r@.map_values(|e: usize| e as int) == syllable_ends(self@, run@, j as int, reach(self@, run@, j as int)),
    {
        let ghost d = self@;
        let n: usize = run.len();
        let max_end: usize = if self.max_syllable_len < n - j { j + self.max_syllable_len } else { n };
        let mut out: Vec<usize> = Vec::new();
        let mut end: usize = j;
        let mut open = true;
        let ghost f = |e: usize| e as int;
        assert(out@.map_values(f) =~= Seq::<int>::empty());
        while open && end < max_end
            invariant
                j <= end <= max_end <= n,
                n == run@.len(),
                d == self@,
                f == (|e: usize| e as int),
                open ==> out@.map_values(f) == syllable_ends(d, run@, j as int, end as int),
                !open ==> out@.map_values(f) == syllable_ends(d, run@, j as int, max_end as int),
                open ==> forall|k: int| j <= k < end ==> #[trigger] run@[k] != '\'',
            decreases max_end - end + if open { 1int } else { 0 },
        {
            if run[end] == '\'' {
                proof {
                    lemma_kids_stop(d, run@, j as int, 0, end as int, max_end as int);
                }
                open = false;
            } else {
                end = end + 1;
                let piece = text::string_of(run, j, end);
                let ghost before = out@.map_values(f);
                proof {
                    assert forall|k: int| 0 <= k < piece@.len() implies #[trigger] piece@[k] != '\'' by {
                        assert(piece@[k] == run@[j + k]);
                    }
                    assert(!piece@.contains('\''));
                }
                if self.syl_ids.contains_key(piece.as_str()) {
                    out.push(end);
                    assert(out@.map_values(f) =~= before.push(end as int));
                }
            }
        }
        out
    }
}

// ---------------------------------------------------------------------------
// What the search finds
// ---------------------------------------------------------------------------

/// The key after the syllables that end at `ends`, one behind the other from
/// `pos` on, if each of them can be taken.
pub open spec fn chain(d: DictV, run: Seq<char>, pos: int, key: u128, depth: int, ends: Seq<int>) -> Option<u128>
    decreases ends.len(),
{
    if ends.len() == 0 {
        Some(key)
    } else {
        let start = piece_start(run, pos, depth);
        let end = ends[0];
        if start < end <= reach(d, run, start) {
            match step_key(d, run, start, key, end) {
                Some(k) => chain(d, run, end, k, depth + 1, ends.drop_first()),
                None => None,
            }
        } else {
            None
        }
    }
}

/// Whether the letters behind `pos` are read, up to the end of a join, as the
/// syllables that end at `ends`, at most those that are left, with its key.
pub open spec fn reads(
    d: DictV,
    run: Seq<char>,
    pos: int,
    key: u128,
    depth: int,
    join: (int, u128),
    ends: Seq<int>,
) -> bool {
    &&& 0 < ends.len() <= MAX_WORD_SYLS - depth
    &&& ends.last() == join.0
    &&& chain(d, run, pos, key, depth, ends) == Some(join.1)
}

/// The children are the ends that can be taken.
proof fn lemma_kids_are_steps(d: DictV, run: Seq<char>, start: int, key: u128, end: int, e: int, k: u128)
    ensures
        kids_upto(d, run, start, key, end).contains((e, k)) <==> start < e <= end && step_key(d, run, start, key, e)
            == Some(k),
    decreases end - start,
{
    let ks = kids_upto(d, run, start, key, end);
    if end > start {
        lemma_kids_are_steps(d, run, start, key, end - 1, e, k);
        let head = kids_upto(d, run, start, key, end - 1);
        match step_key(d, run, start, key, end) {
            Some(q) => {
                lemma_push_contains(head, (end, q), (e, k));
            },
            None => {},
        }
    }
}

/// Words end behind the position they start from, inside the run.
pub proof fn lemma_words_inside(d: DictV, run: Seq<char>, j: int, word: (int, u128))
    requires
        0 <= j <= run.len(),
        words_from(d, run, j).contains(word),
    ensures
        j < word.0 <= run.len(),
        d.words.contains_key(word.1),
{
    law_walk_finds_what_is_spelled(d, run, j, word);
    let ends = choose|ends: Seq<int>| #[trigger] reads(d, run, j, 0, 0, word, ends);
    lemma_chain_inside(d, run, j, 0, 0, ends);
}

proof fn lemma_chain_inside(d: DictV, run: Seq<char>, pos: int, key: u128, depth: int, ends: Seq<int>)
    requires
        0 <= pos <= run.len(),
        ends.len() > 0,
        chain(d, run, pos, key, depth, ends) is Some,
    ensures
        pos < ends.last() <= run.len(),
    decreases ends.len(),
{
    let start = piece_start(run, pos, depth);
    let k = step_key(d, run, start, key, ends[0])->0;
    let tail = ends.drop_first();
    if tail.len() > 0 {
        lemma_chain_inside(d, run, ends[0], k, depth + 1, tail);
        assert(tail.last() == ends.last());
    }
}

proof fn lemma_push_contains<T>(s: Seq<T>, x: T, y: T)
    ensures
        s.push(x).contains(y) <==> s.contains(y) || y == x,
{
    if s.contains(y) {
        let i = choose|i: int| 0 <= i < s.len() && s[i] == y;
        assert(s.push(x)[i] == y);
    }
    if y == x {
        assert(s.push(x)[s.len() as int] == y);
    }
    if s.push(x).contains(y) {
        let i = choose|i: int| 0 <= i < s.push(x).len() && s.push(x)[i] == y;
        if i < s.len() {
            assert(s[i] == y);
        }
    }
}

proof fn lemma_concat_contains<T>(a: Seq<T>, b: Seq<T>, y: T)
    ensures
        (a + b).contains(y) <==> a.contains(y) || b.contains(y),
{
    let s = a + b;
    if a.contains(y) {
        let i = choose|i: int| 0 <= i < a.len() && a[i] == y;
        assert(s[i] == y);
    }
    if b.contains(y) {
        let i = choose|i: int| 0 <= i < b.len() && b[i] == y;
        assert(s[a.len() + i] == y);
    }
    if s.contains(y) {
        let i = choose|i: int| 0 <= i < s.len() && s[i] == y;
        if i < a.len() {
            assert(a[i] == y);
        } else {
            assert(b[i - a.len()] == y);
        }
    }
}

/// Those of joins that are words.
proof fn lemma_words_among(js: Seq<(int, u128, bool)>, w: (int, u128))
    ensures
        words_among(js).contains(w) <==> js.contains((w.0, w.1, true)),
    decreases js.len(),
{
    if js.len() > 0 {
        let last = js.last();
        lemma_words_among(js.drop_last(), w);
        lemma_push_contains(js.drop_last(), last, (w.0, w.1, true));
        lemma_push_contains(words_among(js.drop_last()), (last.0, last.1), w);
        assert(js.drop_last().push(last) =~= js);
    }
}

/// Joins with their flags.
proof fn lemma_flagged(d: DictV, ks: Seq<(int, u128)>, e: int, k: u128, w: bool)
    ensures
        flagged(d, ks).contains((e, k, w)) <==> ks.contains((e, k)) && w == d.words.contains_key(k),
{
    let js = flagged(d, ks);
    if js.contains((e, k, w)) {
        let i = choose|i: int| 0 <= i < js.len() && js[i] == (e, k, w);
        assert(ks[i] == (e, k));
    }
    if ks.contains((e, k)) {
        let i = choose|i: int| 0 <= i < ks.len() && ks[i] == (e, k);
        assert(js[i] == (e, k, d.words.contains_key(k)));
    }
}

/// Every join is reported, and nothing else: an end and a key are among the
/// joins if and only if the letters up to that end can be read as syllables
/// with that key, with at most one apostrophe between two of them; the flag
/// tells whether the key has words.
pub proof fn law_every_join_is_reported(d: DictV, run: Seq<char>, j: int, e: int, k: u128, w: bool)
    ensures
        joins_from(d, run, j).contains((e, k, w)) <==> w == d.words.contains_key(k) && exists|ends: Seq<int>| #[trigger]
            reads(d, run, j, 0, 0, (e, k), ends),
{
    lemma_walk_reads(d, run, j, 0, 0, (e, k));
    lemma_flagged(d, walk(d, run, j, 0, 0), e, k, w);
}

/// The search finds exactly the words that the letters spell: a word with its
/// end is found if and only if the letters up to that end can be read as its
/// syllables, with at most one apostrophe between two of them.
pub proof fn law_walk_finds_what_is_spelled(d: DictV, run: Seq<char>, j: int, word: (int, u128))
    ensures
        words_from(d, run, j).contains(word) <==> d.words.contains_key(word.1) && exists|ends: Seq<int>| #[trigger]
            reads(d, run, j, 0, 0, word, ends),
{
    law_every_join_is_reported(d, run, j, word.0, word.1, true);
    lemma_words_among(joins_from(d, run, j), word);
}

/// The walk finds what can be read.
proof fn lemma_walk_reads(d: DictV, run: Seq<char>, pos: int, key: u128, depth: int, join: (int, u128))
    requires
        0 <= depth,
    ensures
        walk(d, run, pos, key, depth).contains(join) <==> exists|ends: Seq<int>| #[trigger]
            reads(d, run, pos, key, depth, join, ends),
    decreases MAX_WORD_SYLS - depth, 0int,
{
    if depth < MAX_WORD_SYLS {
        let start = piece_start(run, pos, depth);
        let top = reach(d, run, start);
        let ks = kids(d, run, pos, key, depth);
        lemma_concat_contains(ks, below(d, run, ks, depth + 1), join);
        lemma_below(d, run, ks, depth + 1, join);
        lemma_kids_are_steps(d, run, start, key, top, join.0, join.1);
        if walk(d, run, pos, key, depth).contains(join) {
            if ks.contains(join) {
                let ends = seq![join.0];
                assert(ends.drop_first() =~= Seq::<int>::empty());
                assert(chain(d, run, join.0, join.1, depth + 1, ends.drop_first()) == Some(join.1));
                assert(reads(d, run, pos, key, depth, join, ends));
            } else {
                let (i, tail) = choose|i: int, tail: Seq<int>|
                    0 <= i < ks.len() && #[trigger] reads(d, run, ks[i].0, ks[i].1, depth + 1, join, tail);
                let e = ks[i].0;
                let k = ks[i].1;
                assert(ks.contains((e, k)));
                lemma_kids_are_steps(d, run, start, key, top, e, k);
                let ends = seq![e] + tail;
                assert(ends.drop_first() =~= tail);
                assert(ends.last() == tail.last());
                assert(reads(d, run, pos, key, depth, join, ends));
            }
        }
        if exists|ends: Seq<int>| #[trigger] reads(d, run, pos, key, depth, join, ends) {
            let ends = choose|ends: Seq<int>| #[trigger] reads(d, run, pos, key, depth, join, ends);
            let e = ends[0];
            let k = step_key(d, run, start, key, e)->0;
            lemma_kids_are_steps(d, run, start, key, top, e, k);
            let tail = ends.drop_first();
            if tail.len() == 0 {
                assert(ends.last() == e);
                assert(chain(d, run, e, k, depth + 1, tail) == Some(k));
                assert(ks.contains(join));
            } else {
                let i = choose|i: int| 0 <= i < ks.len() && ks[i] == (e, k);
                assert(tail.last() == ends.last());
                assert(reads(d, run, ks[i].0, ks[i].1, depth + 1, join, tail));
            }
        }
    } else {
        assert forall|ends: Seq<int>| !#[trigger] reads(d, run, pos, key, depth, join, ends) by {}
    }
}

proof fn lemma_below(d: DictV, run: Seq<char>, ks: Seq<(int, u128)>, depth: int, join: (int, u128))
    requires
        0 <= depth,
    ensures
        below(d, run, ks, depth).contains(join) <==> exists|i: int, tail: Seq<int>|
            0 <= i < ks.len() && #[trigger] reads(d, run, ks[i].0, ks[i].1, depth, join, tail),
    decreases MAX_WORD_SYLS - depth, ks.len() + 1,
{
    if ks.len() > 0 {
        let t = ks.drop_last();
        let l = ks.last();
        let n = t.len() as int;
        lemma_walk_reads(d, run, l.0, l.1, depth, join);
        lemma_below(d, run, t, depth, join);
        lemma_concat_contains(walk(d, run, l.0, l.1, depth), below(d, run, t, depth), join);
        if below(d, run, ks, depth).contains(join) {
            if walk(d, run, l.0, l.1, depth).contains(join) {
                let tail = choose|tail: Seq<int>| #[trigger] reads(d, run, l.0, l.1, depth, join, tail);
                assert(reads(d, run, ks[n].0, ks[n].1, depth, join, tail));
            } else {
                let (i, tail) = choose|i: int, tail: Seq<int>|
                    0 <= i < t.len() && #[trigger] reads(d, run, t[i].0, t[i].1, depth, join, tail);
                assert(reads(d, run, ks[i].0, ks[i].1, depth, join, tail));
            }
        }
        if exists|i: int, tail: Seq<int>|
            0 <= i < ks.len() && #[trigger] reads(d, run, ks[i].0, ks[i].1, depth, join, tail) {
            let (i, tail) = choose|i: int, tail: Seq<int>|
                0 <= i < ks.len() && #[trigger] reads(d, run, ks[i].0, ks[i].1, depth, join, tail);
            if i < n {
                assert(reads(d, run, t[i].0, t[i].1, depth, join, tail));
            } else {
                assert(reads(d, run, l.0, l.1, depth, join, tail));
            }
        }
    }
}

// ---------------------------------------------------------------------------
// What keys tell
// ---------------------------------------------------------------------------

/// `base` to the power of `n`.
pub open spec fn power(base: int, n: nat) -> int
    decreases n,
{
    if n == 0 {
        1
    } else {
        power(base, (n - 1) as nat) * base
    }
}

/// Whether numbers of syllables fit their place in a key.
pub open spec fn numbered(known: Seq<Seq<char>>) -> bool {
    known.no_duplicates() && known.len() < 512
}

/// A key with one more syllable, as a number.
proof fn lemma_packed(key: u128, id: u16)
    requires
        key < 0x20_0000_0000_0000_0000_0000_0000_0000,
        id < 512,
    ensures
        packed(key, id) == key * 512 + id,
{
    assert((key << 9u32) | (id as u128) == key * 512 + id) by (bit_vector)
        requires
            key < 0x20_0000_0000_0000_0000_0000_0000_0000,
            id < 512,
    ;
}

/// The number of a known syllable.
proof fn lemma_id(known: Seq<Seq<char>>, s: Seq<char>)
    requires
        numbered(known),
        known.contains(s),
    ensures
        1 <= id_of(known, s) < 512,
        id_of(known, s) == known.index_of(s) + 1,
        known[known.index_of(s)] == s,
{
}

proof fn lemma_power_bound(base: int, n: nat, m: nat)
    requires
        1 <= base,
        n <= m,
    ensures
        1 <= power(base, n) <= power(base, m),
    decreases m,
{
    if n < m {
        lemma_power_bound(base, n, (m - 1) as nat);
        let p = power(base, (m - 1) as nat);
        assert(p <= p * base) by (nonlinear_arith)
            requires
                1 <= p,
                1 <= base,
        ;
    } else if n > 0 {
        lemma_power_bound(base, (n - 1) as nat, (n - 1) as nat);
        let p = power(base, (n - 1) as nat);
        assert(1 <= p * base) by (nonlinear_arith)
            requires
                1 <= p,
                1 <= base,
        ;
    }
}

/// The key of known syllables, as a number.
proof fn lemma_key(known: Seq<Seq<char>>, syls: Seq<Seq<char>>)
    requires
        numbered(known),
        forall|i: int| 0 <= i < syls.len() ==> known.contains(#[trigger] syls[i]),
        syls.len() <= 14,
    ensures
        0 <= key_of(known, syls) < power(512, syls.len()),
        syls.len() > 0 ==> key_of(known, syls) == key_of(known, syls.drop_last()) * 512 + id_of(known, syls.last()),
    decreases syls.len(),
{
    if syls.len() > 0 {
        let t = syls.drop_last();
        assert forall|i: int| 0 <= i < t.len() implies known.contains(#[trigger] t[i]) by {
            assert(t[i] == syls[i]);
        }
        lemma_key(known, t);
        lemma_power_bound(512, t.len(), 13);
        assert(power(512, 13) == 0x20_0000_0000_0000_0000_0000_0000_0000) by {
            reveal_with_fuel(power, 14);
        }
        assert(known.contains(syls[syls.len() - 1]));
        lemma_id(known, syls.last());
        lemma_packed(key_of(known, t), id_of(known, syls.last()));
        let k = key_of(known, t) as int;
        let p = power(512, t.len());
        assert((k + 1) * 512 <= p * 512) by (nonlinear_arith)
            requires
                k + 1 <= p,
        ;
    }
}

/// Different syllables have different keys, as long as the numbers of syllables
/// fit their nine bits and there are at most fourteen of them.
pub proof fn law_keys_tell_syllables_apart(known: Seq<Seq<char>>, a: Seq<Seq<char>>, b: Seq<Seq<char>>)
    requires
        numbered(known),
        forall|i: int| 0 <= i < a.len() ==> known.contains(#[trigger] a[i]),
        forall|i: int| 0 <= i < b.len() ==> known.contains(#[trigger] b[i]),
        a.len() <= 14,
        b.len() <= 14,
    ensures
        key_of(known, a) == key_of(known, b) ==> a == b,
    decreases a.len(),
{
    lemma_key(known, a);
    lemma_key(known, b);
    if a.len() > 0 {
        assert(known.contains(a[a.len() - 1]));
        lemma_id(known, a.last());
        lemma_key(known, a.drop_last());
    }
    if b.len() > 0 {
        assert(known.contains(b[b.len() - 1]));
        lemma_id(known, b.last());
        lemma_key(known, b.drop_last());
    }
    if key_of(known, a) == key_of(known, b) {
        if a.len() == 0 || b.len() == 0 {
            assert(a =~= b);
        } else {
            let s = a.drop_last();
            let t = b.drop_last();
            assert forall|i: int| 0 <= i < s.len() implies known.contains(#[trigger] s[i]) by {
                assert(s[i] == a[i]);
            }
            assert forall|i: int| 0 <= i < t.len() implies known.contains(#[trigger] t[i]) by {
                assert(t[i] == b[i]);
            }
            law_keys_tell_syllables_apart(known, s, t);
            assert(id_of(known, a.last()) == id_of(known, b.last()));
            assert(a.last() == b.last());
            assert(a =~= s.push(a.last()));
            assert(b =~= t.push(b.last()));
        }
    }
}

/// The words of entries with the given syllables, in the order of the entries.
pub open spec fn spelled(entries: Seq<EntryV>, syls: Seq<Seq<char>>) -> Seq<Scored>
    decreases entries.len(),
{
    if entries.len() == 0 {
        Seq::empty()
    } else {
        let head = spelled(entries.drop_last(), syls);
        if entries.last().syls == syls {
            head.push((entries.last().word, entries.last().score))
        } else {
            head
        }
    }
}

/// Known syllables do not repeat.
proof fn lemma_syllables_distinct(entries: Seq<EntryV>)
    ensures
        syllables_of(entries).no_duplicates(),
    decreases entries.len(),
{
    if entries.len() > 0 {
        lemma_syllables_distinct(entries.drop_last());
        lemma_with_distinct(syllables_of(entries.drop_last()), entries.last().syls);
    }
}

proof fn lemma_with_distinct(known: Seq<Seq<char>>, syls: Seq<Seq<char>>)
    requires
        known.no_duplicates(),
    ensures
        with_syllables(known, syls).no_duplicates(),
    decreases syls.len(),
{
    if syls.len() > 0 {
        lemma_with_distinct(known, syls.drop_last());
        let k = with_syllables(known, syls.drop_last());
        if !k.contains(syls.last()) {
            lemma_new_syllable(k, syls.last());
        }
    }
}

proof fn lemma_keyed(known: Seq<Seq<char>>, entries: Seq<EntryV>, syls: Seq<Seq<char>>)
    requires
        numbered(known),
        forall|i: int, j: int|
            0 <= i < entries.len() && 0 <= j < entries[i].syls.len() ==> known.contains(#[trigger] entries[i].syls[j]),
        forall|i: int| 0 <= i < syls.len() ==> known.contains(#[trigger] syls[i]),
        1 <= syls.len() <= MAX_WORD_SYLS,
    ensures
        keyed(known, entries, key_of(known, syls)) == spelled(entries, syls),
    decreases entries.len(),
{
    if entries.len() > 0 {
        let t = entries.drop_last();
        let e = entries.last();
        assert forall|i: int, j: int| 0 <= i < t.len() && 0 <= j < t[i].syls.len() implies known.contains(
            #[trigger] t[i].syls[j],
        ) by {
            assert(t[i].syls[j] == entries[i].syls[j]);
        }
        lemma_keyed(known, t, syls);
        assert forall|j: int| 0 <= j < e.syls.len() implies known.contains(#[trigger] e.syls[j]) by {
            assert(entries[entries.len() - 1].syls[j] == e.syls[j]);
        }
        if looked_up(e) {
            law_keys_tell_syllables_apart(known, e.syls, syls);
        }
    }
}

/// A lookup gives exactly the words with the given syllables, by descending
/// score, in a dictionary whose syllable numbers fit their nine bits.
pub proof fn law_lookup_is_exact(entries: Seq<EntryV>, syls: Seq<Seq<char>>)
    requires
        syllables_of(entries).len() < 512,
        forall|i: int| 0 <= i < syls.len() ==> syllables_of(entries).contains(#[trigger] syls[i]),
        1 <= syls.len() <= MAX_WORD_SYLS,
    ensures
        ({
            let d = DictV::of(entries);
            let k = key_of(d.syls, syls);
            &&& d.words.contains_key(k) <==> spelled(entries, syls).len() > 0
            &&& d.words.contains_key(k) ==> d.words[k] == rank::ranked(spelled(entries, syls), score_key())
        }),
{
    let known = syllables_of(entries);
    lemma_syllables_distinct(entries);
    assert forall|i: int, j: int|
        0 <= i < entries.len() && 0 <= j < entries[i].syls.len() implies known.contains(
        #[trigger] entries[i].syls[j],
    ) by {
        lemma_known(entries, i, j);
    }
    lemma_keyed(known, entries, syls);
}

/// The key of letters, as a number.
proof fn lemma_initials(letters: Seq<u8>)
    requires
        letters.len() <= 8,
        forall|i: int| 0 <= i < letters.len() ==> 97 <= #[trigger] letters[i] <= 122,
    ensures
        0 <= initials_key(letters) < power(32, letters.len()),
        letters.len() > 0 ==> initials_key(letters) == initials_key(letters.drop_last()) * 32 + (letters.last() - 96),
    decreases letters.len(),
{
    if letters.len() > 0 {
        let t = letters.drop_last();
        assert forall|i: int| 0 <= i < t.len() implies 97 <= #[trigger] t[i] <= 122 by {
            assert(t[i] == letters[i]);
        }
        lemma_initials(t);
        lemma_power_bound(32, t.len(), 7);
        assert(power(32, 7) == 0x8_0000_0000) by {
            reveal_with_fuel(power, 8);
        }
        assert(97 <= letters[letters.len() - 1] <= 122);
        let key = initials_key(t);
        let b: u64 = (letters.last() - 96) as u64;
        assert((key << 5u64) | b == key * 32 + b) by (bit_vector)
            requires
                key < 0x8_0000_0000,
                b < 32,
        ;
        let k = key as int;
        let p = power(32, t.len());
        assert((k + 1) * 32 <= p * 32) by (nonlinear_arith)
            requires
                k + 1 <= p,
        ;
    }
}

/// Different initials have different keys.
pub proof fn law_initials_tell_letters_apart(a: Seq<u8>, b: Seq<u8>)
    requires
        packed_initials(a) is Some,
        packed_initials(a) == packed_initials(b),
    ensures
        a == b,
{
    lemma_same_initials(a, b);
}

proof fn lemma_same_initials(a: Seq<u8>, b: Seq<u8>)
    requires
        a.len() <= 8,
        b.len() <= 8,
        forall|i: int| 0 <= i < a.len() ==> 97 <= #[trigger] a[i] <= 122,
        forall|i: int| 0 <= i < b.len() ==> 97 <= #[trigger] b[i] <= 122,
        initials_key(a) == initials_key(b),
    ensures
        a == b,
    decreases a.len(),
{
    lemma_initials(a);
    lemma_initials(b);
    let s = a.drop_last();
    let t = b.drop_last();
    if a.len() > 0 {
        assert forall|i: int| 0 <= i < s.len() implies 97 <= #[trigger] s[i] <= 122 by {
            assert(s[i] == a[i]);
        }
        assert(97 <= a[a.len() - 1] <= 122);
        lemma_initials(s);
    }
    if b.len() > 0 {
        assert forall|i: int| 0 <= i < t.len() implies 97 <= #[trigger] t[i] <= 122 by {
            assert(t[i] == b[i]);
        }
        assert(97 <= b[b.len() - 1] <= 122);
        lemma_initials(t);
    }
    if a.len() == 0 || b.len() == 0 {
        assert(a =~= b);
    } else {
        lemma_same_initials(s, t);
        assert(a =~= s.push(a.last()));
        assert(b =~= t.push(b.last()));
    }
}

// ---------------------------------------------------------------------------
// Each join once
// ---------------------------------------------------------------------------

/// Whether the numbers of syllables fit their place in a key and tell the
/// syllables apart.
spec fn ids_fit(d: DictV) -> bool {
    &&& forall|s: Seq<char>| #[trigger] d.ids.contains_key(s) ==> 1 <= d.ids[s] < 512
    &&& forall|s: Seq<char>, t: Seq<char>| #[trigger]
        d.ids.contains_key(s) && #[trigger] d.ids.contains_key(t) && d.ids[s] == d.ids[t] ==> s == t
}

/// Whether a key is as large as one of `n` syllables.
spec fn sized(key: int, n: int) -> bool {
    if n <= 0 {
        key == 0
    } else {
        power(512, (n - 1) as nat) <= key < power(512, n as nat)
    }
}

/// A key without its last `m` syllables.
spec fn without_last(key: int, m: int) -> int
    decreases m,
{
    if m <= 0 {
        key
    } else {
        without_last(key, m - 1) / 512
    }
}

/// A key is as large as one number of syllables only.
proof fn lemma_sized_once(key: int, n: int, m: int)
    requires
        0 <= n,
        0 <= m,
        sized(key, n),
        sized(key, m),
    ensures
        n == m,
{
    if n < m {
        lemma_power_bound(512, n as nat, (m - 1) as nat);
    } else if m < n {
        lemma_power_bound(512, m as nat, (n - 1) as nat);
    }
}

/// One more syllable makes a key one syllable larger.
proof fn lemma_packed_sized(key: u128, id: u16, n: int)
    requires
        0 <= n < MAX_WORD_SYLS,
        sized(key as int, n),
        1 <= id < 512,
    ensures
        packed(key, id) == key * 512 + id,
        sized(packed(key, id) as int, n + 1),
        packed(key, id) as int / 512 == key,
{
    reveal_with_fuel(power, 14);
    lemma_power_bound(512, n as nat, 13);
    lemma_packed(key, id);
    assert(power(512, (n + 1) as nat) == power(512, n as nat) * 512);
    if n > 0 {
        assert(power(512, n as nat) == power(512, (n - 1) as nat) * 512);
    }
}

/// The key behind a chain is that before it with as many syllables more.
proof fn lemma_chain_sized(d: DictV, run: Seq<char>, pos: int, key: u128, depth: int, ends: Seq<int>)
    requires
        ids_fit(d),
        0 <= depth,
        depth + ends.len() <= MAX_WORD_SYLS,
        sized(key as int, depth),
        chain(d, run, pos, key, depth, ends) is Some,
    ensures
        sized(chain(d, run, pos, key, depth, ends)->0 as int, depth + ends.len()),
        without_last(chain(d, run, pos, key, depth, ends)->0 as int, ends.len() as int) == key,
    decreases ends.len(),
{
    if ends.len() > 0 {
        let start = piece_start(run, pos, depth);
        let piece = run.subrange(start, ends[0]);
        let k = step_key(d, run, start, key, ends[0])->0;
        assert(d.ids.contains_key(piece));
        lemma_packed_sized(key, d.ids[piece], depth);
        lemma_chain_sized(d, run, ends[0], k, depth + 1, ends.drop_first());
    }
}

/// A join of a walk has more syllables than the walk starts from, and starts
/// with those.
proof fn lemma_walk_sized(d: DictV, run: Seq<char>, pos: int, key: u128, depth: int, join: (int, u128)) -> (n: int)
    requires
        ids_fit(d),
        0 <= depth,
        sized(key as int, depth),
        walk(d, run, pos, key, depth).contains(join),
    ensures
        depth < n <= MAX_WORD_SYLS,
        sized(join.1 as int, n),
        without_last(join.1 as int, n - depth) == key,
{
    lemma_walk_reads(d, run, pos, key, depth, join);
    let ends = choose|ends: Seq<int>| #[trigger] reads(d, run, pos, key, depth, join, ends);
    lemma_chain_sized(d, run, pos, key, depth, ends);
    depth + ends.len()
}

/// Children come by their ends, and have different keys.
proof fn lemma_kids_differ(d: DictV, run: Seq<char>, start: int, key: u128, depth: int, end: int)
    requires
        ids_fit(d),
        0 <= start,
        end <= run.len(),
        0 <= depth < MAX_WORD_SYLS,
        sized(key as int, depth),
    ensures
        forall|i: int| 0 <= i < kids_upto(d, run, start, key, end).len() ==> {
            let k = #[trigger] kids_upto(d, run, start, key, end)[i];
            &&& start < k.0 <= end
            &&& step_key(d, run, start, key, k.0) == Some(k.1)
            &&& sized(k.1 as int, depth + 1)
        },
        forall|i: int, j: int|
            0 <= i < j < kids_upto(d, run, start, key, end).len() ==> (#[trigger] kids_upto(
                d,
                run,
                start,
                key,
                end,
            )[i]).1 != (#[trigger] kids_upto(d, run, start, key, end)[j]).1,
    decreases end - start,
{
    if end > start {
        lemma_kids_differ(d, run, start, key, depth, end - 1);
        let head = kids_upto(d, run, start, key, end - 1);
        let ks = kids_upto(d, run, start, key, end);
        if step_key(d, run, start, key, end) is Some {
            let piece = run.subrange(start, end);
            assert(d.ids.contains_key(piece));
            lemma_packed_sized(key, d.ids[piece], depth);
            assert forall|i: int| 0 <= i < head.len() implies (#[trigger] head[i]).1 != ks.last().1 by {
                let other = run.subrange(start, head[i].0);
                assert(d.ids.contains_key(other));
                lemma_packed_sized(key, d.ids[other], depth);
                assert(other.len() != piece.len());
            }
            assert forall|i: int| 0 <= i < ks.len() implies ({
                let k = #[trigger] ks[i];
                &&& start < k.0 <= end
                &&& step_key(d, run, start, key, k.0) == Some(k.1)
                &&& sized(k.1 as int, depth + 1)
            }) by {
                if i < head.len() {
                    assert(ks[i] == head[i]);
                }
            }
            assert forall|i: int, j: int| 0 <= i < j < ks.len() implies (#[trigger] ks[i]).1 != (#[trigger] ks[j]).1 by {
                assert(ks[i] == head[i]);
                if j < head.len() {
                    assert(ks[j] == head[j]);
                }
            }
        }
    }
}

/// Two sequences without repetition and without a common item, joined.
proof fn lemma_concat_distinct<T>(a: Seq<T>, b: Seq<T>)
    requires
        a.no_duplicates(),
        b.no_duplicates(),
        forall|x: T| !(#[trigger] a.contains(x) && b.contains(x)),
    ensures
        (a + b).no_duplicates(),
{
    let s = a + b;
    assert forall|i: int, j: int| 0 <= i < s.len() && 0 <= j < s.len() && i != j implies s[i] != s[j] by {
        if i < a.len() && j >= a.len() {
            assert(a.contains(a[i]));
            assert(b[j - a.len()] == s[j]);
        } else if j < a.len() && i >= a.len() {
            assert(a.contains(a[j]));
            assert(b[i - a.len()] == s[i]);
        } else if i < a.len() {
            assert(a[i] != a[j]);
        } else {
            assert(b[i - a.len()] != b[j - a.len()]);
        }
    }
}

/// A walk finds each join once.
proof fn lemma_walk_distinct(d: DictV, run: Seq<char>, pos: int, key: u128, depth: int)
    requires
        ids_fit(d),
        0 <= pos,
        0 <= depth,
        sized(key as int, depth),
    ensures
        walk(d, run, pos, key, depth).no_duplicates(),
    decreases MAX_WORD_SYLS - depth, 0int,
{
    if depth < MAX_WORD_SYLS {
        let start = piece_start(run, pos, depth);
        let ks = kids(d, run, pos, key, depth);
        let rest = below(d, run, ks, depth + 1);
        lemma_kids_differ(d, run, start, key, depth, reach(d, run, start));
        lemma_below_distinct(d, run, ks, depth + 1);
        assert forall|x: (int, u128)| !(#[trigger] ks.contains(x) && rest.contains(x)) by {
            if ks.contains(x) && rest.contains(x) {
                let i = choose|i: int| 0 <= i < ks.len() && ks[i] == x;
                let (j, n) = lemma_below_sized(d, run, ks, depth + 1, x);
                lemma_sized_once(x.1 as int, depth + 1, n);
            }
        }
        lemma_concat_distinct(ks, rest);
    }
}

/// A join behind children has more syllables than they, and starts with those
/// of one of them.
proof fn lemma_below_sized(d: DictV, run: Seq<char>, ks: Seq<(int, u128)>, depth: int, join: (int, u128)) -> (r: (
    int,
    int,
))
    requires
        ids_fit(d),
        0 <= depth,
        forall|i: int| 0 <= i < ks.len() ==> sized((#[trigger] ks[i]).1 as int, depth),
        below(d, run, ks, depth).contains(join),
    ensures
        0 <= r.0 < ks.len(),
        depth < r.1 <= MAX_WORD_SYLS,
        sized(join.1 as int, r.1),
        without_last(join.1 as int, r.1 - depth) == ks[r.0].1,
    decreases ks.len(),
{
    let l = ks.last();
    let t = ks.drop_last();
    lemma_concat_contains(walk(d, run, l.0, l.1, depth), below(d, run, t, depth), join);
    assert(l == ks[ks.len() - 1]);
    if walk(d, run, l.0, l.1, depth).contains(join) {
        let n = lemma_walk_sized(d, run, l.0, l.1, depth, join);
        (ks.len() - 1, n)
    } else {
        assert forall|i: int| 0 <= i < t.len() implies sized((#[trigger] t[i]).1 as int, depth) by {
            assert(t[i] == ks[i]);
        }
        lemma_below_sized(d, run, t, depth, join)
    }
}

proof fn lemma_below_distinct(d: DictV, run: Seq<char>, ks: Seq<(int, u128)>, depth: int)
    requires
        ids_fit(d),
        0 <= depth,
        forall|i: int| 0 <= i < ks.len() ==> 0 <= (#[trigger] ks[i]).0 && sized(ks[i].1 as int, depth),
        forall|i: int, j: int| 0 <= i < j < ks.len() ==> (#[trigger] ks[i]).1 != (#[trigger] ks[j]).1,
    ensures
        below(d, run, ks, depth).no_duplicates(),
    decreases MAX_WORD_SYLS - depth, ks.len() + 1,
{
    if ks.len() > 0 {
        let l = ks.last();
        let t = ks.drop_last();
        assert(l == ks[ks.len() - 1]);
        assert forall|i: int| 0 <= i < t.len() implies 0 <= (#[trigger] t[i]).0 && sized(t[i].1 as int, depth) by {
            assert(t[i] == ks[i]);
        }
        assert forall|i: int, j: int| 0 <= i < j < t.len() implies (#[trigger] t[i]).1 != (#[trigger] t[j]).1 by {
            assert(t[i] == ks[i] && t[j] == ks[j]);
        }
        let a = walk(d, run, l.0, l.1, depth);
        let b = below(d, run, t, depth);
        lemma_walk_distinct(d, run, l.0, l.1, depth);
        lemma_below_distinct(d, run, t, depth);
        assert forall|x: (int, u128)| !(#[trigger] a.contains(x) && b.contains(x)) by {
            if a.contains(x) && b.contains(x) {
                let n = lemma_walk_sized(d, run, l.0, l.1, depth, x);
                let (i, m) = lemma_below_sized(d, run, t, depth, x);
                lemma_sized_once(x.1 as int, n, m);
                assert(t[i] == ks[i]);
                assert(ks[i].1 != ks[ks.len() - 1].1);
            }
        }
        lemma_concat_distinct(a, b);
    }
}

/// Joins that do not repeat have words that do not repeat.
proof fn lemma_words_among_distinct(js: Seq<(int, u128, bool)>)
    requires
        js.no_duplicates(),
    ensures
        words_among(js).no_duplicates(),
    decreases js.len(),
{
    if js.len() > 0 {
        let head = js.drop_last();
        let l = js.last();
        let ws = words_among(head);
        assert(head.no_duplicates()) by {
            assert forall|i: int, j: int| 0 <= i < head.len() && 0 <= j < head.len() && i != j implies head[i] != head[j] by {
                assert(js[i] != js[j]);
            }
        }
        lemma_words_among_distinct(head);
        if l.2 {
            lemma_words_among(head, (l.0, l.1));
            if head.contains(l) {
                let i = choose|i: int| 0 <= i < head.len() && head[i] == l;
                assert(js[i] != js[js.len() - 1]);
            }
            let one = seq![(l.0, l.1)];
            assert forall|x: (int, u128)| !(#[trigger] ws.contains(x) && one.contains(x)) by {
                if one.contains(x) {
                    assert(x == (l.0, l.1));
                }
            }
            lemma_concat_distinct(ws, one);
            assert(ws.push((l.0, l.1)) =~= ws + one);
        }
    }
}

/// Nothing is found twice: in a dictionary whose syllables have numbers of nine
/// bits, each join, and so each word with its end, is reported once.
pub proof fn law_each_join_is_reported_once(entries: Seq<EntryV>, run: Seq<char>, j: int)
    requires
        syllables_of(entries).len() < 512,
        0 <= j,
    ensures
        joins_from(DictV::of(entries), run, j).no_duplicates(),
        words_from(DictV::of(entries), run, j).no_duplicates(),
{
    let d = DictV::of(entries);
    let known = syllables_of(entries);
    lemma_syllables_distinct(entries);
    assert(ids_fit(d)) by {
        assert forall|s: Seq<char>| #[trigger] d.ids.contains_key(s) implies 1 <= d.ids[s] < 512 by {
            lemma_id(known, s);
        }
        assert forall|s: Seq<char>, t: Seq<char>| #[trigger]
            d.ids.contains_key(s) && #[trigger] d.ids.contains_key(t) && d.ids[s] == d.ids[t] implies s == t by {
            lemma_id(known, s);
            lemma_id(known, t);
        }
    }
    lemma_walk_distinct(d, run, j, 0, 0);
    let ks = walk(d, run, j, 0, 0);
    let js = joins_from(d, run, j);
    assert forall|i: int, k: int| 0 <= i < js.len() && 0 <= k < js.len() && i != k implies js[i] != js[k] by {
        assert(ks[i] != ks[k]);
    }
    lemma_words_among_distinct(js);
}

// ---------------------------------------------------------------------------
// From dictionary lines to what letters spell
// ---------------------------------------------------------------------------

/// A line of a dictionary text holds a word, its frequency and its syllables,
/// with tabs between them; whatever stands behind a third tab does not matter.
/// A line with less says nothing, and lines are read one by one, in order.
pub proof fn law_dictionary_lines_have_three_fields(
    ls: Seq<Seq<char>>,
    word: Seq<char>,
    freq: Seq<char>,
    syls: Seq<char>,
    rest: Seq<char>,
)
    requires
        !word.contains('\t'),
        !freq.contains('\t'),
        !syls.contains('\t'),
    ensures
        ({
            let line = word.push('\t') + freq.push('\t') + syls;
            let said = DictLineV { word, freq, syls: text::split(syls, '\'') };
            &&& dict_lines_in(ls.push(line)) == dict_lines_in(ls).push(said)
            &&& dict_lines_in(ls.push(line.push('\t') + rest)) == dict_lines_in(ls).push(said)
            &&& dict_lines_in(ls.push(word)) == dict_lines_in(ls)
            &&& dict_lines_in(ls.push(word.push('\t') + freq)) == dict_lines_in(ls)
            &&& dict_lines_in(Seq::<Seq<char>>::empty()).len() == 0
        }),
{
    let t = '\t';
    let line = word.push(t) + freq.push(t) + syls;
    let long = line.push(t) + rest;
    text::lemma_split_single(word, t);
    text::lemma_split_single(freq, t);
    text::lemma_split_single(syls, t);
    text::lemma_split_join(word, freq, t);
    text::lemma_split_join(word.push(t) + freq, syls, t);
    text::lemma_split_join(line, rest, t);
    assert((word.push(t) + freq).push(t) + syls =~= line);
    assert(text::split(word.push(t) + freq, t) =~= seq![word, freq]);
    assert(text::split(line, t) =~= seq![word, freq, syls]);
    let f = text::split(long, t);
    assert(f == seq![word, freq, syls] + text::split(rest, t));
    assert(f[0] == word && f[1] == freq && f[2] == syls);
    assert(ls.push(line).drop_last() =~= ls);
    assert(ls.push(long).drop_last() =~= ls);
    assert(ls.push(word).drop_last() =~= ls);
    assert(ls.push(word.push(t) + freq).drop_last() =~= ls);
}

/// Whether an apostrophe stands before syllable `m`.
pub open spec fn parted(seps: Seq<bool>, m: int) -> bool {
    m > 0 && seps[m - 1]
}

/// Where the first `m` syllables end if they stand one behind the other from
/// `j` on, with an apostrophe before those that `seps` parts.
pub open spec fn end_at(j: int, syls: Seq<Seq<char>>, seps: Seq<bool>, m: int) -> int
    decreases m, 0int,
{
    if m <= 0 {
        j
    } else {
        start_at(j, syls, seps, m - 1) + syls[m - 1].len()
    }
}

/// Where syllable `m` starts.
pub open spec fn start_at(j: int, syls: Seq<Seq<char>>, seps: Seq<bool>, m: int) -> int
    decreases m, 1int,
{
    end_at(j, syls, seps, m) + if parted(seps, m) {
        1int
    } else {
        0
    }
}

/// Whether the letters from `j` to `e` are these syllables, one behind the
/// other, with an apostrophe before those that `seps` parts.
pub open spec fn spelled_at(run: Seq<char>, j: int, e: int, syls: Seq<Seq<char>>, seps: Seq<bool>) -> bool {
    &&& 0 <= j && end_at(j, syls, seps, syls.len() as int) == e && e <= run.len()
    &&& forall|m: int|
        0 <= m < syls.len() ==> #[trigger] syls[m] == run.subrange(
            start_at(j, syls, seps, m),
            start_at(j, syls, seps, m) + syls[m].len(),
        )
    &&& forall|m: int|
        0 <= m < syls.len() && #[trigger] parted(seps, m) ==> run[end_at(j, syls, seps, m)] == '\''
}

/// The ends of the syllables from syllable `m` on.
spec fn ends_from(j: int, syls: Seq<Seq<char>>, seps: Seq<bool>, m: int) -> Seq<int> {
    Seq::new((syls.len() - m) as nat, |x: int| end_at(j, syls, seps, m + x + 1))
}

proof fn lemma_ends_grow(j: int, syls: Seq<Seq<char>>, seps: Seq<bool>, m: int, n: int)
    requires
        0 <= m <= n <= syls.len(),
    ensures
        end_at(j, syls, seps, m) <= end_at(j, syls, seps, n),
        j <= end_at(j, syls, seps, m),
    decreases n,
{
    if m < n {
        lemma_ends_grow(j, syls, seps, m, n - 1);
    } else if m > 0 {
        lemma_ends_grow(j, syls, seps, m - 1, m - 1);
    }
}

/// A text has at least as many bytes as characters.
proof fn lemma_bytes_cover(s: Seq<char>)
    ensures
        vstd::utf8::encode_utf8(s).len() >= s.len(),
    decreases s.len(),
{
    if s.len() > 0 {
        lemma_bytes_cover(s.drop_first());
    }
}

proof fn lemma_longest(known: Seq<Seq<char>>, s: Seq<char>)
    requires
        known.contains(s),
    ensures
        s.len() <= longest(known),
    decreases known.len(),
{
    let i = choose|i: int| 0 <= i < known.len() && known[i] == s;
    lemma_bytes_cover(known.last());
    if i < known.len() - 1 {
        assert(known.drop_last()[i] == s);
        lemma_longest(known.drop_last(), s);
    }
}

proof fn lemma_spelling_is_a_chain(
    entries: Seq<EntryV>,
    i: int,
    run: Seq<char>,
    j: int,
    e: int,
    seps: Seq<bool>,
    m: int,
)
    requires
        0 <= i < entries.len(),
        spelled_at(run, j, e, entries[i].syls, seps),
        forall|m: int|
            0 <= m < entries[i].syls.len() ==> (#[trigger] entries[i].syls[m]).len() > 0 && !entries[i].syls[m].contains('\''),
        0 <= m <= entries[i].syls.len(),
    ensures
        chain(
            DictV::of(entries),
            run,
            end_at(j, entries[i].syls, seps, m),
            key_of(syllables_of(entries), entries[i].syls.take(m)),
            m,
            ends_from(j, entries[i].syls, seps, m),
        ) == Some(key_of(syllables_of(entries), entries[i].syls)),
    decreases entries[i].syls.len() - m,
{
    let d = DictV::of(entries);
    let known = syllables_of(entries);
    let syls = entries[i].syls;
    let n = syls.len() as int;
    let ends = ends_from(j, syls, seps, m);
    if m == n {
        assert(syls.take(m) =~= syls);
    } else {
        let pos = end_at(j, syls, seps, m);
        let start = start_at(j, syls, seps, m);
        let end = end_at(j, syls, seps, m + 1);
        let s = syls[m];
        lemma_ends_grow(j, syls, seps, m + 1, n);
        lemma_ends_grow(j, syls, seps, m, m);
        assert(end == start + s.len());
        assert(s == run.subrange(start, end));
        assert(s[0] == run[start]);
        assert(run[start] != '\'') by {
            if run[start] == '\'' {
                assert(s.contains(s[0]));
            }
        }
        if parted(seps, m) {
            assert(run[pos] == '\'');
        }
        assert(piece_start(run, pos, m) == start);
        lemma_known(entries, i, m);
        lemma_longest(known, s);
        assert(end <= reach(d, run, start));
        let k0 = key_of(known, syls.take(m));
        let k1 = key_of(known, syls.take(m + 1));
        assert(syls.take(m + 1).drop_last() =~= syls.take(m));
        assert(syls.take(m + 1).last() == s);
        assert(k1 == packed(k0, id_of(known, s)));
        assert(d.ids.contains_key(s) && d.ids[s] == id_of(known, s));
        assert(is_prefix(known, entries, k1)) by {
            assert(key_of(known, entries[i].syls.take(m + 1)) == k1);
        }
        assert(step_key(d, run, start, k0, end) == Some(k1));
        assert(ends[0] == end);
        assert(ends.drop_first() =~= ends_from(j, syls, seps, m + 1));
        lemma_spelling_is_a_chain(entries, i, run, j, e, seps, m + 1);
    }
}

proof fn lemma_keyed_holds(known: Seq<Seq<char>>, entries: Seq<EntryV>, i: int)
    requires
        0 <= i < entries.len(),
        looked_up(entries[i]),
    ensures
        keyed(known, entries, key_of(known, entries[i].syls)).contains((entries[i].word, entries[i].score)),
    decreases entries.len(),
{
    let k = key_of(known, entries[i].syls);
    let t = entries.drop_last();
    let head = keyed(known, t, k);
    let r = keyed(known, entries, k);
    if i < t.len() {
        lemma_keyed_holds(known, t, i);
        let x = choose|x: int| 0 <= x < head.len() && head[x] == (entries[i].word, entries[i].score);
        assert(r[x] == head[x]);
    } else {
        assert(r[head.len() as int] == (entries[i].word, entries[i].score));
    }
}

/// A word is found by its pinyin: where the letters are the syllables of an
/// entry, one to eight of them, with or without apostrophes between them, the
/// search finds a reading that ends with them and has the word with its score.
pub proof fn law_words_are_found_by_their_pinyin(
    entries: Seq<EntryV>,
    i: int,
    run: Seq<char>,
    j: int,
    e: int,
    seps: Seq<bool>,
) -> (k: u128)
    requires
        0 <= i < entries.len(),
        1 <= entries[i].syls.len() <= 8,
        forall|m: int|
            0 <= m < entries[i].syls.len() ==> (#[trigger] entries[i].syls[m]).len() > 0 && !entries[i].syls[m].contains('\''),
        spelled_at(run, j, e, entries[i].syls, seps),
    ensures
        words_from(DictV::of(entries), run, j).contains((e, k)),
        DictV::of(entries).words[k].contains((entries[i].word, entries[i].score)),
{
    let d = DictV::of(entries);
    let known = syllables_of(entries);
    let syls = entries[i].syls;
    let k = key_of(known, syls);
    let ends = ends_from(j, syls, seps, 0);
    lemma_spelling_is_a_chain(entries, i, run, j, e, seps, 0);
    assert(syls.take(0) =~= Seq::<Seq<char>>::empty());
    assert(key_of(known, syls.take(0)) == 0);
    assert(ends.last() == end_at(j, syls, seps, syls.len() as int));
    assert(reads(d, run, j, 0, 0, (e, k), ends));
    lemma_keyed_holds(known, entries, i);
    let l = keyed(known, entries, k);
    rank::lemma_ranked_members(l, score_key());
    assert(l.len() > 0);
    assert(d.words.contains_key(k));
    law_walk_finds_what_is_spelled(d, run, j, (e, k));
    k
}

/// The syllables that a chain reads.
spec fn pieces(run: Seq<char>, pos: int, depth: int, ends: Seq<int>) -> Seq<Seq<char>>
    decreases ends.len(),
{
    if ends.len() == 0 {
        Seq::empty()
    } else {
        seq![run.subrange(piece_start(run, pos, depth), ends[0])] + pieces(run, ends[0], depth + 1, ends.drop_first())
    }
}

/// Before which of the syllables that a chain reads an apostrophe stands.
spec fn parts(run: Seq<char>, pos: int, depth: int, ends: Seq<int>) -> Seq<bool>
    decreases ends.len(),
{
    if ends.len() == 0 {
        Seq::empty()
    } else {
        seq![piece_start(run, pos, depth) > pos] + parts(run, ends[0], depth + 1, ends.drop_first())
    }
}

/// The key of syllables with more behind them.
spec fn key_with(known: Seq<Seq<char>>, key: u128, syls: Seq<Seq<char>>) -> u128
    decreases syls.len(),
{
    if syls.len() == 0 {
        key
    } else {
        packed(key_with(known, key, syls.drop_last()), id_of(known, syls.last()))
    }
}

proof fn lemma_key_with_first(known: Seq<Seq<char>>, key: u128, syls: Seq<Seq<char>>)
    requires
        syls.len() > 0,
    ensures
        key_with(known, key, syls) == key_with(known, packed(key, id_of(known, syls[0])), syls.drop_first()),
    decreases syls.len(),
{
    if syls.len() == 1 {
        assert(syls.drop_last() =~= Seq::<Seq<char>>::empty());
        assert(syls.drop_first() =~= Seq::<Seq<char>>::empty());
        assert(key_with(known, key, syls.drop_last()) == key);
    } else {
        lemma_key_with_first(known, key, syls.drop_last());
        assert(syls.drop_last()[0] == syls[0]);
        assert(syls.drop_last().drop_first() =~= syls.drop_first().drop_last());
        assert(syls.drop_first().last() == syls.last());
    }
}

proof fn lemma_key_with_nothing(known: Seq<Seq<char>>, syls: Seq<Seq<char>>)
    ensures
        key_with(known, 0, syls) == key_of(known, syls),
    decreases syls.len(),
{
    if syls.len() > 0 {
        lemma_key_with_nothing(known, syls.drop_last());
    }
}

proof fn lemma_chain_reads_pieces(
    entries: Seq<EntryV>,
    run: Seq<char>,
    pos: int,
    key: u128,
    depth: int,
    ends: Seq<int>,
    k: u128,
)
    requires
        chain(DictV::of(entries), run, pos, key, depth, ends) == Some(k),
        0 <= pos <= run.len(),
        0 <= depth,
    ensures
        pieces(run, pos, depth, ends).len() == ends.len(),
        parts(run, pos, depth, ends).len() == ends.len(),
        key_with(syllables_of(entries), key, pieces(run, pos, depth, ends)) == k,
        forall|m: int|
            0 <= m < ends.len() ==> syllables_of(entries).contains(#[trigger] pieces(run, pos, depth, ends)[m]),
        forall|m: int|
            0 <= m < ends.len() ==> pos <= #[trigger] ends[m] <= run.len() && pieces(run, pos, depth, ends)[m]
                == run.subrange(
                (if m == 0 {
                    pos
                } else {
                    ends[m - 1]
                }) + (if parts(run, pos, depth, ends)[m] {
                    1int
                } else {
                    0
                }),
                ends[m],
            ) && (if m == 0 {
                pos
            } else {
                ends[m - 1]
            }) + (if parts(run, pos, depth, ends)[m] {
                1int
            } else {
                0
            }) < ends[m],
        forall|m: int|
            0 <= m < ends.len() && #[trigger] parts(run, pos, depth, ends)[m] ==> (m > 0 || depth > 0) && run[if m == 0 {
                pos
            } else {
                ends[m - 1]
            }] == '\'',
    decreases ends.len(),
{
    let d = DictV::of(entries);
    let known = syllables_of(entries);
    let ps = pieces(run, pos, depth, ends);
    let bs = parts(run, pos, depth, ends);
    if ends.len() > 0 {
        let start = piece_start(run, pos, depth);
        let end = ends[0];
        let s = run.subrange(start, end);
        let k1 = packed(key, d.ids[s]);
        let tail = ends.drop_first();
        lemma_chain_reads_pieces(entries, run, end, k1, depth + 1, tail, k);
        let tp = pieces(run, end, depth + 1, tail);
        let tb = parts(run, end, depth + 1, tail);
        assert(ps[0] == s);
        assert(ps.drop_first() =~= tp);
        assert(d.ids[s] == id_of(known, s));
        lemma_key_with_first(known, key, ps);
        assert forall|m: int| 0 <= m < ends.len() implies known.contains(#[trigger] ps[m]) by {
            if m > 0 {
                assert(ps[m] == tp[m - 1]);
            }
        }
        assert forall|m: int| 0 <= m < ends.len() implies pos <= #[trigger] ends[m] <= run.len() && ps[m] == run.subrange(
            (if m == 0 {
                pos
            } else {
                ends[m - 1]
            }) + (if bs[m] {
                1int
            } else {
                0
            }),
            ends[m],
        ) && (if m == 0 {
            pos
        } else {
            ends[m - 1]
        }) + (if bs[m] {
            1int
        } else {
            0
        }) < ends[m] by {
            if m > 0 {
                assert(ends[m] == tail[m - 1]);
                assert(ps[m] == tp[m - 1]);
                assert(bs[m] == tb[m - 1]);
                if m > 1 {
                    assert(ends[m - 1] == tail[m - 2]);
                }
            }
        }
        assert forall|m: int| 0 <= m < ends.len() && #[trigger] bs[m] implies (m > 0 || depth > 0) && run[if m == 0 {
            pos
        } else {
            ends[m - 1]
        }] == '\'' by {
            if m > 0 {
                assert(bs[m] == tb[m - 1]);
                if m > 1 {
                    assert(ends[m - 1] == tail[m - 2]);
                }
            }
        }
    }
}

/// The syllables that a chain reads spell its letters.
proof fn lemma_pieces_spell(run: Seq<char>, j: int, ends: Seq<int>, ps: Seq<Seq<char>>, bs: Seq<bool>, seps: Seq<bool>, m: int)
    requires
        0 <= m <= ps.len(),
        ps.len() == ends.len(),
        bs.len() == ends.len(),
        seps.len() + 1 >= bs.len(),
        bs.len() > 0 ==> !bs[0],
        forall|x: int| 1 <= x < bs.len() ==> #[trigger] bs[x] == seps[x - 1],
        0 <= j,
        forall|x: int|
            0 <= x < ends.len() ==> j <= #[trigger] ends[x] <= run.len() && ps[x] == run.subrange(
                (if x == 0 {
                    j
                } else {
                    ends[x - 1]
                }) + (if bs[x] {
                    1int
                } else {
                    0
                }),
                ends[x],
            ) && (if x == 0 {
                j
            } else {
                ends[x - 1]
            }) + (if bs[x] {
                1int
            } else {
                0
            }) < ends[x],
    ensures
        end_at(j, ps, seps, m) == if m == 0 {
            j
        } else {
            ends[m - 1]
        },
    decreases m,
{
    if m > 0 {
        lemma_pieces_spell(run, j, ends, ps, bs, seps, m - 1);
        assert(j <= ends[m - 1] <= run.len());
        assert(m - 1 >= 1 ==> bs[m - 1] == seps[m - 2]);
        if m > 1 {
            assert(j <= ends[m - 2] <= run.len());
        }
        assert(parted(seps, m - 1) == bs[m - 1]);
    }
}

/// An entry behind a word of a key.
proof fn lemma_keyed_entry(known: Seq<Seq<char>>, entries: Seq<EntryV>, key: u128, x: Scored) -> (i: int)
    requires
        keyed(known, entries, key).contains(x),
    ensures
        0 <= i < entries.len(),
        looked_up(entries[i]),
        key_of(known, entries[i].syls) == key,
        x == (entries[i].word, entries[i].score),
    decreases entries.len(),
{
    let t = entries.drop_last();
    let head = keyed(known, t, key);
    let r = keyed(known, entries, key);
    let m = choose|m: int| 0 <= m < r.len() && r[m] == x;
    if m < head.len() {
        assert(head[m] == x);
        lemma_keyed_entry(known, t, key, x)
    } else {
        entries.len() - 1
    }
}

/// Nothing else is found: every word of a reading that the search finds is the
/// word of an entry, with its score, and the letters of the reading are the
/// syllables of that entry, with at most one apostrophe between two of them.
pub proof fn law_readings_are_the_pinyin_of_their_words(
    entries: Seq<EntryV>,
    run: Seq<char>,
    j: int,
    e: int,
    k: u128,
    x: Scored,
) -> (r: (int, Seq<bool>))
    requires
        syllables_of(entries).len() < 512,
        0 <= j <= run.len(),
        words_from(DictV::of(entries), run, j).contains((e, k)),
        DictV::of(entries).words[k].contains(x),
    ensures
        0 <= r.0 < entries.len(),
        x == (entries[r.0].word, entries[r.0].score),
        1 <= entries[r.0].syls.len() <= 8,
        spelled_at(run, j, e, entries[r.0].syls, r.1),
{
    let d = DictV::of(entries);
    let known = syllables_of(entries);
    law_walk_finds_what_is_spelled(d, run, j, (e, k));
    let ends = choose|ends: Seq<int>| #[trigger] reads(d, run, j, 0, 0, (e, k), ends);
    lemma_chain_reads_pieces(entries, run, j, 0, 0, ends, k);
    let ps = pieces(run, j, 0, ends);
    let bs = parts(run, j, 0, ends);
    let seps = bs.skip(1);
    lemma_key_with_nothing(known, ps);
    let l = keyed(known, entries, k);
    rank::lemma_ranked_members(l, score_key());
    let w = d.words[k];
    let y = choose|y: int| 0 <= y < w.len() && w[y] == x;
    assert(l.contains(rank::ranked(l, score_key())[y]));
    let i = lemma_keyed_entry(known, entries, k, x);
    let syls = entries[i].syls;
    lemma_syllables_distinct(entries);
    assert forall|m: int| 0 <= m < syls.len() implies known.contains(#[trigger] syls[m]) by {
        lemma_known(entries, i, m);
    }
    law_keys_tell_syllables_apart(known, syls, ps);
    assert(syls == ps);
    assert(!bs[0]) by {
        if bs[0] {
            assert(false);
        }
    }
    let n = ps.len() as int;
    lemma_pieces_spell(run, j, ends, ps, bs, seps, n);
    assert forall|m: int| 0 <= m < syls.len() implies #[trigger] syls[m] == run.subrange(
        start_at(j, syls, seps, m),
        start_at(j, syls, seps, m) + syls[m].len(),
    ) by {
        lemma_pieces_spell(run, j, ends, ps, bs, seps, m);
        assert(ends[m] <= run.len());
        assert(parted(seps, m) == bs[m]);
        if m > 0 {
            assert(ends[m - 1] >= j);
        }
    }
    assert forall|m: int| 0 <= m < syls.len() && #[trigger] parted(seps, m) implies run[end_at(j, syls, seps, m)]
        == '\'' by {
        lemma_pieces_spell(run, j, ends, ps, bs, seps, m);
        assert(bs[m]);
    }
    (i, seps)
}

/// A group of initials gives words whose syllables start with these letters,
/// one by one, by descending score and at most twelve; a word that is left out
/// has twelve others before it that score at least as high.
pub proof fn law_initials_give_the_best_words(entries: Seq<EntryV>, ls: Seq<u8>, i: int, key: u64)
    requires
        packed_initials(ls) == Some(key),
    ensures
        ({
            let d = DictV::of(entries);
            let l = d.abbrev[key];
            &&& d.abbrev.contains_key(key) ==> 0 < l.len() <= 12
            &&& d.abbrev.contains_key(key) ==> forall|x: int, y: int|
                0 <= x < y < l.len() ==> (#[trigger] l[x]).1 >= (#[trigger] l[y]).1
            &&& d.abbrev.contains_key(key) ==> forall|x: int|
                0 <= x < l.len() ==> has_initials(entries, ls, #[trigger] l[x])
            &&& 0 <= i < entries.len() && starts_with(entries[i], ls) ==> d.abbrev.contains_key(key) && (l.contains(
                (entries[i].word, entries[i].score),
            ) || (l.len() == 12 && forall|x: int| 0 <= x < 12 ==> (#[trigger] l[x]).1 >= entries[i].score))
        }),
{
    let d = DictV::of(entries);
    let a = abbreviated(entries, key);
    let r = rank::ranked(a, score_key());
    rank::lemma_ranked_members(a, score_key());
    rank::lemma_ranked_descending(a, score_key());
    let l = rank::cut(r, 12);
    assert forall|x: int, y: int| 0 <= x < y < r.len() implies (#[trigger] r[x]).1 >= (#[trigger] r[y]).1 by {
        assert(!rank::above(score_key()(r[y]), score_key()(r[x])));
    }
    assert forall|x: int| 0 <= x < l.len() implies has_initials(entries, ls, #[trigger] l[x]) by {
        assert(l[x] == r[x]);
        assert(a.contains(r[x]));
        lemma_abbreviated_entry(entries, ls, key, r[x]);
    }
    assert forall|x: int, y: int| 0 <= x < y < l.len() implies (#[trigger] l[x]).1 >= (#[trigger] l[y]).1 by {
        assert(l[x] == r[x] && l[y] == r[y]);
    }
    if 0 <= i < entries.len() && starts_with(entries[i], ls) {
        lemma_abbreviated_holds(entries, ls, key, i);
        let x = (entries[i].word, entries[i].score);
        assert(r.contains(x));
        let y = choose|y: int| 0 <= y < r.len() && r[y] == x;
        if y < 12 {
            assert(l[y] == x);
        } else {
            assert forall|m: int| 0 <= m < 12 implies (#[trigger] l[m]).1 >= entries[i].score by {
                assert(l[m] == r[m]);
            }
        }
    }
}

/// Whether the syllables of an entry, one to eight of them, start with letters.
pub open spec fn starts_with(e: EntryV, ls: Seq<u8>) -> bool {
    &&& e.syls.len() == ls.len()
    &&& forall|m: int|
        0 <= m < ls.len() ==> (#[trigger] e.syls[m]).len() > 0 && e.syls[m][0] as u32 == ls[m] as u32
}

/// Whether a word with its score is that of an entry whose syllables start with
/// letters.
pub open spec fn has_initials(entries: Seq<EntryV>, ls: Seq<u8>, x: Scored) -> bool {
    exists|i: int|
        0 <= i < entries.len() && starts_with(#[trigger] entries[i], ls) && x == (entries[i].word, entries[i].score)
}

/// The first byte of a text is a lower-case letter if and only if its first
/// character is.
proof fn lemma_first_letter(s: Seq<char>, b: u8)
    requires
        97 <= b <= 122,
    ensures
        first_byte(s) == b <==> s.len() > 0 && s[0] as u32 == b as u32,
{
    if s.len() > 0 {
        let c = s[0] as u32;
        let e = vstd::utf8::encode_utf8(s);
        let t = vstd::utf8::encode_scalar(c);
        assert(e[0] == t[0]);
        vstd::utf8::char_is_scalar(s[0]);
        lemma_leading_bytes(c);
    }
}

/// The first byte of an encoded character that is not ASCII is no ASCII byte.
proof fn lemma_leading_bytes(c: u32)
    requires
        c <= 0x10ffff,
    ensures
        c <= 0x7f ==> vstd::utf8::leading_byte_width_1(c) == c,
        c > 0x7f ==> vstd::utf8::leading_byte_width_2(c) >= 0x80,
        c > 0x7f ==> vstd::utf8::leading_byte_width_3(c) >= 0x80,
        c > 0x7f ==> vstd::utf8::leading_byte_width_4(c) >= 0x80,
{
    assert(c <= 0x7f ==> vstd::utf8::leading_byte_width_1(c) as u32 == c) by (bit_vector);
    assert(vstd::utf8::leading_byte_width_2(c) >= 0x80) by (bit_vector);
    assert(vstd::utf8::leading_byte_width_3(c) >= 0x80) by (bit_vector);
    assert(vstd::utf8::leading_byte_width_4(c) >= 0x80) by (bit_vector);
}

proof fn lemma_initials_are_first_letters(e: EntryV, ls: Seq<u8>)
    requires
        packed_initials(ls) is Some,
    ensures
        looked_up(e) && packed_initials(initials(e.syls)) == packed_initials(ls) <==> starts_with(e, ls),
{
    let b = initials(e.syls);
    if starts_with(e, ls) {
        assert forall|m: int| 0 <= m < ls.len() implies #[trigger] b[m] == ls[m] by {
            assert(97 <= ls[m] <= 122);
            assert(e.syls[m].len() > 0 && e.syls[m][0] as u32 == ls[m] as u32);
            lemma_first_letter(e.syls[m], ls[m]);
        }
        assert(b =~= ls);
    }
    if looked_up(e) && packed_initials(b) == packed_initials(ls) {
        law_initials_tell_letters_apart(b, ls);
        assert forall|m: int| 0 <= m < ls.len() implies (#[trigger] e.syls[m]).len() > 0 && e.syls[m][0] as u32
            == ls[m] as u32 by {
            assert(97 <= ls[m] <= 122);
            assert(b[m] == ls[m]);
            lemma_first_letter(e.syls[m], ls[m]);
        }
    }
}

proof fn lemma_abbreviated_entry(entries: Seq<EntryV>, ls: Seq<u8>, key: u64, x: Scored)
    requires
        packed_initials(ls) == Some(key),
        abbreviated(entries, key).contains(x),
    ensures
        has_initials(entries, ls, x),
    decreases entries.len(),
{
    let t = entries.drop_last();
    let head = abbreviated(t, key);
    let r = abbreviated(entries, key);
    let m = choose|m: int| 0 <= m < r.len() && r[m] == x;
    if m < head.len() {
        assert(head[m] == x);
        lemma_abbreviated_entry(t, ls, key, x);
        let i = choose|i: int|
            0 <= i < t.len() && starts_with(#[trigger] t[i], ls) && x == (t[i].word, t[i].score);
        assert(starts_with(entries[i], ls));
    } else {
        lemma_initials_are_first_letters(entries.last(), ls);
        assert(starts_with(entries[entries.len() - 1], ls));
    }
}

proof fn lemma_abbreviated_holds(entries: Seq<EntryV>, ls: Seq<u8>, key: u64, i: int)
    requires
        packed_initials(ls) == Some(key),
        0 <= i < entries.len(),
        starts_with(entries[i], ls),
    ensures
        abbreviated(entries, key).contains((entries[i].word, entries[i].score)),
    decreases entries.len(),
{
    let t = entries.drop_last();
    let head = abbreviated(t, key);
    let r = abbreviated(entries, key);
    lemma_initials_are_first_letters(entries[i], ls);
    if i < t.len() {
        lemma_abbreviated_holds(t, ls, key, i);
        let x = choose|x: int| 0 <= x < head.len() && head[x] == (entries[i].word, entries[i].score);
        assert(r[x] == head[x]);
    } else {
        assert(r[head.len() as int] == (entries[i].word, entries[i].score));
    }
}

/// Initials are one to eight lower-case letters.
pub proof fn law_initials_are_lower_case_letters(ls: Seq<u8>)
    ensures
        packed_initials(ls) is Some <==> 1 <= ls.len() <= 8 && forall|i: int|
            0 <= i < ls.len() ==> 'a' as u32 <= #[trigger] ls[i] as u32 <= 'z' as u32,
{
    if forall|i: int| 0 <= i < ls.len() ==> 'a' as u32 <= #[trigger] ls[i] as u32 <= 'z' as u32 {
        assert forall|i: int| 0 <= i < ls.len() implies 97 <= #[trigger] ls[i] <= 122 by {
            assert('a' as u32 <= ls[i] as u32 <= 'z' as u32);
        }
    }
}

/// The syllables of a dictionary are those of its entries.
pub proof fn law_known_syllables_are_those_of_the_entries(entries: Seq<EntryV>, s: Seq<char>)
    ensures
        DictV::of(entries).ids.contains_key(s) <==> exists|i: int, m: int|
            0 <= i < entries.len() && 0 <= m < entries[i].syls.len() && #[trigger] entries[i].syls[m] == s,
{
    if exists|i: int, m: int|
        0 <= i < entries.len() && 0 <= m < entries[i].syls.len() && #[trigger] entries[i].syls[m] == s {
        let (i, m) = choose|i: int, m: int|
            0 <= i < entries.len() && 0 <= m < entries[i].syls.len() && #[trigger] entries[i].syls[m] == s;
        lemma_known(entries, i, m);
    }
    if syllables_of(entries).contains(s) {
        lemma_known_from(entries, s);
    }
}

proof fn lemma_known_from(entries: Seq<EntryV>, s: Seq<char>)
    requires
        syllables_of(entries).contains(s),
    ensures
        exists|i: int, m: int|
            0 <= i < entries.len() && 0 <= m < entries[i].syls.len() && #[trigger] entries[i].syls[m] == s,
    decreases entries.len(),
{
    let t = entries.drop_last();
    lemma_with_from(syllables_of(t), entries.last().syls, s);
    if syllables_of(t).contains(s) {
        lemma_known_from(t, s);
        let (i, m) = choose|i: int, m: int|
            0 <= i < t.len() && 0 <= m < t[i].syls.len() && #[trigger] t[i].syls[m] == s;
        assert(entries[i].syls[m] == s);
    } else {
        let m = choose|m: int| 0 <= m < entries.last().syls.len() && entries.last().syls[m] == s;
        assert(entries[entries.len() - 1].syls[m] == s);
    }
}

proof fn lemma_with_from(known: Seq<Seq<char>>, syls: Seq<Seq<char>>, s: Seq<char>)
    requires
        with_syllables(known, syls).contains(s),
    ensures
        known.contains(s) || syls.contains(s),
    decreases syls.len(),
{
    if syls.len() > 0 {
        let k = with_syllables(known, syls.drop_last());
        if k.contains(s) {
            lemma_with_from(known, syls.drop_last(), s);
            if syls.drop_last().contains(s) {
                let m = choose|m: int| 0 <= m < syls.drop_last().len() && syls.drop_last()[m] == s;
                assert(syls[m] == s);
            }
        } else {
            let r = with_syllables(known, syls);
            let x = choose|x: int| 0 <= x < r.len() && r[x] == s;
            if x < k.len() {
                assert(k[x] == s);
            }
            assert(s == syls.last());
            assert(syls[syls.len() - 1] == s);
        }
    }
}

/// The single syllables from a position are found, all of them and nothing
/// else: an end is among theirs if and only if the letters up to it are a
/// syllable of some entry, without an apostrophe.
pub proof fn law_single_syllables_are_found(entries: Seq<EntryV>, run: Seq<char>, j: int, e: int)
    requires
        0 <= j <= run.len(),
    ensures
        ({
            let d = DictV::of(entries);
            syllable_ends(d, run, j, reach(d, run, j)).contains(e) <==> j < e <= run.len() && d.ids.contains_key(
                run.subrange(j, e),
            ) && !run.subrange(j, e).contains('\'')
        }),
{
    let d = DictV::of(entries);
    lemma_syllable_ends(d, run, j, reach(d, run, j), e);
    if j < e <= run.len() && d.ids.contains_key(run.subrange(j, e)) {
        lemma_longest(syllables_of(entries), run.subrange(j, e));
    }
}

proof fn lemma_syllable_ends(d: DictV, run: Seq<char>, j: int, end: int, e: int)
    ensures
        syllable_ends(d, run, j, end).contains(e) <==> j < e <= end && d.ids.contains_key(run.subrange(j, e))
            && !run.subrange(j, e).contains('\''),
    decreases end - j,
{
    if end > j {
        lemma_syllable_ends(d, run, j, end - 1, e);
        let head = syllable_ends(d, run, j, end - 1);
        let r = syllable_ends(d, run, j, end);
        let piece = run.subrange(j, end);
        if !piece.contains('\'') && d.ids.contains_key(piece) {
            lemma_push_contains(head, end, e);
        }
    }
}

} // verus!
