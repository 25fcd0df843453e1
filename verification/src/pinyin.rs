//! Built-in pinyin to Chinese conversion, for machines without a Chinese IME.
//!
//! When the text of the input bar ends in a run of ASCII letters, the run is
//! treated as pinyin: candidates appear under the input, and Enter converts the
//! rest along the best path.
//!
//! Conversion is a single joint search over the letters: word edges are found
//! by walking the ways to split the letters into syllables, so "keneng"
//! considers both ke'neng (可能) and ken'eng, and the dictionary score decides.

use vstd::prelude::*;

use crate::lattice;
use crate::lattice::{Edge, EdgeV, Hop, HopV};
use crate::lexicon;
use crate::lexicon::{DictV, Scored};
use crate::rank;
use crate::rank::Ranked;
use crate::text;
use crate::userdict::{UserDict, UserV};

pub use crate::lexicon::PinyinDict;

verus! {

/// Total candidate cap.
pub const MAX_CANDIDATES: usize = 45;

/// Longer runs are not analyzed (pasted ASCII blobs).
pub const MAX_RUN_BYTES: usize = 64;

/// Score of a syllable that matches no dictionary word (emitted as letters):
/// -30, in the units of scores.
pub const UNKNOWN_PENALTY: i128 = -135107988821114880;

/// Penalty per syllable of an abbreviated (简拼) match: -5. Full parses must
/// win when they exist, but an abbreviation must still beat raw letters.
pub const ABBREV_PENALTY: i128 = -22517998136852480;

/// Extra cost of an abbreviated word: -2.5, so that fewer, longer words win
/// over chains of frequent single characters.
pub const ABBREV_EDGE_COST: i128 = -11258999068426240;

// ---------------------------------------------------------------------------
// The weight of the user's picks
// ---------------------------------------------------------------------------

/// The weight of `n` past picks: 1.5 ln(1 + n), at most 3.5, in the units of
/// scores.
pub open spec fn boost_of(n: int) -> int {
    if n <= 0 {
        0
    } else if n == 1 {
        4682486076124019
    } else if n == 2 {
        7421564840805520
    } else if n == 3 {
        9364972152248038
    } else if n == 4 {
        10872395974071244
    } else if n == 5 {
        12104050916929540
    } else if n == 6 {
        13145400333272962
    } else if n == 7 {
        14047458228372056
    } else if n == 8 {
        14843129681611040
    } else if n == 9 {
        15554882050195266
    } else {
        15762598695796736
    }
}

/// More picks never weigh less, and no number of picks weighs more than 3.5.
pub proof fn law_boost_grows_to_its_cap(n: int, m: int)
    requires
        n <= m,
    ensures
        0 <= boost_of(n) <= boost_of(m) <= 15762598695796736,
{
}

/// The weight of the user's past picks of a word.
pub fn user_boost(user: &UserDict, word: &str) -> (r: i128)
    requires
        user.wf(),
    ensures
        r == boost_of(user@.count(word@)),
{
    let n: u32 = user.count(word);
    if n == 0 {
        0
    } else if n == 1 {
        4682486076124019
    } else if n == 2 {
        7421564840805520
    } else if n == 3 {
        9364972152248038
    } else if n == 4 {
        10872395974071244
    } else if n == 5 {
        12104050916929540
    } else if n == 6 {
        13145400333272962
    } else if n == 7 {
        14047458228372056
    } else if n == 8 {
        14843129681611040
    } else if n == 9 {
        15554882050195266
    } else {
        15762598695796736
    }
}

/// A word with its score and the weight of its picks.
pub type Weighed = (Seq<char>, int);

/// Weighed words are ordered by their weight.
pub open spec fn gain_key() -> spec_fn(Weighed) -> (int, int) {
    |p: Weighed| (p.1, 0int)
}

/// Words with the weight of the user's picks on top of their scores.
pub open spec fn boosted(u: UserV, l: Seq<Scored>) -> Seq<Weighed> {
    l.map_values(|p: Scored| (p.0, p.1 + boost_of(u.count(p.0))))
}

/// Words by what the user prefers.
pub open spec fn favourites(u: UserV, l: Seq<Scored>) -> Seq<Weighed> {
    rank::ranked(boosted(u, l), gain_key())
}

/// The first of the heaviest words.
pub open spec fn leader(s: Seq<Weighed>) -> Weighed
    recommends
        s.len() > 0,
    decreases s.len(),
{
    if s.len() <= 1 {
        s[0]
    } else {
        let b = leader(s.drop_last());
        if s.last().1 > b.1 {
            s.last()
        } else {
            b
        }
    }
}

/// What the row of candidates shows first for a reading is also what the
/// whole-line conversion uses.
pub proof fn law_leader_is_first_favourite(u: UserV, l: Seq<Scored>)
    requires
        l.len() > 0,
    ensures
        favourites(u, l).len() == l.len(),
        favourites(u, l)[0] == leader(boosted(u, l)),
{
    lemma_leader(boosted(u, l));
}

proof fn lemma_leader(s: Seq<Weighed>)
    requires
        s.len() > 0,
    ensures
        rank::ranked(s, gain_key()).len() == s.len(),
        rank::ranked(s, gain_key())[0] == leader(s),
    decreases s.len(),
{
    rank::lemma_ranked_contents(s, gain_key());
    let t = s.drop_last();
    let r = rank::ranked(t, gain_key());
    if t.len() > 0 {
        lemma_leader(t);
        rank::lemma_ranked_descending(t, gain_key());
        rank::lemma_inserted_head(r, s.last(), gain_key());
    } else {
        assert(r =~= Seq::<Weighed>::empty());
        assert(rank::inserted(r, s.last(), gain_key()) =~= seq![s.last()]);
        assert(s[0] == s.last());
    }
}

/// The models of weighed words.
pub open spec fn gains(v: Seq<(String, i128)>) -> Seq<Weighed> {
    v.map_values(|p: (String, i128)| (p.0@, p.1 as int))
}

impl Ranked for (String, i128) {
    open spec fn rank(&self) -> (int, int) {
        (self.1 as int, 0int)
    }

    fn outranks(&self, other: &Self) -> (r: bool) {
        self.1 > other.1
    }
}

/// Words with the weight of the user's picks on top of their scores.
fn boosted_list(user: &UserDict, v: &Vec<(String, i64)>) -> (r: Vec<(String, i128)>)
    requires
        user.wf(),
    ensures
        gains(r@) == boosted(user@, lexicon::scored(v@)),
{
    let ghost u = user@;
    let ghost l = lexicon::scored(v@);
    let mut out: Vec<(String, i128)> = Vec::new();
    let mut i: usize = 0;
    while i < v.len()
        invariant
            0 <= i <= v@.len(),
            user.wf(),
            u == user@,
            l == lexicon::scored(v@),
            gains(out@) == boosted(u, l).take(i as int),
        decreases v@.len() - i,
    {
        let ghost before = gains(out@);
        let b: i128 = user_boost(user, v[i].0.as_str());
        let g: i128 = v[i].1 as i128 + b;
        out.push((v[i].0.clone(), g));
        proof {
            let x = boosted(u, l)[i as int];
            assert(l[i as int] == (v@[i as int].0@, v@[i as int].1));
            assert(gains(out@) =~= before.push(x));
            assert(boosted(u, l).take(i + 1) =~= boosted(u, l).take(i as int).push(x));
        }
        i = i + 1;
    }
    assert(boosted(u, l).take(l.len() as int) =~= boosted(u, l));
    out
}

/// Words by what the user prefers.
fn favourites_of(user: &UserDict, v: &Vec<(String, i64)>) -> (r: Vec<(String, i128)>)
    requires
        user.wf(),
    ensures
        gains(r@) == favourites(user@, lexicon::scored(v@)),
{
    let b = boosted_list(user, v);
    let ghost b0 = b@;
    proof {
        rank::lemma_ranked_map(
            b0,
            |p: (String, i128)| (p.0@, p.1 as int),
            rank::rank_key::<(String, i128)>(),
            gain_key(),
        );
    }
    rank::by_rank(b)
}

/// A user without picks has no preferences.
proof fn lemma_untrained(u: UserV, w: Seq<char>)
    requires
        u.entries.order.len() == 0,
    ensures
        u.count(w) == 0,
{
}

/// The leader of a list whose first word is at least as heavy as any other.
proof fn lemma_first_leads(s: Seq<Weighed>)
    requires
        s.len() > 0,
        forall|i: int| 0 <= i < s.len() ==> (#[trigger] s[i]).1 <= s[0].1,
    ensures
        leader(s) == s[0],
    decreases s.len(),
{
    if s.len() > 1 {
        let t = s.drop_last();
        assert forall|i: int| 0 <= i < t.len() implies (#[trigger] t[i]).1 <= t[0].1 by {
            assert(t[i] == s[i]);
        }
        lemma_first_leads(t);
        assert(s[s.len() - 1] == s.last());
    }
}

/// The word that the user prefers among those with the same reading.
fn favourite(user: &UserDict, v: &Vec<(String, i64)>) -> (r: (String, i128))
    requires
        user.wf(),
        v@.len() > 0,
        rank::descending(lexicon::scored(v@), lexicon::score_key()),
    ensures
        (r.0@, r.1 as int) == leader(boosted(user@, lexicon::scored(v@))),
        -0x1_0000_0000_0000_0000 <= r.1 <= 0x1_0000_0000_0000_0000,
{
    let ghost u = user@;
    let ghost l = lexicon::scored(v@);
    let ghost b = boosted(u, l);
    proof {
        assert(l[0] == (v@[0].0@, v@[0].1));
        assert(b[0] == (l[0].0, l[0].1 + boost_of(u.count(l[0].0))));
    }
    if user.is_untrained() {
        proof {
            assert forall|i: int| 0 <= i < b.len() implies (#[trigger] b[i]).1 <= b[0].1 by {
                lemma_untrained(u, l[i].0);
                lemma_untrained(u, l[0].0);
                if i > 0 {
                    assert(!rank::above(lexicon::score_key()(l[i]), lexicon::score_key()(l[0])));
                }
            }
            lemma_first_leads(b);
            lemma_untrained(u, l[0].0);
        }
        return (v[0].0.clone(), v[0].1 as i128);
    }
    let mut best: usize = 0;
    let mut gain: i128 = v[0].1 as i128 + user_boost(user, v[0].0.as_str());
    let mut i: usize = 1;
    proof {
        assert(b.take(1)[0] == b[0]);
    }
    while i < v.len()
        invariant
            1 <= i <= v@.len(),
            best < v@.len(),
            user.wf(),
            u == user@,
            l == lexicon::scored(v@),
            b == boosted(u, l),
            -0x1_0000_0000_0000_0000 <= gain <= 0x1_0000_0000_0000_0000,
            (v@[best as int].0@, gain as int) == leader(b.take(i as int)),
        decreases v@.len() - i,
    {
        let g: i128 = v[i].1 as i128 + user_boost(user, v[i].0.as_str());
        proof {
            assert(l[i as int] == (v@[i as int].0@, v@[i as int].1));
            assert(b.take(i + 1).drop_last() =~= b.take(i as int));
            assert(b.take(i + 1).last() == b[i as int]);
        }
        if g > gain {
            best = i;
            gain = g;
        }
        i = i + 1;
    }
    assert(b.take(b.len() as int) =~= b);
    (v[best].0.clone(), gain)
}

// ---------------------------------------------------------------------------
// The lattice of a run
// ---------------------------------------------------------------------------

/// The characters of a run.
pub open spec fn is_run_char(c: char) -> bool {
    text::is_letter(c) || c == '\''
}

/// Whether a text is analyzed: ASCII letters and apostrophes, not too many.
pub open spec fn is_run(run: Seq<char>) -> bool {
    run.len() <= MAX_RUN_BYTES && forall|i: int| 0 <= i < run.len() ==> is_run_char(#[trigger] run[i])
}

/// Letters as bytes.
pub open spec fn letters(s: Seq<char>) -> Seq<u8> {
    s.map_values(|c: char| c as u8)
}

/// The best words whose initials are the given letters. Upper-case letters mean
/// literal text and are never initials.
pub open spec fn by_initials(d: DictV, s: Seq<char>) -> Option<Seq<Scored>> {
    match lexicon::packed_initials(letters(s)) {
        Some(k) => if d.abbrev.contains_key(k) {
            Some(d.abbrev[k])
        } else {
            None
        },
        None => None,
    }
}

/// The edges of words: each emits the word that the user prefers.
pub open spec fn word_edges(d: DictV, u: UserV, ws: Seq<(int, u128)>) -> Seq<EdgeV> {
    ws.map_values(
        |w: (int, u128)|
            {
                let b = leader(boosted(u, d.words[w.1]));
                EdgeV { end: w.0, gain: b.1, word: b.0, raw: false }
            },
    )
}

/// The edges of single syllables, which are emitted as letters.
pub open spec fn raw_edges(ends: Seq<int>) -> Seq<EdgeV> {
    ends.map_values(
        |e: int| EdgeV { end: e, gain: UNKNOWN_PENALTY as int, word: Seq::empty(), raw: true },
    )
}

/// The edge of `n` letters from `j` taken as initials.
pub open spec fn initials_edge(d: DictV, u: UserV, run: Seq<char>, j: int, n: int) -> Option<EdgeV> {
    match by_initials(d, run.subrange(j, j + n)) {
        Some(l) => {
            let b = leader(boosted(u, l));
            Some(
                EdgeV {
                    end: j + n,
                    gain: b.1 + ABBREV_PENALTY * n + ABBREV_EDGE_COST,
                    word: b.0,
                    raw: false,
                },
            )
        },
        None => None,
    }
}

/// The edges of up to `n` letters from `j` taken as initials.
pub open spec fn initials_edges(d: DictV, u: UserV, run: Seq<char>, j: int, n: int) -> Seq<EdgeV>
    decreases n,
{
    if n <= 0 {
        Seq::empty()
    } else {
        let head = initials_edges(d, u, run, j, n - 1);
        match initials_edge(d, u, run, j, n) {
            Some(e) => head.push(e),
            None => head,
        }
    }
}

/// How many letters from `j` on can be initials of one word.
pub open spec fn initials_reach(run: Seq<char>, j: int) -> int {
    if run.len() - j < lexicon::MAX_WORD_SYLS {
        run.len() - j
    } else {
        lexicon::MAX_WORD_SYLS as int
    }
}

/// The edges from position `j`: an apostrophe is stepped over; letters start
/// words, single syllables, and words by their initials.
pub open spec fn edges_at(d: DictV, u: UserV, run: Seq<char>, j: int) -> Seq<EdgeV> {
    let low = text::lowered(run);
    if low[j] == '\'' {
        seq![EdgeV { end: j + 1, gain: 0, word: Seq::empty(), raw: false }]
    } else {
        word_edges(d, u, lexicon::words_from(d, low, j)) + raw_edges(
            lexicon::syllable_ends(d, low, j, lexicon::reach(d, low, j)),
        ) + initials_edges(d, u, run, j, initials_reach(run, j))
    }
}

/// The lattice of a run.
pub open spec fn lattice_of(d: DictV, u: UserV, run: Seq<char>) -> Seq<Seq<EdgeV>> {
    Seq::new(run.len(), |j: int| edges_at(d, u, run, j))
}

/// The leader is one of the words.
proof fn lemma_leader_member(s: Seq<Weighed>)
    requires
        s.len() > 0,
    ensures
        s.contains(leader(s)),
    decreases s.len(),
{
    if s.len() > 1 {
        lemma_leader_member(s.drop_last());
        let t = s.drop_last();
        let i = choose|i: int| 0 <= i < t.len() && t[i] == leader(t);
        assert(s[i] == leader(t));
        assert(s[s.len() - 1] == s.last());
    } else {
        assert(s[0] == leader(s));
    }
}

/// The weight of a leader is bounded.
proof fn lemma_leader_bounded(u: UserV, l: Seq<Scored>)
    requires
        l.len() > 0,
    ensures
        -0x1_0000_0000_0000_0000 <= leader(boosted(u, l)).1 <= 0x1_0000_0000_0000_0000,
{
    let b = boosted(u, l);
    lemma_leader_member(b);
    let i = choose|i: int| 0 <= i < b.len() && b[i] == leader(b);
    assert(b[i] == (l[i].0, l[i].1 + boost_of(u.count(l[i].0))));
    law_boost_grows_to_its_cap(u.count(l[i].0), u.count(l[i].0));
}

/// Whether an edge leads from `j` forward inside `n` positions, with a bounded
/// gain.
pub open spec fn edge_ok(e: EdgeV, j: int, n: int) -> bool {
    j < e.end <= n && -lattice::MAX_GAIN <= e.gain <= lattice::MAX_GAIN
}

/// Ends of single syllables lie inside the run.
proof fn lemma_syllable_ends_inside(d: DictV, run: Seq<char>, j: int, end: int, k: int)
    requires
        0 <= k < lexicon::syllable_ends(d, run, j, end).len(),
    ensures
        j < lexicon::syllable_ends(d, run, j, end)[k] <= end,
    decreases end - j,
{
    let head = lexicon::syllable_ends(d, run, j, end - 1);
    if k < head.len() {
        lemma_syllable_ends_inside(d, run, j, end - 1, k);
    }
}

proof fn lemma_initials_edges_ok(d: DictV, u: UserV, run: Seq<char>, j: int, n: int, k: int)
    requires
        d.wf(),
        0 <= j,
        j + n <= run.len(),
        n <= lexicon::MAX_WORD_SYLS,
        0 <= k < initials_edges(d, u, run, j, n).len(),
    ensures
        edge_ok(initials_edges(d, u, run, j, n)[k], j, run.len() as int),
    decreases n,
{
    let head = initials_edges(d, u, run, j, n - 1);
    if k < head.len() {
        lemma_initials_edges_ok(d, u, run, j, n - 1, k);
    } else {
        let l = by_initials(d, run.subrange(j, j + n))->0;
        lemma_leader_bounded(u, l);
    }
}

/// The lattice of a run leads forward, with bounded gains.
pub proof fn lemma_lattice_ok(d: DictV, u: UserV, run: Seq<char>)
    requires
        d.wf(),
    ensures
        lattice::well_formed(lattice_of(d, u, run)),
{
    let lat = lattice_of(d, u, run);
    let low = text::lowered(run);
    assert forall|j: int, k: int| 0 <= j < lat.len() && 0 <= k < lat[j].len() implies edge_ok(
        #[trigger] lat[j][k],
        j,
        lat.len() as int,
    ) by {
        let es = edges_at(d, u, run, j);
        if low[j] != '\'' {
            let ws = lexicon::words_from(d, low, j);
            let a = word_edges(d, u, ws);
            let ends = lexicon::syllable_ends(d, low, j, lexicon::reach(d, low, j));
            let b = raw_edges(ends);
            if k < a.len() {
                assert(ws.contains(ws[k]));
                lexicon::lemma_words_inside(d, low, j, ws[k]);
                lemma_leader_bounded(u, d.words[ws[k].1]);
            } else if k < a.len() + b.len() {
                lemma_syllable_ends_inside(d, low, j, lexicon::reach(d, low, j), k - a.len());
                assert(es[k] == b[k - a.len()]);
            } else {
                lemma_initials_edges_ok(d, u, run, j, initials_reach(run, j), k - a.len() - b.len());
                assert(es[k] == initials_edges(d, u, run, j, initials_reach(run, j))[k - a.len() - b.len()]);
            }
        }
    }
}

/// The characters `run[from..to]` as bytes.
fn letters_of(run: &Vec<char>, from: usize, to: usize) -> (r: Vec<u8>)
    requires
        from <= to <= run@.len(),
        forall|i: int| 0 <= i < run@.len() ==> is_run_char(#[trigger] run@[i]),
    ensures
        r@ == letters(run@.subrange(from as int, to as int)),
{
    let mut out: Vec<u8> = Vec::new();
    let mut i: usize = from;
    let ghost all = letters(run@.subrange(from as int, to as int));
    while i < to
        invariant
            from <= i <= to <= run@.len(),
            all == letters(run@.subrange(from as int, to as int)),
            forall|i: int| 0 <= i < run@.len() ==> is_run_char(#[trigger] run@[i]),
            out@ == all.take(i - from),
        decreases to - i,
    {
        assert(is_run_char(run@[i as int]));
        out.push(run[i] as u8);
        assert(all.take(i + 1 - from) =~= all.take(i - from).push(run@[i as int] as u8));
        i = i + 1;
    }
    assert(all.take(to - from) =~= all);
    out
}

/// The edges from position `j`.
fn edges_from(dict: &PinyinDict, user: &UserDict, run: &Vec<char>, low: &Vec<char>, j: usize) -> (r: Vec<Edge>)
    requires
        dict@.wf(),
        user.wf(),
        is_run(run@),
        low@ == text::lowered(run@),
        j < run@.len(),
    ensures
        lattice::edges(r@) == edges_at(dict@, user@, run@, j as int),
{
    let ghost d = dict@;
    let ghost u = user@;
    let n: usize = run.len();
    let mut out: Vec<Edge> = Vec::new();
    if low[j] == '\'' {
        out.push(Edge { end: j + 1, gain: 0, word: String::new(), raw: false });
        assert(out@[0].word@ =~= Seq::<char>::empty());
        assert(lattice::edges(out@) =~= edges_at(d, u, run@, j as int));
        return out;
    }
    let ws = dict.words_at(low, j);
    let ghost wv = lexicon::words_from(d, low@, j as int);
    let ghost a = word_edges(d, u, wv);
    let mut i: usize = 0;
    assert(lattice::edges(out@) =~= a.take(0));
    while i < ws.len()
        invariant
            0 <= i <= ws@.len(),
            d == dict@,
            u == user@,
            d.wf(),
            user.wf(),
            j < low@.len(),
            wv == lexicon::words_from(d, low@, j as int),
            wv == lexicon::ends_view(ws@),
            a == word_edges(d, u, wv),
            lattice::edges(out@) == a.take(i as int),
        decreases ws@.len() - i,
    {
        let ghost before = lattice::edges(out@);
        let (end, key) = ws[i];
        proof {
            assert(wv[i as int] == (end as int, key));
            assert(wv.contains(wv[i as int]));
            lexicon::lemma_words_inside(d, low@, j as int, wv[i as int]);
        }
        match dict.words_of(key) {
            Some(v) => {
                let (word, gain) = favourite(user, v);
                out.push(Edge { end, gain, word, raw: false });
            },
            None => {},
        }
        proof {
            assert(lattice::edges(out@) =~= before.push(a[i as int]));
            assert(a.take(i + 1) =~= a.take(i as int).push(a[i as int]));
        }
        i = i + 1;
    }
    assert(a.take(a.len() as int) =~= a);
    let ends = dict.syllables_at(low, j);
    let ghost ev = lexicon::syllable_ends(d, low@, j as int, lexicon::reach(d, low@, j as int));
    let ghost b = raw_edges(ev);
    i = 0;
    assert(lattice::edges(out@) =~= a + b.take(0));
    while i < ends.len()
        invariant
            0 <= i <= ends@.len(),
            ev == ends@.map_values(|e: usize| e as int),
            b == raw_edges(ev),
            lattice::edges(out@) == a + b.take(i as int),
        decreases ends@.len() - i,
    {
        let ghost before = lattice::edges(out@);
        out.push(Edge { end: ends[i], gain: UNKNOWN_PENALTY, word: String::new(), raw: true });
        proof {
            assert(out@.last().word@ =~= Seq::<char>::empty());
            assert(b[i as int] == out@.last()@);
            assert(lattice::edges(out@) =~= before.push(b[i as int]));
            assert(b.take(i + 1) =~= b.take(i as int).push(b[i as int]));
            assert(lattice::edges(out@) =~= a + b.take(i + 1));
        }
        i = i + 1;
    }
    assert(b.take(b.len() as int) =~= b);
    let most: usize = if n - j < lexicon::MAX_WORD_SYLS { n - j } else { lexicon::MAX_WORD_SYLS };
    let mut len: usize = 0;
    assert(lattice::edges(out@) =~= a + b + initials_edges(d, u, run@, j as int, 0));
    while len < most
        invariant
            0 <= len <= most,
            most == initials_reach(run@, j as int),
            j < n == run@.len(),
            most <= lexicon::MAX_WORD_SYLS,
            is_run(run@),
            d == dict@,
            u == user@,
            d.wf(),
            user.wf(),
            lattice::edges(out@) == a + b + initials_edges(d, u, run@, j as int, len as int),
        decreases most - len,
    {
        let ghost before = lattice::edges(out@);
        len = len + 1;
        let key = letters_of(run, j, j + len);
        match lexicon::pack_initials(key.as_slice()) {
            Some(k) => {
                match dict.abbrev_of(k) {
                    Some(v) => {
                        let (word, base) = favourite(user, v);
                        let gain: i128 = base + ABBREV_PENALTY * (len as i128) + ABBREV_EDGE_COST;
                        out.push(Edge { end: j + len, gain, word, raw: false });
                        proof {
                            let e = initials_edge(d, u, run@, j as int, len as int)->0;
                            assert(out@.last()@ == e);
                            assert(lattice::edges(out@) =~= before.push(e));
                        }
                    },
                    None => {},
                }
            },
            None => {},
        }
        assert(lattice::edges(out@) =~= a + b + initials_edges(d, u, run@, j as int, len as int));
    }
    out
}

/// The lattice of a run.
fn build_lattice(dict: &PinyinDict, user: &UserDict, run: &Vec<char>, low: &Vec<char>) -> (r: Vec<Vec<Edge>>)
    requires
        dict@.wf(),
        user.wf(),
        is_run(run@),
        low@ == text::lowered(run@),
    ensures
        lattice::lattice(r@) == lattice_of(dict@, user@, run@),
{
    let ghost lat = lattice_of(dict@, user@, run@);
    let mut out: Vec<Vec<Edge>> = Vec::new();
    let mut j: usize = 0;
    while j < run.len()
        invariant
            0 <= j <= run@.len(),
            dict@.wf(),
            user.wf(),
            is_run(run@),
            low@ == text::lowered(run@),
            lat == lattice_of(dict@, user@, run@),
            lattice::lattice(out@) == lat.take(j as int),
        decreases run@.len() - j,
    {
        let ghost before = lattice::lattice(out@);
        let es = edges_from(dict, user, run, low, j);
        out.push(es);
        proof {
            assert(lattice::lattice(out@) =~= before.push(lat[j as int]));
            assert(lat.take(j + 1) =~= lat.take(j as int).push(lat[j as int]));
        }
        j = j + 1;
    }
    assert(lat.take(lat.len() as int) =~= lat);
    out
}

// ---------------------------------------------------------------------------
// The result of an analysis
// ---------------------------------------------------------------------------

/// One selectable candidate: `text` replaces the first `consumed_bytes` of the
/// pinyin run.
#[derive(Debug)]
pub struct Candidate {
    pub text: String,
    pub consumed_bytes: usize,
    /// True for the whole-line conversion candidate: committing it memorizes
    /// the words of its path, not the line.
    pub sentence: bool,
}

/// The model of a candidate.
#[verifier::ext_equal]
pub struct CandidateV {
    pub text: Seq<char>,
    pub consumed: int,
    pub sentence: bool,
}

impl View for Candidate {
    type V = CandidateV;

    open spec fn view(&self) -> CandidateV {
        CandidateV { text: self.text@, consumed: self.consumed_bytes as int, sentence: self.sentence }
    }
}

impl Clone for Candidate {
    fn clone(&self) -> (r: Candidate)
        ensures
            r@ == self@,
    {
        Candidate { text: self.text.clone(), consumed_bytes: self.consumed_bytes, sentence: self.sentence }
    }
}

/// The models of candidates.
pub open spec fn candidates_view(v: Seq<Candidate>) -> Seq<CandidateV> {
    v.map_values(|c: Candidate| c@)
}

/// A word of the best path with the span of its letters.
pub type Span = (Seq<char>, int, int);

/// The models of a path.
pub open spec fn path_view(v: Seq<(String, usize, usize)>) -> Seq<Span> {
    v.map_values(|p: (String, usize, usize)| (p.0@, p.1 as int, p.2 as int))
}

/// The result of analyzing a pinyin run.
#[derive(Debug)]
pub struct Analysis {
    pub candidates: Vec<Candidate>,
    /// Whole-run conversion: best path over the convertible prefix, then the
    /// leftover letters.
    pub best_line: String,
    /// The dictionary words of the best path with their spans in the run.
    pub path: Vec<(String, usize, usize)>,
}

/// The model of an analysis.
#[verifier::ext_equal]
pub struct AnalysisV {
    pub candidates: Seq<CandidateV>,
    pub best_line: Seq<char>,
    pub path: Seq<Span>,
}

impl View for Analysis {
    type V = AnalysisV;

    open spec fn view(&self) -> AnalysisV {
        AnalysisV {
            candidates: candidates_view(self.candidates@),
            best_line: self.best_line@,
            path: path_view(self.path@),
        }
    }
}

impl Default for Analysis {
    /// The analysis of nothing.
    fn default() -> (r: Analysis)
        ensures
            r@ == (AnalysisV { candidates: Seq::empty(), best_line: Seq::empty(), path: Seq::empty() }),
    {
        let r = Analysis { candidates: Vec::new(), best_line: String::new(), path: Vec::new() };
        assert(r@ =~= (AnalysisV { candidates: Seq::empty(), best_line: Seq::empty(), path: Seq::empty() }));
        r
    }
}

// ---------------------------------------------------------------------------
// The best line
// ---------------------------------------------------------------------------

/// What a step of a path emits.
pub open spec fn hop_text(low: Seq<char>, h: HopV) -> Seq<char> {
    if h.raw {
        low.subrange(h.start, h.end)
    } else {
        h.word
    }
}

/// What a path emits.
pub open spec fn line_text(low: Seq<char>, hs: Seq<HopV>) -> Seq<char>
    decreases hs.len(),
{
    if hs.len() == 0 {
        Seq::empty()
    } else {
        line_text(low, hs.drop_last()) + hop_text(low, hs.last())
    }
}

/// The words of a path, with their spans.
pub open spec fn word_path(hs: Seq<HopV>) -> Seq<Span>
    decreases hs.len(),
{
    if hs.len() == 0 {
        Seq::empty()
    } else {
        let head = word_path(hs.drop_last());
        let h = hs.last();
        if !h.raw && h.word.len() > 0 {
            head.push((h.word, h.start, h.end))
        } else {
            head
        }
    }
}

/// Whether a path emits letters.
pub open spec fn some_raw(hs: Seq<HopV>) -> bool {
    exists|i: int| 0 <= i < hs.len() && (#[trigger] hs[i]).raw
}

/// A text without its leading apostrophes.
pub open spec fn without_apostrophes(s: Seq<char>) -> Seq<char>
    decreases s.len(),
{
    if s.len() > 0 && s[0] == '\'' {
        without_apostrophes(s.drop_first())
    } else {
        s
    }
}

/// The steps of a path as texts, words and whether letters are among them.
fn read_path(low: &Vec<char>, hs: &Vec<Hop>) -> (r: (String, Vec<(String, usize, usize)>, bool))
    requires
        forall|i: int| 0 <= i < hs@.len() ==> 0 <= (#[trigger] lattice::hops(hs@)[i]).start && lattice::hops(
            hs@,
        )[i].start <= lattice::hops(hs@)[i].end && lattice::hops(hs@)[i].end <= low@.len(),
    ensures
        r.0@ == line_text(low@, lattice::hops(hs@)),
        path_view(r.1@) == word_path(lattice::hops(hs@)),
        r.2 == some_raw(lattice::hops(hs@)),
{
    let ghost hv = lattice::hops(hs@);
    let mut line = String::new();
    let mut path: Vec<(String, usize, usize)> = Vec::new();
    let mut raw = false;
    let mut i: usize = 0;
    proof {
        assert(hv.take(0) =~= Seq::<HopV>::empty());
        assert(path_view(path@) =~= Seq::<Span>::empty());
        assert(line@ =~= Seq::<char>::empty());
    }
    while i < hs.len()
        invariant
            0 <= i <= hs@.len(),
            hv == lattice::hops(hs@),
            forall|i: int| 0 <= i < hs@.len() ==> 0 <= (#[trigger] hv[i]).start && hv[i].start <= hv[i].end && hv[i].end
                <= low@.len(),
            line@ == line_text(low@, hv.take(i as int)),
            path_view(path@) == word_path(hv.take(i as int)),
            raw == exists|k: int| 0 <= k < i && (#[trigger] hv[k]).raw,
        decreases hs@.len() - i,
    {
        let h = &hs[i];
        let ghost before = path_view(path@);
        proof {
            assert(hv.take(i + 1).drop_last() =~= hv.take(i as int));
            assert(hv.take(i + 1).last() == hv[i as int]);
            assert(hv[i as int] == h@);
        }
        if h.raw {
            let piece = text::string_of(low, h.start, h.end);
            line.append(piece.as_str());
            raw = true;
        } else {
            line.append(h.word.as_str());
            if !h.word.as_str().is_empty() {
                path.push((h.word.clone(), h.start, h.end));
                assert(path_view(path@) =~= before.push((h.word@, h.start as int, h.end as int)));
            }
        }
        i = i + 1;
    }
    assert(hv.take(hv.len() as int) =~= hv);
    (line, path, raw)
}

/// The characters `low[from..]` without leading apostrophes.
fn tail_of(low: &Vec<char>, from: usize) -> (r: String)
    requires
        from <= low@.len(),
    ensures
        r@ == without_apostrophes(low@.skip(from as int)),
{
    let mut i: usize = from;
    while i < low.len() && low[i] == '\''
        invariant
            from <= i <= low@.len(),
            without_apostrophes(low@.skip(from as int)) == without_apostrophes(low@.skip(i as int)),
        decreases low@.len() - i,
    {
        assert(low@.skip(i as int).drop_first() =~= low@.skip(i + 1));
        i = i + 1;
    }
    assert(low@.skip(i as int) =~= low@.subrange(i as int, low@.len() as int));
    text::string_of(low, i, low.len())
}

// ---------------------------------------------------------------------------
// The candidates
// ---------------------------------------------------------------------------

/// Whether the same text for the same letters is among the candidates.
pub open spec fn offered(c: Seq<CandidateV>, t: Seq<char>, consumed: int) -> bool {
    exists|i: int| 0 <= i < c.len() && (#[trigger] c[i]).text == t && c[i].consumed == consumed
}

/// Whether a text is among the candidates.
pub open spec fn has_text(c: Seq<CandidateV>, t: Seq<char>) -> bool {
    exists|i: int| 0 <= i < c.len() && (#[trigger] c[i]).text == t
}

/// The candidates with one more, unless it is offered already.
pub open spec fn with_distinct(c: Seq<CandidateV>, x: CandidateV) -> Seq<CandidateV> {
    if offered(c, x.text, x.consumed) {
        c
    } else {
        c.push(x)
    }
}

/// The candidates with the remembered picks that cover at least the first
/// `full` letters, or with those that cover less.
pub open spec fn with_matches(c: Seq<CandidateV>, ms: Seq<(int, Seq<char>, int)>, full: int, long: bool) -> Seq<
    CandidateV,
>
    decreases ms.len(),
{
    if ms.len() == 0 {
        c
    } else {
        let head = with_matches(c, ms.drop_last(), full, long);
        let m = ms.last();
        if (m.0 >= full) == long {
            with_distinct(head, CandidateV { text: m.1, consumed: m.0, sentence: false })
        } else {
            head
        }
    }
}

/// The candidates with the words that are not there yet, up to the cap.
pub open spec fn with_words(c: Seq<CandidateV>, ws: Seq<Weighed>, end: int) -> Seq<CandidateV>
    decreases ws.len(),
{
    if ws.len() == 0 {
        c
    } else {
        let head = with_words(c, ws.drop_last(), end);
        let w = ws.last().0;
        if head.len() >= MAX_CANDIDATES || has_text(head, w) {
            head
        } else {
            head.push(CandidateV { text: w, consumed: end, sentence: false })
        }
    }
}

/// A reading from the start of the run: its end, its key and its best score.
pub type Start = (int, u128, int);

/// The readings that start the run.
pub open spec fn starts_of(d: DictV, low: Seq<char>) -> Seq<Start> {
    lexicon::words_from(d, low, 0).map_values(|w: (int, u128)| (w.0, w.1, d.words[w.1][0].1 as int))
}

/// Readings are ordered by how much they cover, then by score.
pub open spec fn start_key() -> spec_fn(Start) -> (int, int) {
    |s: Start| (s.0, s.2)
}

/// How many words of a reading are offered.
pub open spec fn share(end: int, full: int) -> int {
    if end == full {
        10
    } else {
        8
    }
}

/// The candidates with the words of readings.
pub open spec fn with_starts(d: DictV, u: UserV, c: Seq<CandidateV>, ss: Seq<Start>, full: int) -> Seq<CandidateV>
    decreases ss.len(),
{
    if ss.len() == 0 {
        c
    } else {
        let s = ss.last();
        with_words(
            with_starts(d, u, c, ss.drop_last(), full),
            rank::cut(favourites(u, d.words[s.1]), share(s.0, full)),
            s.0,
        )
    }
}

/// Words that are not among the candidates, as candidates for the whole run.
pub open spec fn fresh(c: Seq<CandidateV>, ws: Seq<Weighed>, n: int) -> Seq<CandidateV>
    decreases ws.len(),
{
    if ws.len() == 0 {
        Seq::empty()
    } else {
        let head = fresh(c, ws.drop_last(), n);
        if has_text(c, ws.last().0) {
            head
        } else {
            head.push(CandidateV { text: ws.last().0, consumed: n, sentence: false })
        }
    }
}

/// The candidates by the initials of the whole run.
pub open spec fn by_whole_initials(d: DictV, u: UserV, c: Seq<CandidateV>, run: Seq<char>) -> Seq<CandidateV> {
    match by_initials(d, run) {
        Some(l) => fresh(c, rank::cut(favourites(u, l), 8), run.len() as int),
        None => Seq::empty(),
    }
}

/// The first candidate, from place `i` on, that covers `n` letters.
pub open spec fn first_covering(c: Seq<CandidateV>, n: int, i: int) -> Option<Seq<char>>
    decreases c.len() - i,
{
    if i < 0 || i >= c.len() {
        None
    } else if c[i].consumed == n {
        Some(c[i].text)
    } else {
        first_covering(c, n, i + 1)
    }
}

/// The candidates of full pinyin: remembered picks that cover the convertible
/// prefix, the whole line, shorter remembered picks, then dictionary words from
/// the start of the run, the longest first.
pub open spec fn full_candidates(d: DictV, u: UserV, run: Seq<char>) -> Seq<CandidateV> {
    let low = text::lowered(run);
    let lat = lattice_of(d, u, run);
    let full = lattice::furthest(lat, run.len() as int);
    let hs = lattice::trail(lat, full);
    let ms = u.prefix_matches(low);
    let a = with_matches(Seq::empty(), ms, full, true);
    let b = if full > 0 && !some_raw(hs) {
        with_distinct(a, CandidateV { text: line_text(low, hs), consumed: full, sentence: true })
    } else {
        a
    };
    with_starts(d, u, with_matches(b, ms, full, false), rank::ranked(starts_of(d, low), start_key()), full)
}

/// The analysis of a run.
pub open spec fn analysis(d: DictV, u: UserV, run: Seq<char>) -> AnalysisV {
    if !is_run(run) {
        AnalysisV { candidates: Seq::empty(), best_line: run, path: Seq::empty() }
    } else {
        let low = text::lowered(run);
        let lat = lattice_of(d, u, run);
        let full = lattice::furthest(lat, run.len() as int);
        let hs = lattice::trail(lat, full);
        let c = full_candidates(d, u, run);
        let extra = by_whole_initials(d, u, c, run);
        let line = line_text(low, hs) + without_apostrophes(low.skip(full));
        if extra.len() > 0 && full == 0 {
            let all = c + extra;
            AnalysisV {
                candidates: all,
                best_line: match first_covering(all, run.len() as int, 0) {
                    Some(t) => t,
                    None => line,
                },
                path: word_path(hs),
            }
        } else {
            AnalysisV {
                candidates: rank::cut(c, MAX_CANDIDATES - extra.len()) + extra,
                best_line: line,
                path: word_path(hs),
            }
        }
    }
}

/// Whether the same text for the same letters is among the candidates.
fn is_offered(c: &Vec<Candidate>, t: &str, consumed: usize) -> (r: bool)
    ensures
        r == offered(candidates_view(c@), t@, consumed as int),
{
    let ghost cv = candidates_view(c@);
    let mut i: usize = 0;
    while i < c.len()
        invariant
            0 <= i <= c@.len(),
            cv == candidates_view(c@),
            forall|k: int| 0 <= k < i ==> !((#[trigger] cv[k]).text == t@ && cv[k].consumed == consumed),
        decreases c@.len() - i,
    {
        assert(cv[i as int] == c@[i as int]@);
        if c[i].consumed_bytes == consumed && text::same(c[i].text.as_str(), t) {
            return true;
        }
        i = i + 1;
    }
    false
}

/// Whether a text is among the candidates.
fn text_is_there(c: &Vec<Candidate>, t: &str) -> (r: bool)
    ensures
        r == has_text(candidates_view(c@), t@),
{
    let ghost cv = candidates_view(c@);
    let mut i: usize = 0;
    while i < c.len()
        invariant
            0 <= i <= c@.len(),
            cv == candidates_view(c@),
            forall|k: int| 0 <= k < i ==> (#[trigger] cv[k]).text != t@,
        decreases c@.len() - i,
    {
        assert(cv[i as int] == c@[i as int]@);
        if text::same(c[i].text.as_str(), t) {
            return true;
        }
        i = i + 1;
    }
    false
}

/// Adds a candidate, unless it is offered already.
fn push_distinct(c: &mut Vec<Candidate>, t: &str, consumed: usize, sentence: bool)
    ensures
        candidates_view(final(c)@) == with_distinct(
            candidates_view(old(c)@),
            CandidateV { text: t@, consumed: consumed as int, sentence },
        ),
{
    if !is_offered(c, t, consumed) {
        let ghost before = candidates_view(c@);
        c.push(Candidate { text: text::copy_of(t), consumed_bytes: consumed, sentence });
        assert(candidates_view(c@) =~= before.push(
            CandidateV { text: t@, consumed: consumed as int, sentence },
        ));
    }
}

/// Adds the remembered picks that cover at least `full` letters, or the others.
fn push_matches(c: &mut Vec<Candidate>, ms: &Vec<(usize, &str, u32)>, full: usize, long: bool)
    ensures
        candidates_view(final(c)@) == with_matches(
            candidates_view(old(c)@),
            crate::userdict::matches_view(ms@),
            full as int,
            long,
        ),
{
    let ghost mv = crate::userdict::matches_view(ms@);
    let ghost c0 = candidates_view(c@);
    let mut i: usize = 0;
    assert(mv.take(0) =~= Seq::<(int, Seq<char>, int)>::empty());
    while i < ms.len()
        invariant
            0 <= i <= ms@.len(),
            mv == crate::userdict::matches_view(ms@),
            candidates_view(c@) == with_matches(c0, mv.take(i as int), full as int, long),
        decreases ms@.len() - i,
    {
        let m = ms[i];
        proof {
            assert(mv.take(i + 1).drop_last() =~= mv.take(i as int));
            assert(mv.take(i + 1).last() == (m.0 as int, m.1@, m.2 as int));
        }
        if (m.0 >= full) == long {
            push_distinct(c, m.1, m.0, false);
        }
        i = i + 1;
    }
    assert(mv.take(mv.len() as int) =~= mv);
}

/// Adds the first `take` words that are not there yet, up to the cap.
fn push_words(c: &mut Vec<Candidate>, ws: &Vec<(String, i128)>, take: usize, end: usize)
    ensures
        candidates_view(final(c)@) == with_words(
            candidates_view(old(c)@),
            rank::cut(gains(ws@), take as int),
            end as int,
        ),
{
    let ghost wv = rank::cut(gains(ws@), take as int);
    let ghost c0 = candidates_view(c@);
    let m: usize = if ws.len() < take { ws.len() } else { take };
    let mut i: usize = 0;
    assert(wv.take(0) =~= Seq::<Weighed>::empty());
    while i < m
        invariant
            0 <= i <= m <= ws@.len(),
            m == wv.len(),
            wv == rank::cut(gains(ws@), take as int),
            candidates_view(c@) == with_words(c0, wv.take(i as int), end as int),
        decreases m - i,
    {
        let ghost before = candidates_view(c@);
        proof {
            assert(wv.take(i + 1).drop_last() =~= wv.take(i as int));
            assert(wv.take(i + 1).last() == (ws@[i as int].0@, ws@[i as int].1 as int));
        }
        if c.len() < MAX_CANDIDATES && !text_is_there(c, ws[i].0.as_str()) {
            c.push(Candidate { text: ws[i].0.clone(), consumed_bytes: end, sentence: false });
            assert(candidates_view(c@) =~= before.push(
                CandidateV { text: ws@[i as int].0@, consumed: end as int, sentence: false },
            ));
        }
        i = i + 1;
    }
    assert(wv.take(wv.len() as int) =~= wv);
}

/// The models of readings.
pub open spec fn starts_view(v: Seq<(usize, u128, i64)>) -> Seq<Start> {
    v.map_values(|s: (usize, u128, i64)| (s.0 as int, s.1, s.2 as int))
}

impl Ranked for (usize, u128, i64) {
    open spec fn rank(&self) -> (int, int) {
        (self.0 as int, self.2 as int)
    }

    fn outranks(&self, other: &Self) -> (r: bool) {
        self.0 > other.0 || (self.0 == other.0 && self.2 > other.2)
    }
}

/// The readings that start the run, the longest first.
fn ranked_starts(dict: &PinyinDict, low: &Vec<char>) -> (r: Vec<(usize, u128, i64)>)
    requires
        dict@.wf(),
    ensures
        starts_view(r@) == rank::ranked(starts_of(dict@, low@), start_key()),
        forall|i: int| 0 <= i < r@.len() ==> dict@.words.contains_key((#[trigger] r@[i]).1) && r@[i].0 <= low@.len(),
{
    let ghost d = dict@;
    let ws = dict.words_at(low, 0);
    let ghost wv = lexicon::words_from(d, low@, 0);
    let ghost sv = starts_of(d, low@);
    let mut out: Vec<(usize, u128, i64)> = Vec::new();
    let mut i: usize = 0;
    assert(starts_view(out@) =~= sv.take(0));
    while i < ws.len()
        invariant
            0 <= i <= ws@.len(),
            d == dict@,
            d.wf(),
            wv == lexicon::words_from(d, low@, 0),
            wv == lexicon::ends_view(ws@),
            sv == starts_of(d, low@),
            starts_view(out@) == sv.take(i as int),
            forall|i: int| 0 <= i < out@.len() ==> d.words.contains_key((#[trigger] out@[i]).1) && out@[i].0
                <= low@.len(),
        decreases ws@.len() - i,
    {
        let ghost before = starts_view(out@);
        let (end, key) = ws[i];
        proof {
            assert(wv[i as int] == (end as int, key));
            assert(wv.contains(wv[i as int]));
            lexicon::lemma_words_inside(d, low@, 0, wv[i as int]);
        }
        match dict.words_of(key) {
            Some(v) => {
                assert(lexicon::scored(v@)[0] == (v@[0].0@, v@[0].1));
                out.push((end, key, v[0].1));
            },
            None => {},
        }
        proof {
            assert(starts_view(out@) =~= before.push(sv[i as int]));
            assert(sv.take(i + 1) =~= sv.take(i as int).push(sv[i as int]));
        }
        i = i + 1;
    }
    assert(sv.take(sv.len() as int) =~= sv);
    let ghost o = out@;
    proof {
        let f = |s: (usize, u128, i64)| (s.0 as int, s.1, s.2 as int);
        rank::lemma_ranked_map(o, f, rank::rank_key::<(usize, u128, i64)>(), start_key());
        rank::lemma_ranked_members(o, rank::rank_key::<(usize, u128, i64)>());
    }
    let r = rank::by_rank(out);
    assert forall|i: int| 0 <= i < r@.len() implies d.words.contains_key((#[trigger] r@[i]).1) && r@[i].0 <= low@.len() by {
        assert(o.contains(r@[i]));
    }
    r
}

/// Adds the words of readings.
fn push_starts(
    dict: &PinyinDict,
    user: &UserDict,
    c: &mut Vec<Candidate>,
    ss: &Vec<(usize, u128, i64)>,
    full: usize,
)
    requires
        dict@.wf(),
        user.wf(),
        forall|i: int| 0 <= i < ss@.len() ==> dict@.words.contains_key((#[trigger] ss@[i]).1),
    ensures
        candidates_view(final(c)@) == with_starts(
            dict@,
            user@,
            candidates_view(old(c)@),
            starts_view(ss@),
            full as int,
        ),
{
    let ghost sv = starts_view(ss@);
    let ghost c0 = candidates_view(c@);
    let ghost d = dict@;
    let ghost u = user@;
    let mut i: usize = 0;
    assert(sv.take(0) =~= Seq::<Start>::empty());
    while i < ss.len()
        invariant
            0 <= i <= ss@.len(),
            d == dict@,
            u == user@,
            user.wf(),
            sv == starts_view(ss@),
            forall|i: int| 0 <= i < ss@.len() ==> d.words.contains_key((#[trigger] ss@[i]).1),
            candidates_view(c@) == with_starts(d, u, c0, sv.take(i as int), full as int),
        decreases ss@.len() - i,
    {
        let s = ss[i];
        proof {
            assert(sv.take(i + 1).drop_last() =~= sv.take(i as int));
            assert(sv.take(i + 1).last() == (s.0 as int, s.1, s.2 as int));
            assert(d.words.contains_key(ss@[i as int].1));
        }
        match dict.words_of(s.1) {
            Some(v) => {
                let ws = favourites_of(user, v);
                let take: usize = if s.0 == full { 10 } else { 8 };
                push_words(c, &ws, take, s.0);
            },
            None => {},
        }
        i = i + 1;
    }
    assert(sv.take(sv.len() as int) =~= sv);
}

/// The candidates by the initials of the whole run.
fn whole_initials(dict: &PinyinDict, user: &UserDict, c: &Vec<Candidate>, run: &Vec<char>) -> (r: Vec<Candidate>)
    requires
        user.wf(),
        is_run(run@),
    ensures
        candidates_view(r@) == by_whole_initials(dict@, user@, candidates_view(c@), run@),
        r@.len() <= 8,
{
    let ghost cv = candidates_view(c@);
    let n: usize = run.len();
    let mut out: Vec<Candidate> = Vec::new();
    assert(candidates_view(out@) =~= Seq::<CandidateV>::empty());
    let key = letters_of(run, 0, n);
    assert(run@.subrange(0, n as int) =~= run@);
    let list = match lexicon::pack_initials(key.as_slice()) {
        Some(k) => dict.abbrev_of(k),
        None => None,
    };
    match list {
        Some(v) => {
            let ws = favourites_of(user, v);
            let ghost wv = rank::cut(gains(ws@), 8);
            let m: usize = if ws.len() < 8 { ws.len() } else { 8 };
            let mut i: usize = 0;
            assert(wv.take(0) =~= Seq::<Weighed>::empty());
            while i < m
                invariant
                    0 <= i <= m <= ws@.len(),
                    m == wv.len(),
                    m <= 8,
                    n == run@.len(),
                    cv == candidates_view(c@),
                    wv == rank::cut(gains(ws@), 8),
                    candidates_view(out@) == fresh(cv, wv.take(i as int), n as int),
                    out@.len() <= i,
                decreases m - i,
            {
                let ghost before = candidates_view(out@);
                proof {
                    assert(wv.take(i + 1).drop_last() =~= wv.take(i as int));
                    assert(wv.take(i + 1).last() == (ws@[i as int].0@, ws@[i as int].1 as int));
                }
                if !text_is_there(c, ws[i].0.as_str()) {
                    out.push(Candidate { text: ws[i].0.clone(), consumed_bytes: n, sentence: false });
                    assert(candidates_view(out@) =~= before.push(
                        CandidateV { text: ws@[i as int].0@, consumed: n as int, sentence: false },
                    ));
                }
                i = i + 1;
            }
            assert(wv.take(wv.len() as int) =~= wv);
        },
        None => {},
    }
    out
}

/// The text of the first candidate that covers `n` letters.
fn covering_text(c: &Vec<Candidate>, n: usize) -> (r: Option<String>)
    ensures
        match r {
            Some(t) => first_covering(candidates_view(c@), n as int, 0) == Some(t@),
            None => first_covering(candidates_view(c@), n as int, 0) is None,
        },
{
    let ghost cv = candidates_view(c@);
    let mut i: usize = 0;
    while i < c.len()
        invariant
            0 <= i <= c@.len(),
            cv == candidates_view(c@),
            first_covering(cv, n as int, 0) == first_covering(cv, n as int, i as int),
        decreases c@.len() - i,
    {
        assert(cv[i as int] == c@[i as int]@);
        if c[i].consumed_bytes == n {
            return Some(c[i].text.clone());
        }
        i = i + 1;
    }
    None
}

/// Whether a text is a run to analyze.
fn run_ok(run: &Vec<char>) -> (r: bool)
    ensures
        r == is_run(run@),
{
    if run.len() > MAX_RUN_BYTES {
        return false;
    }
    let mut i: usize = 0;
    while i < run.len()
        invariant
            0 <= i <= run@.len(),
            forall|k: int| 0 <= k < i ==> is_run_char(#[trigger] run@[k]),
        decreases run@.len() - i,
    {
        let c = run[i];
        if !(('a' <= c && c <= 'z') || ('A' <= c && c <= 'Z') || c == '\'') {
            assert(!is_run_char(run@[i as int]));
            return false;
        }
        i = i + 1;
    }
    true
}

impl PinyinDict {
    /// Analyzes a pinyin run: the candidates and the whole-run conversion. A
    /// text that is no run comes back unchanged. `user` biases both ranking and
    /// conversion toward past picks.
    pub fn analyze(&self, run: &str, user: &UserDict) -> (r: Analysis)
        requires
            self@.wf(),
            user.wf(),
        ensures
            r@ == analysis(self@, user@, run@),
    {
        let ghost d = self@;
        let ghost u = user@;
        let orig = text::chars_of(run);
        if !run_ok(&orig) {
            let r = Analysis { candidates: Vec::new(), best_line: text::copy_of(run), path: Vec::new() };
            assert(r@ =~= analysis(d, u, run@));
            return r;
        }
        let n: usize = orig.len();
        let lower = text::to_lower(run);
        let low = text::chars_of(lower.as_str());
        let lat = build_lattice(self, user, &orig, &low);
        let ghost lv = lattice_of(d, u, run@);
        proof {
            lemma_lattice_ok(d, u, run@);
            assert(lv.len() == n);
            assert(lattice::lattice(lat@).len() == lat@.len());
        }
        let dp = lattice::solve(&lat);
        let full: usize = lattice::furthest_reached(&dp, Ghost(lv));
        proof {
            lattice::law_furthest(lv, n as int);
            lattice::law_trail_covers(lv, full as int);
        }
        let hs = lattice::trace(&dp, full, Ghost(lv));
        let ghost hv = lattice::trail(lv, full as int);
        proof {
            assert forall|i: int| 0 <= i < hs@.len() implies 0 <= (#[trigger] lattice::hops(hs@)[i]).start
                && lattice::hops(hs@)[i].start <= lattice::hops(hs@)[i].end && lattice::hops(hs@)[i].end <= low@.len() by {
                assert(lattice::hops(hs@)[i] == hv[i]);
            }
        }
        let (line, path, has_raw) = read_path(&low, &hs);
        let mut best_line = line.clone();
        let tail = tail_of(&low, full);
        best_line.append(tail.as_str());
        let mut candidates: Vec<Candidate> = Vec::new();
        assert(candidates_view(candidates@) =~= Seq::<CandidateV>::empty());
        let remembered = user.prefix_matches(lower.as_str());
        push_matches(&mut candidates, &remembered, full, true);
        if full > 0 && !has_raw {
            push_distinct(&mut candidates, line.as_str(), full, true);
        }
        push_matches(&mut candidates, &remembered, full, false);
        let starts = ranked_starts(self, &low);
        push_starts(self, user, &mut candidates, &starts, full);
        let ghost c = candidates_view(candidates@);
        assert(c == full_candidates(d, u, run@));
        let mut extra = whole_initials(self, user, &candidates, &orig);
        let ghost ex = candidates_view(extra@);
        if extra.len() > 0 && full == 0 {
            candidates.append(&mut extra);
            assert(candidates_view(candidates@) =~= c + ex);
            match covering_text(&candidates, n) {
                Some(t) => {
                    best_line = t;
                },
                None => {},
            }
        } else {
            let keep: usize = MAX_CANDIDATES - extra.len();
            candidates.truncate(keep);
            assert(candidates_view(candidates@) =~= rank::cut(c, keep as int));
            candidates.append(&mut extra);
            assert(candidates_view(candidates@) =~= rank::cut(c, keep as int) + ex);
        }
        Analysis { candidates, best_line, path }
    }
}

// ---------------------------------------------------------------------------
// What an analysis keeps
// ---------------------------------------------------------------------------

/// No way to read the convertible prefix scores higher than the best line.
pub proof fn law_best_line_scores_highest(d: DictV, u: UserV, run: Seq<char>, p: Seq<(int, int)>)
    requires
        d.wf(),
        lattice::is_path(
            lattice_of(d, u, run),
            p,
            lattice::furthest(lattice_of(d, u, run), run.len() as int),
        ),
    ensures
        ({
            let lat = lattice_of(d, u, run);
            let full = lattice::furthest(lat, run.len() as int);
            &&& lattice::best(lat, full) is Some
            &&& lattice::path_gain(lat, p) <= lattice::best(lat, full)->0.score
        }),
{
    lemma_lattice_ok(d, u, run);
    lattice::law_best_is_highest(
        lattice_of(d, u, run),
        p,
        lattice::furthest(lattice_of(d, u, run), run.len() as int),
    );
}

/// Upper-case letters are literal: letters that hold one are never initials,
/// neither inside a line nor as a whole run.
pub proof fn law_upper_case_is_literal(d: DictV, u: UserV, run: Seq<char>, j: int, n: int, i: int)
    requires
        0 <= j <= i < j + n <= run.len(),
        text::is_upper(run[i]),
    ensures
        initials_edge(d, u, run, j, n) is None,
        forall|c: Seq<CandidateV>| #[trigger] by_whole_initials(d, u, c, run) == Seq::<CandidateV>::empty(),
{
    let s = run.subrange(j, j + n);
    assert(letters(s)[i - j] == run[i] as u8);
    assert(letters(run)[i] == run[i] as u8);
    assert(!(97 <= letters(s)[i - j] <= 122));
    assert(!(97 <= letters(run)[i] <= 122));
}

/// The letters that a remembered pick covers.
proof fn lemma_gathered(t: crate::picks::TableV, run: Seq<char>, k: int, i: int)
    requires
        0 <= i < crate::userdict::gathered(t, run, k).len(),
    ensures
        1 <= crate::userdict::gathered(t, run, k)[i].0 <= k,
    decreases k,
{
    if k > 0 {
        let head = crate::userdict::gathered(t, run, k - 1);
        if i < head.len() {
            lemma_gathered(t, run, k - 1, i);
        }
    }
}

/// Remembered picks are at most four, and cover some of the run.
proof fn lemma_matches(u: UserV, run: Seq<char>)
    ensures
        u.prefix_matches(run).len() <= 4,
        forall|i: int|
            0 <= i < u.prefix_matches(run).len() ==> 1 <= (#[trigger] u.prefix_matches(run)[i]).0 <= run.len(),
{
    let g = crate::userdict::gathered(u.entries, run, run.len() as int);
    let r = rank::ranked(g, crate::userdict::match_key());
    let ms = u.prefix_matches(run);
    rank::lemma_ranked_members(g, crate::userdict::match_key());
    assert forall|i: int| 0 <= i < ms.len() implies 1 <= (#[trigger] ms[i]).0 <= run.len() by {
        assert(ms[i] == r[i]);
        assert(g.contains(r[i]));
        let k = choose|k: int| 0 <= k < g.len() && g[k] == r[i];
        lemma_gathered(u.entries, run, run.len() as int, k);
    }
}

/// Whether every candidate covers some of the first `n` letters.
pub open spec fn covers_some(c: Seq<CandidateV>, n: int) -> bool {
    forall|i: int| 0 <= i < c.len() ==> 1 <= (#[trigger] c[i]).consumed <= n
}

proof fn lemma_with_matches(c: Seq<CandidateV>, ms: Seq<(int, Seq<char>, int)>, full: int, long: bool, n: int)
    requires
        covers_some(c, n),
        forall|i: int| 0 <= i < ms.len() ==> 1 <= (#[trigger] ms[i]).0 <= n,
    ensures
        covers_some(with_matches(c, ms, full, long), n),
        c.len() <= with_matches(c, ms, full, long).len() <= c.len() + ms.len(),
        forall|i: int| 0 <= i < c.len() ==> #[trigger] with_matches(c, ms, full, long)[i] == c[i],
        forall|i: int|
            c.len() <= i < with_matches(c, ms, full, long).len() ==> ((#[trigger] with_matches(c, ms, full, long)[i]).consumed
                >= full) == long,
    decreases ms.len(),
{
    if ms.len() > 0 {
        let t = ms.drop_last();
        assert forall|i: int| 0 <= i < t.len() implies 1 <= (#[trigger] t[i]).0 <= n by {
            assert(t[i] == ms[i]);
        }
        lemma_with_matches(c, t, full, long, n);
        let r = with_matches(c, ms, full, long);
        let h = with_matches(c, t, full, long);
        assert(1 <= ms[ms.len() - 1].0 <= n);
        assert forall|i: int| 0 <= i < r.len() implies 1 <= (#[trigger] r[i]).consumed <= n && (i < c.len() ==> r[i]
            == c[i]) && (i >= c.len() ==> (r[i].consumed >= full) == long) by {
            if i < h.len() {
                assert(r[i] == h[i]);
            }
        }
    }
}

proof fn lemma_with_words(c: Seq<CandidateV>, ws: Seq<Weighed>, end: int, n: int)
    requires
        covers_some(c, n),
        1 <= end <= n,
        c.len() <= MAX_CANDIDATES,
    ensures
        covers_some(with_words(c, ws, end), n),
        c.len() <= with_words(c, ws, end).len() <= MAX_CANDIDATES,
        forall|i: int| 0 <= i < c.len() ==> #[trigger] with_words(c, ws, end)[i] == c[i],
    decreases ws.len(),
{
    if ws.len() > 0 {
        lemma_with_words(c, ws.drop_last(), end, n);
        let h = with_words(c, ws.drop_last(), end);
        let r = with_words(c, ws, end);
        assert forall|i: int| 0 <= i < r.len() implies 1 <= (#[trigger] r[i]).consumed <= n && (i < c.len() ==> r[i]
            == c[i]) by {
            if i < h.len() {
                assert(r[i] == h[i]);
            }
        }
    }
}

proof fn lemma_with_starts(d: DictV, u: UserV, c: Seq<CandidateV>, ss: Seq<Start>, full: int, n: int)
    requires
        covers_some(c, n),
        c.len() <= MAX_CANDIDATES,
        forall|i: int| 0 <= i < ss.len() ==> 1 <= (#[trigger] ss[i]).0 <= n,
    ensures
        covers_some(with_starts(d, u, c, ss, full), n),
        c.len() <= with_starts(d, u, c, ss, full).len() <= MAX_CANDIDATES,
        forall|i: int| 0 <= i < c.len() ==> #[trigger] with_starts(d, u, c, ss, full)[i] == c[i],
    decreases ss.len(),
{
    if ss.len() > 0 {
        let t = ss.drop_last();
        assert forall|i: int| 0 <= i < t.len() implies 1 <= (#[trigger] t[i]).0 <= n by {
            assert(t[i] == ss[i]);
        }
        lemma_with_starts(d, u, c, t, full, n);
        let s = ss.last();
        assert(1 <= ss[ss.len() - 1].0 <= n);
        let h = with_starts(d, u, c, t, full);
        let ws = rank::cut(favourites(u, d.words[s.1]), share(s.0, full));
        lemma_with_words(h, ws, s.0, n);
        let r = with_starts(d, u, c, ss, full);
        assert forall|i: int| 0 <= i < c.len() implies #[trigger] r[i] == c[i] by {
            assert(h[i] == c[i]);
            assert(with_words(h, ws, s.0)[i] == h[i]);
        }
    }
}

/// Readings end inside the run.
proof fn lemma_starts(d: DictV, low: Seq<char>)
    ensures
        forall|i: int|
            0 <= i < rank::ranked(starts_of(d, low), start_key()).len() ==> 1 <= (#[trigger] rank::ranked(
                starts_of(d, low),
                start_key(),
            )[i]).0 <= low.len(),
        rank::ranked(starts_of(d, low), start_key()).len() == lexicon::words_from(d, low, 0).len(),
{
    let s = starts_of(d, low);
    let r = rank::ranked(s, start_key());
    let ws = lexicon::words_from(d, low, 0);
    rank::lemma_ranked_members(s, start_key());
    assert forall|i: int| 0 <= i < r.len() implies 1 <= (#[trigger] r[i]).0 <= low.len() by {
        assert(s.contains(r[i]));
        let k = choose|k: int| 0 <= k < s.len() && s[k] == r[i];
        assert(ws.contains(ws[k]));
        lexicon::lemma_words_inside(d, low, 0, ws[k]);
    }
}

proof fn lemma_fresh(c: Seq<CandidateV>, ws: Seq<Weighed>, n: int)
    ensures
        fresh(c, ws, n).len() <= ws.len(),
        forall|i: int| 0 <= i < fresh(c, ws, n).len() ==> (#[trigger] fresh(c, ws, n)[i]).consumed == n,
    decreases ws.len(),
{
    if ws.len() > 0 {
        lemma_fresh(c, ws.drop_last(), n);
    }
}

/// Candidates by initials are at most eight, and cover the whole run.
proof fn lemma_whole_initials(d: DictV, u: UserV, c: Seq<CandidateV>, run: Seq<char>)
    ensures
        by_whole_initials(d, u, c, run).len() <= 8,
        by_whole_initials(d, u, c, run).len() > 0 ==> run.len() > 0,
        forall|i: int|
            0 <= i < by_whole_initials(d, u, c, run).len() ==> (#[trigger] by_whole_initials(d, u, c, run)[i]).consumed
                == run.len(),
{
    match by_initials(d, run) {
        Some(l) => {
            lemma_fresh(c, rank::cut(favourites(u, l), 8), run.len() as int);
        },
        None => {},
    }
}

/// The candidates before those by initials: remembered picks and the line, of
/// which at most nine, then dictionary words.
proof fn lemma_full_candidates(d: DictV, u: UserV, run: Seq<char>)
    requires
        d.wf(),
    ensures
        full_candidates(d, u, run).len() <= MAX_CANDIDATES,
        covers_some(full_candidates(d, u, run), run.len() as int),
        lattice::furthest(lattice_of(d, u, run), run.len() as int) == 0 ==> full_candidates(d, u, run).len() <= 9,
{
    let n = run.len() as int;
    let low = text::lowered(run);
    let lat = lattice_of(d, u, run);
    let full = lattice::furthest(lat, n);
    let hs = lattice::trail(lat, full);
    let ms = u.prefix_matches(low);
    lemma_lattice_ok(d, u, run);
    lattice::law_furthest(lat, n);
    lemma_matches(u, low);
    lemma_with_matches(Seq::empty(), ms, full, true, n);
    let a = with_matches(Seq::empty(), ms, full, true);
    let line = CandidateV { text: line_text(low, hs), consumed: full, sentence: true };
    let b = if full > 0 && !some_raw(hs) {
        with_distinct(a, line)
    } else {
        a
    };
    assert(covers_some(b, n)) by {
        assert forall|i: int| 0 <= i < b.len() implies 1 <= (#[trigger] b[i]).consumed <= n by {
            if i < a.len() {
                assert(b[i] == a[i]);
            }
        }
    }
    lemma_with_matches(b, ms, full, false, n);
    let c = with_matches(b, ms, full, false);
    let ss = rank::ranked(starts_of(d, low), start_key());
    lemma_starts(d, low);
    lemma_with_starts(d, u, c, ss, full, n);
    if full == 0 && ss.len() > 0 {
        let ws = lexicon::words_from(d, low, 0);
        assert(ws.contains(ws[0]));
        lexicon::lemma_words_inside(d, low, 0, ws[0]);
        let es = edges_at(d, u, run, 0);
        assert(lat[0] == es);
        let p = seq![(0int, 0int)];
        assert(p.drop_last() =~= Seq::<(int, int)>::empty());
        let e = lat[0][0];
        assert(0 < e.end <= n);
        assert(lattice::is_path(lat, p.drop_last(), 0));
        assert(lattice::is_path(lat, p, e.end));
        lattice::law_best_is_highest(lat, p, e.end);
        assert(lattice::best(lat, e.end) is None);
    }
}

/// There are never more candidates than the cap, which is forty-five.
pub proof fn law_candidates_are_capped(d: DictV, u: UserV, run: Seq<char>)
    requires
        d.wf(),
    ensures
        analysis(d, u, run).candidates.len() <= MAX_CANDIDATES,
        MAX_CANDIDATES == 45,
{
    if is_run(run) {
        lemma_full_candidates(d, u, run);
        lemma_whole_initials(d, u, full_candidates(d, u, run), run);
    }
}

/// Every candidate replaces some letters of the run, and none beyond it.
pub proof fn law_candidates_cover_some_letters(d: DictV, u: UserV, run: Seq<char>)
    requires
        d.wf(),
    ensures
        covers_some(analysis(d, u, run).candidates, run.len() as int),
{
    if is_run(run) {
        lemma_full_candidates(d, u, run);
        let c = full_candidates(d, u, run);
        let extra = by_whole_initials(d, u, c, run);
        lemma_whole_initials(d, u, c, run);
        let r = analysis(d, u, run).candidates;
        assert forall|i: int| 0 <= i < r.len() implies 1 <= (#[trigger] r[i]).consumed <= run.len() by {
            let m = r.len() - extra.len();
            if i < m {
                assert(r[i] == c[i]);
            } else {
                assert(r[i] == extra[i - m]);
            }
        }
    }
}

/// A remembered pick that covers less than the whole line never stands above
/// it: where the convertible prefix is all words, its line is a candidate, and
/// every candidate up to it covers the whole prefix.
pub proof fn law_shorter_picks_stand_below_the_line(d: DictV, u: UserV, run: Seq<char>) -> (at: int)
    requires
        d.wf(),
        is_run(run),
        ({
            let lat = lattice_of(d, u, run);
            let full = lattice::furthest(lat, run.len() as int);
            full > 0 && !some_raw(lattice::trail(lat, full))
        }),
    ensures
        ({
            let lat = lattice_of(d, u, run);
            let full = lattice::furthest(lat, run.len() as int);
            let c = analysis(d, u, run).candidates;
            &&& 0 <= at < c.len()
            &&& c[at].text == line_text(text::lowered(run), lattice::trail(lat, full))
            &&& c[at].consumed == full
            &&& forall|i: int| 0 <= i <= at ==> (#[trigger] c[i]).consumed >= full
        }),
{
    let n = run.len() as int;
    let low = text::lowered(run);
    let lat = lattice_of(d, u, run);
    let full = lattice::furthest(lat, n);
    let hs = lattice::trail(lat, full);
    let ms = u.prefix_matches(low);
    lattice::law_furthest(lat, n);
    lemma_matches(u, low);
    lemma_with_matches(Seq::empty(), ms, full, true, n);
    let a = with_matches(Seq::empty(), ms, full, true);
    let line = CandidateV { text: line_text(low, hs), consumed: full, sentence: true };
    let b = with_distinct(a, line);
    assert(covers_some(b, n)) by {
        assert forall|i: int| 0 <= i < b.len() implies 1 <= (#[trigger] b[i]).consumed <= n by {
            if i < a.len() {
                assert(b[i] == a[i]);
            }
        }
    }
    lemma_with_matches(b, ms, full, false, n);
    let c = with_matches(b, ms, full, false);
    let ss = rank::ranked(starts_of(d, low), start_key());
    lemma_starts(d, low);
    lemma_with_starts(d, u, c, ss, full, n);
    let f = full_candidates(d, u, run);
    lemma_whole_initials(d, u, f, run);
    let r = analysis(d, u, run).candidates;
    let at = if offered(a, line.text, full) {
        choose|i: int| 0 <= i < a.len() && (#[trigger] a[i]).text == line.text && a[i].consumed == full
    } else {
        a.len() as int
    };
    assert forall|i: int| 0 <= i <= at implies (#[trigger] r[i]) == b[i] && b[i].consumed >= full by {
        assert(r[i] == f[i]);
        assert(f[i] == c[i]);
        assert(c[i] == b[i]);
        if i < a.len() {
            assert(b[i] == a[i]);
        }
    }
    assert(r[at] == b[at]);
    at
}

/// The head of an ordered list with one more item.
proof fn lemma_ranked_head<T>(s: Seq<T>, x: T, key: spec_fn(T) -> (int, int))
    ensures
        rank::ranked(s.push(x), key).len() == s.len() + 1,
        s.len() == 0 ==> rank::ranked(s.push(x), key)[0] == x,
        s.len() > 0 ==> rank::ranked(s.push(x), key)[0] == if rank::above(key(x), key(rank::ranked(s, key)[0])) {
            x
        } else {
            rank::ranked(s, key)[0]
        },
{
    let r = rank::ranked(s, key);
    assert(s.push(x).drop_last() =~= s);
    rank::lemma_ranked_contents(s, key);
    rank::lemma_ranked_contents(s.push(x), key);
    rank::lemma_ranked_descending(s, key);
    if s.len() > 0 {
        rank::lemma_inserted_head(r, x, key);
    } else {
        assert(rank::inserted(r, x, key) == r.push(x));
    }
}

/// The word picked most often for the whole run is the first candidate,
/// whatever the dictionary prefers.
pub proof fn law_remembered_pick_comes_first(d: DictV, u: UserV, run: Seq<char>)
    requires
        d.wf(),
        u.wf(),
        is_run(run),
        run.len() > 0,
        u.entries.list(text::lowered(run)).len() > 0,
    ensures
        analysis(d, u, run).candidates.len() > 0,
        analysis(d, u, run).candidates[0] == (CandidateV {
            text: u.entries.list(text::lowered(run))[0].0,
            consumed: run.len() as int,
            sentence: false,
        }),
{
    let n = run.len() as int;
    let low = text::lowered(run);
    let t = u.entries;
    let l = t.list(low);
    let key = crate::userdict::match_key();
    assert(low.take(n) =~= low);
    assert(vstd::utf8::is_ascii_chars(low)) by {
        assert forall|i: int| 0 <= i < low.len() implies '\0' <= #[trigger] low[i] <= '\u{7f}' by {
            assert(is_run_char(run[i]));
        }
    }
    let head = crate::userdict::gathered(t, low, n - 1);
    let two = crate::userdict::matches_of(n, rank::cut(l, 2));
    let all = crate::userdict::gathered(t, low, n);
    assert(all == head + two);
    let m0 = (n, l[0].0, l[0].1);
    assert(two[0] == m0);
    lemma_ranked_head(head, m0, key);
    if head.len() > 0 {
        rank::lemma_ranked_members(head, key);
        let h = rank::ranked(head, key)[0];
        assert(head.contains(h));
        let k = choose|k: int| 0 <= k < head.len() && head[k] == h;
        lemma_gathered(t, low, n - 1, k);
    }
    if two.len() > 1 {
        let m1 = (n, l[1].0, l[1].1);
        assert(two[1] == m1);
        assert(t.lists.contains_key(low));
        assert(!rank::above(crate::picks::count_key()(l[1]), crate::picks::count_key()(l[0])));
        lemma_ranked_head(head.push(m0), m1, key);
        assert(all =~= head.push(m0).push(m1));
    } else {
        assert(all =~= head.push(m0));
    }
    rank::lemma_ranked_contents(all, key);
    let ms = u.prefix_matches(low);
    assert(ms[0] == m0);
    let lat = lattice_of(d, u, run);
    let full = lattice::furthest(lat, n);
    let hs = lattice::trail(lat, full);
    lattice::law_furthest(lat, n);
    lemma_matches(u, low);
    lemma_with_matches(Seq::empty(), ms, full, true, n);
    let a = with_matches(Seq::empty(), ms, full, true);
    let first = CandidateV { text: l[0].0, consumed: n, sentence: false };
    lemma_first_match(ms, full);
    let line = CandidateV { text: line_text(low, hs), consumed: full, sentence: true };
    let b = if full > 0 && !some_raw(hs) {
        with_distinct(a, line)
    } else {
        a
    };
    assert(b[0] == a[0]);
    assert(covers_some(b, n)) by {
        assert forall|i: int| 0 <= i < b.len() implies 1 <= (#[trigger] b[i]).consumed <= n by {
            if i < a.len() {
                assert(b[i] == a[i]);
            }
        }
    }
    lemma_with_matches(b, ms, full, false, n);
    let c = with_matches(b, ms, full, false);
    assert(c[0] == b[0]);
    lemma_starts(d, low);
    lemma_with_starts(d, u, c, rank::ranked(starts_of(d, low), start_key()), full, n);
    let f = full_candidates(d, u, run);
    assert(f[0] == c[0]);
    lemma_whole_initials(d, u, f, run);
}

/// A picked word ranks first the next time: right after it was picked for a
/// run, at least as often as any other word, it is the first candidate.
pub proof fn law_picked_word_ranks_first(d: DictV, u: UserV, run: Seq<char>, word: Seq<char>, prev: Option<Seq<char>>)
    requires
        d.wf(),
        u.wf(),
        is_run(run),
        run.len() > 0,
        crate::picks::is_clean(word),
        u.room_for_pick(run, word, prev),
        forall|v: Seq<char>| #[trigger]
            u.entries.count(text::lowered(run), v) <= u.entries.count(text::lowered(run), word),
    ensures
        analysis(d, u.picked(run, word, prev), run).candidates.len() > 0,
        analysis(d, u.picked(run, word, prev), run).candidates[0].text == word,
        analysis(d, u.picked(run, word, prev), run).candidates[0].consumed == run.len(),
{
    let low = text::lowered(run);
    assert(crate::picks::is_clean(run)) by {
        assert forall|i: int| 0 <= i < run.len() implies #[trigger] run[i] != '\t' && run[i] != '\n' && run[i] != '\r' by {
            assert(is_run_char(run[i]));
        }
    }
    crate::userdict::lemma_lowered_clean(run);
    crate::userdict::lemma_picked_wf(u, run, word, prev);
    crate::picks::lemma_total_at_least(u.entries, low, word);
    crate::picks::law_next_pick_takes_the_lead(u.entries, low, word);
    law_remembered_pick_comes_first(d, u.picked(run, word, prev), run);
}

/// The first remembered pick, if it covers enough, is the first candidate.
proof fn lemma_first_match(ms: Seq<(int, Seq<char>, int)>, full: int)
    requires
        ms.len() > 0,
        ms[0].0 >= full,
    ensures
        with_matches(Seq::empty(), ms, full, true).len() > 0,
        with_matches(Seq::empty(), ms, full, true)[0] == (CandidateV {
            text: ms[0].1,
            consumed: ms[0].0,
            sentence: false,
        }),
    decreases ms.len(),
{
    let t = ms.drop_last();
    if t.len() > 0 {
        assert(t[0] == ms[0]);
        lemma_first_match(t, full);
    } else {
        assert(with_matches(Seq::empty(), t, full, true) == Seq::<CandidateV>::empty());
        assert(ms.last() == ms[0]);
    }
}

/// Whether the words of a path have non-empty spans that follow each other
/// inside `n` letters.
pub open spec fn in_order(p: Seq<Span>, n: int) -> bool {
    &&& forall|i: int| 0 <= i < p.len() ==> 0 <= (#[trigger] p[i]).1 < p[i].2 <= n && p[i].0.len() > 0
    &&& forall|i: int, k: int| 0 <= i < k < p.len() ==> (#[trigger] p[i]).2 <= (#[trigger] p[k]).1
}

/// The words of the best path have spans in the run that follow each other.
pub proof fn law_path_is_in_order(d: DictV, u: UserV, run: Seq<char>)
    ensures
        in_order(analysis(d, u, run).path, run.len() as int),
{
    if is_run(run) {
        let lat = lattice_of(d, u, run);
        let full = lattice::furthest(lat, run.len() as int);
        lattice::law_furthest(lat, run.len() as int);
        lemma_trail_in_order(lat, full);
        let p = word_path(lattice::trail(lat, full));
        assert(in_order(p, full));
        assert(in_order(p, run.len() as int));
    }
}

proof fn lemma_trail_in_order(lat: Seq<Seq<EdgeV>>, i: int)
    requires
        0 <= i,
        lattice::best(lat, i) is Some,
    ensures
        in_order(word_path(lattice::trail(lat, i)), i),
    decreases i,
{
    if i > 0 {
        lattice::lemma_best_step(lat, i);
        let s = lattice::best(lat, i)->0;
        lemma_trail_in_order(lat, s.prev);
        let hs = lattice::trail(lat, i);
        assert(hs.drop_last() =~= lattice::trail(lat, s.prev));
        let h = word_path(lattice::trail(lat, s.prev));
        let p = word_path(hs);
        assert forall|k: int| 0 <= k < p.len() implies 0 <= (#[trigger] p[k]).1 < p[k].2 <= i && p[k].0.len() > 0 by {
            if k < h.len() {
                assert(p[k] == h[k]);
            }
        }
        assert forall|j: int, k: int| 0 <= j < k < p.len() implies (#[trigger] p[j]).2 <= (#[trigger] p[k]).1 by {
            assert(p[j] == h[j]);
            if k < h.len() {
                assert(p[k] == h[k]);
            }
        }
    }
}

/// Words weigh the same for memories with the same picks.
proof fn lemma_same_weights(u: UserV, v: UserV, l: Seq<Scored>)
    requires
        u.entries == v.entries,
    ensures
        boosted(u, l) == boosted(v, l),
        favourites(u, l) == favourites(v, l),
{
    assert(boosted(u, l) =~= boosted(v, l));
}

proof fn lemma_same_initials_edges(d: DictV, u: UserV, v: UserV, run: Seq<char>, j: int, n: int)
    requires
        u.entries == v.entries,
    ensures
        initials_edges(d, u, run, j, n) == initials_edges(d, v, run, j, n),
    decreases n,
{
    if n > 0 {
        lemma_same_initials_edges(d, u, v, run, j, n - 1);
        match by_initials(d, run.subrange(j, j + n)) {
            Some(l) => {
                lemma_same_weights(u, v, l);
            },
            None => {},
        }
    }
}

proof fn lemma_same_lattice(d: DictV, u: UserV, v: UserV, run: Seq<char>)
    requires
        u.entries == v.entries,
    ensures
        lattice_of(d, u, run) == lattice_of(d, v, run),
{
    let low = text::lowered(run);
    assert forall|j: int| 0 <= j < run.len() implies #[trigger] edges_at(d, u, run, j) == edges_at(d, v, run, j) by {
        let ws = lexicon::words_from(d, low, j);
        assert forall|k: int| 0 <= k < ws.len() implies #[trigger] word_edges(d, u, ws)[k] == word_edges(d, v, ws)[k] by {
            lemma_same_weights(u, v, d.words[ws[k].1]);
        }
        assert(word_edges(d, u, ws) =~= word_edges(d, v, ws));
        lemma_same_initials_edges(d, u, v, run, j, initials_reach(run, j));
    }
    assert(lattice_of(d, u, run) =~= lattice_of(d, v, run));
}

proof fn lemma_same_starts(d: DictV, u: UserV, v: UserV, c: Seq<CandidateV>, ss: Seq<Start>, full: int)
    requires
        u.entries == v.entries,
    ensures
        with_starts(d, u, c, ss, full) == with_starts(d, v, c, ss, full),
    decreases ss.len(),
{
    if ss.len() > 0 {
        lemma_same_starts(d, u, v, c, ss.drop_last(), full);
        lemma_same_weights(u, v, d.words[ss.last().1]);
    }
}

/// Only picks bear on an analysis: memories with the same picks give the same
/// one, whatever followed what.
pub proof fn law_only_picks_bear_on_conversion(d: DictV, u: UserV, v: UserV, run: Seq<char>)
    requires
        u.entries == v.entries,
    ensures
        analysis(d, u, run) == analysis(d, v, run),
{
    let low = text::lowered(run);
    let lat = lattice_of(d, u, run);
    let full = lattice::furthest(lat, run.len() as int);
    lemma_same_lattice(d, u, v, run);
    let ms = u.prefix_matches(low);
    assert(ms == v.prefix_matches(low));
    let hs = lattice::trail(lat, full);
    let a = with_matches(Seq::empty(), ms, full, true);
    let b = if full > 0 && !some_raw(hs) {
        with_distinct(a, CandidateV { text: line_text(low, hs), consumed: full, sentence: true })
    } else {
        a
    };
    lemma_same_starts(
        d,
        u,
        v,
        with_matches(b, ms, full, false),
        rank::ranked(starts_of(d, low), start_key()),
        full,
    );
    assert(full_candidates(d, u, run) == full_candidates(d, v, run));
    match by_initials(d, run) {
        Some(l) => {
            lemma_same_weights(u, v, l);
        },
        None => {},
    }
}

/// A follow pick does not skew conversion.
pub proof fn law_follows_do_not_skew_conversion(d: DictV, u: UserV, prev: Seq<char>, word: Seq<char>, run: Seq<char>)
    ensures
        analysis(d, u.followed(prev, word), run) == analysis(d, u, run),
{
    law_only_picks_bear_on_conversion(d, u.followed(prev, word), u, run);
}

// ---------------------------------------------------------------------------
// Where a run starts
// ---------------------------------------------------------------------------

/// Where the trailing letters and apostrophes of a text start.
pub open spec fn tail_start(s: Seq<char>) -> int
    decreases s.len(),
{
    if s.len() > 0 && is_run_char(s.last()) {
        tail_start(s.drop_last())
    } else {
        s.len() as int
    }
}

/// The first place from `i` on that holds no apostrophe.
pub open spec fn past_apostrophes(s: Seq<char>, i: int) -> int
    decreases s.len() - i,
{
    if 0 <= i < s.len() && s[i] == '\'' {
        past_apostrophes(s, i + 1)
    } else {
        i
    }
}

/// The place where the trailing pinyin run of a text starts: a run is made of
/// letters and apostrophes, and begins with a letter.
pub open spec fn run_index(s: Seq<char>) -> int {
    past_apostrophes(s, tail_start(s))
}

/// The run is all letters and apostrophes, begins with a letter, and cannot
/// begin earlier: before it stands nothing, another character, or apostrophes
/// behind one of these.
pub proof fn law_run_is_the_trailing_letters(s: Seq<char>)
    ensures
        0 <= tail_start(s) <= run_index(s) <= s.len(),
        forall|i: int| run_index(s) <= i < s.len() ==> is_run_char(#[trigger] s[i]),
        run_index(s) < s.len() ==> text::is_letter(s[run_index(s)]),
        forall|i: int| tail_start(s) <= i < run_index(s) ==> #[trigger] s[i] == '\'',
        tail_start(s) > 0 ==> !is_run_char(s[tail_start(s) - 1]),
{
    lemma_tail_start(s);
    lemma_past_apostrophes(s, tail_start(s));
    if run_index(s) < s.len() {
        assert(is_run_char(s[run_index(s)]));
    }
}

proof fn lemma_tail_start(s: Seq<char>)
    ensures
        0 <= tail_start(s) <= s.len(),
        forall|i: int| tail_start(s) <= i < s.len() ==> is_run_char(#[trigger] s[i]),
        tail_start(s) > 0 ==> !is_run_char(s[tail_start(s) - 1]),
    decreases s.len(),
{
    if s.len() > 0 && is_run_char(s.last()) {
        let t = s.drop_last();
        lemma_tail_start(t);
        assert forall|i: int| tail_start(s) <= i < s.len() implies is_run_char(#[trigger] s[i]) by {
            if i < t.len() {
                assert(t[i] == s[i]);
            }
        }
        if tail_start(s) > 0 {
            assert(t[tail_start(s) - 1] == s[tail_start(s) - 1]);
        }
    }
}

proof fn lemma_past_apostrophes(s: Seq<char>, i: int)
    requires
        0 <= i <= s.len(),
    ensures
        i <= past_apostrophes(s, i) <= s.len(),
        past_apostrophes(s, i) < s.len() ==> s[past_apostrophes(s, i)] != '\'',
        forall|k: int| i <= k < past_apostrophes(s, i) ==> #[trigger] s[k] == '\'',
    decreases s.len() - i,
{
    if i < s.len() && s[i] == '\'' {
        lemma_past_apostrophes(s, i + 1);
    }
}

/// The bytes of two texts, one behind the other.
proof fn lemma_encode_concat(a: Seq<char>, b: Seq<char>)
    ensures
        vstd::utf8::encode_utf8(a + b) == vstd::utf8::encode_utf8(a) + vstd::utf8::encode_utf8(b),
    decreases a.len(),
{
    if a.len() == 0 {
        assert(a + b =~= b);
        assert(vstd::utf8::encode_utf8(a) + vstd::utf8::encode_utf8(b) =~= vstd::utf8::encode_utf8(b));
    } else {
        lemma_encode_concat(a.drop_first(), b);
        assert((a + b).drop_first() =~= a.drop_first() + b);
        assert((a + b)[0] == a[0]);
        assert(vstd::utf8::encode_utf8(a + b) =~= vstd::utf8::encode_utf8(a) + vstd::utf8::encode_utf8(b));
    }
}

/// The place where the trailing run of a list of characters starts.
pub fn run_place(v: &Vec<char>) -> (r: usize)
    ensures
        r == run_index(v@),
        r <= v@.len(),
{
    let mut i: usize = v.len();
    assert(v@.take(v@.len() as int) =~= v@);
    while i > 0 && (v[i - 1] == '\'' || ('a' <= v[i - 1] && v[i - 1] <= 'z') || ('A' <= v[i - 1] && v[i - 1] <= 'Z'))
        invariant
            0 <= i <= v@.len(),
            tail_start(v@) == tail_start(v@.take(i as int)),
        decreases i,
    {
        proof {
            assert(v@.take(i as int).last() == v@[i - 1]);
            assert(v@.take(i as int).drop_last() =~= v@.take(i - 1));
        }
        i = i - 1;
    }
    if i > 0 {
        assert(v@.take(i as int).last() == v@[i - 1]);
    }
    assert(tail_start(v@) == i);
    while i < v.len() && v[i] == '\''
        invariant
            0 <= i <= v@.len(),
            run_index(v@) == past_apostrophes(v@, i as int),
        decreases v@.len() - i,
    {
        i = i + 1;
    }
    i
}

/// Byte offset where the trailing pinyin run starts, or the length of the text
/// if there is none.
pub fn run_start(text: &str) -> (r: usize)
    ensures
        r == vstd::utf8::encode_utf8(text@.take(run_index(text@))).len(),
{
    let v = text::chars_of(text);
    let i: usize = run_place(&v);
    let bytes: usize = text.as_bytes().len();
    let run: usize = v.len() - i;
    proof {
        law_run_is_the_trailing_letters(text@);
        let a = text@.take(i as int);
        let b = text@.skip(i as int);
        assert(a + b =~= text@);
        lemma_encode_concat(a, b);
        assert forall|k: int| 0 <= k < b.len() implies '\0' <= #[trigger] b[k] <= '\u{7f}' by {
            assert(is_run_char(text@[i + k]));
        }
        assert(vstd::utf8::is_ascii_chars(b));
        vstd::utf8::is_ascii_chars_encode_utf8(b);
    }
    bytes - run
}

// ---------------------------------------------------------------------------
// What a conversion means
// ---------------------------------------------------------------------------

/// Past picks weigh like the logarithm of their number: the weight of a product
/// is the sum of the weights of its factors, up to rounding, and each further
/// pick adds less than the one before, up to the cap.
pub proof fn law_boost_is_logarithmic(a: int, b: int)
    requires
        0 <= a,
        0 <= b,
        (1 + a) * (1 + b) <= 10,
    ensures
        -3 <= boost_of((1 + a) * (1 + b) - 1) - boost_of(a) - boost_of(b) <= 3,
        boost_of(a + 2) - boost_of(a + 1) <= boost_of(a + 1) - boost_of(a),
        boost_of(0) == 0,
        boost_of(a) < boost_of(10),
{
    assert(a <= 9 && b <= 9 && (a == 0 || b == 0 || (a <= 4 && b <= 4))) by (nonlinear_arith)
        requires
            0 <= a,
            0 <= b,
            (1 + a) * (1 + b) <= 10,
    ;
    let p = (1 + a) * (1 + b);
    assert(a == 0 ==> p == 1 + b) by (nonlinear_arith)
        requires
            p == (1 + a) * (1 + b),
    ;
    assert(a == 1 ==> p == 2 * (1 + b)) by (nonlinear_arith)
        requires
            p == (1 + a) * (1 + b),
    ;
    assert(a == 2 ==> p == 3 * (1 + b)) by (nonlinear_arith)
        requires
            p == (1 + a) * (1 + b),
    ;
    assert(a == 3 ==> p == 4 * (1 + b)) by (nonlinear_arith)
        requires
            p == (1 + a) * (1 + b),
    ;
    assert(a == 4 ==> p == 5 * (1 + b)) by (nonlinear_arith)
        requires
            p == (1 + a) * (1 + b),
    ;
    assert(b == 0 ==> p == 1 + a) by (nonlinear_arith)
        requires
            p == (1 + a) * (1 + b),
    ;
}

/// The weight of a word of a list: its score, and what its picks add.
pub open spec fn weight(u: UserV, p: Scored) -> int {
    p.1 + boost_of(u.count(p.0))
}

/// Whether a word is the first of the heaviest of a list, with the given weight.
pub open spec fn heaviest(u: UserV, l: Seq<Scored>, w: Seq<char>, gain: int) -> bool {
    exists|i: int|
        0 <= i < l.len() && (#[trigger] l[i]).0 == w && gain == weight(u, l[i]) && (forall|m: int|
            0 <= m < l.len() ==> weight(u, #[trigger] l[m]) <= gain) && forall|m: int|
            0 <= m < i ==> weight(u, #[trigger] l[m]) < gain
}

proof fn lemma_leader_place(s: Seq<Weighed>) -> (i: int)
    requires
        s.len() > 0,
    ensures
        0 <= i < s.len(),
        s[i] == leader(s),
        forall|m: int| 0 <= m < s.len() ==> (#[trigger] s[m]).1 <= s[i].1,
        forall|m: int| 0 <= m < i ==> (#[trigger] s[m]).1 < s[i].1,
    decreases s.len(),
{
    if s.len() == 1 {
        0
    } else {
        let t = s.drop_last();
        let k = lemma_leader_place(t);
        let r = if s.last().1 > t[k].1 {
            s.len() - 1
        } else {
            k
        };
        assert forall|m: int| 0 <= m < s.len() implies (#[trigger] s[m]).1 <= s[r].1 by {
            if m < t.len() {
                assert(t[m] == s[m]);
            }
        }
        assert forall|m: int| 0 <= m < r implies (#[trigger] s[m]).1 < s[r].1 by {
            assert(t[m] == s[m]);
        }
        r
    }
}

/// The leader of a list is the first of its heaviest words.
proof fn lemma_leader_is_heaviest(u: UserV, l: Seq<Scored>)
    requires
        l.len() > 0,
    ensures
        heaviest(u, l, leader(boosted(u, l)).0, leader(boosted(u, l)).1),
{
    let b = boosted(u, l);
    let i = lemma_leader_place(b);
    assert forall|m: int| 0 <= m < l.len() implies weight(u, #[trigger] l[m]) == b[m].1 && l[m].0 == b[m].0 by {}
    assert(l[i].0 == b[i].0);
}

/// What an edge from `j` means: an apostrophe stepped over; the first of the
/// heaviest words with a reading of the letters, with its weight; a known
/// syllable left as letters, at -30; or the first of the heaviest words with the
/// letters as initials, at 5 for each letter and 2.5 for the word.
pub open spec fn edge_means(d: DictV, u: UserV, run: Seq<char>, j: int, e: EdgeV) -> bool {
    let low = text::lowered(run);
    if run[j] == '\'' {
        e.end == j + 1 && e.gain == 0 && e.word.len() == 0 && !e.raw
    } else {
        ||| !e.raw && exists|k: u128| #[trigger]
            lexicon::words_from(d, low, j).contains((e.end, k)) && heaviest(u, d.words[k], e.word, e.gain)
        ||| e.raw && j < e.end <= run.len() && e.word.len() == 0 && e.gain == -30 * 4503599627370496
            && d.ids.contains_key(low.subrange(j, e.end))
        ||| !e.raw && j < e.end <= run.len() && e.end - j <= 8 && by_initials(d, run.subrange(j, e.end)) is Some
            && heaviest(
            u,
            by_initials(d, run.subrange(j, e.end))->0,
            e.word,
            e.gain + (e.end - j) * 5 * 4503599627370496 + 11258999068426240,
        )
    }
}

proof fn lemma_raw_edge_means(d: DictV, low: Seq<char>, j: int, end: int, k: int)
    requires
        0 <= j,
        0 <= k < lexicon::syllable_ends(d, low, j, end).len(),
    ensures
        j < lexicon::syllable_ends(d, low, j, end)[k] <= end,
        d.ids.contains_key(low.subrange(j, lexicon::syllable_ends(d, low, j, end)[k])),
    decreases end - j,
{
    let head = lexicon::syllable_ends(d, low, j, end - 1);
    if k < head.len() {
        lemma_raw_edge_means(d, low, j, end - 1, k);
    }
}

proof fn lemma_initials_edge_means(d: DictV, u: UserV, run: Seq<char>, j: int, n: int, k: int) -> (m: int)
    requires
        0 <= k < initials_edges(d, u, run, j, n).len(),
    ensures
        1 <= m <= n,
        initials_edge(d, u, run, j, m) == Some(initials_edges(d, u, run, j, n)[k]),
    decreases n,
{
    let head = initials_edges(d, u, run, j, n - 1);
    if k < head.len() {
        lemma_initials_edge_means(d, u, run, j, n - 1, k)
    } else {
        n
    }
}

/// Every edge of a run means something: it emits the first of the heaviest words
/// that its letters spell or abbreviate, or leaves a syllable as it is.
pub proof fn law_edges_emit_the_heaviest_words(d: DictV, u: UserV, run: Seq<char>, j: int, k: int)
    requires
        d.wf(),
        is_run(run),
        0 <= j < run.len(),
        0 <= k < lattice_of(d, u, run)[j].len(),
    ensures
        edge_means(d, u, run, j, lattice_of(d, u, run)[j][k]),
{
    let low = text::lowered(run);
    let es = edges_at(d, u, run, j);
    let e = es[k];
    assert(is_run_char(run[j]));
    assert(low[j] == '\'' <==> run[j] == '\'');
    if low[j] != '\'' {
        let ws = lexicon::words_from(d, low, j);
        let a = word_edges(d, u, ws);
        let ends = lexicon::syllable_ends(d, low, j, lexicon::reach(d, low, j));
        let b = raw_edges(ends);
        let c = initials_edges(d, u, run, j, initials_reach(run, j));
        if k < a.len() {
            assert(e == a[k]);
            assert(ws.contains(ws[k]));
            lexicon::lemma_words_inside(d, low, j, ws[k]);
            lemma_leader_is_heaviest(u, d.words[ws[k].1]);
            assert(lexicon::words_from(d, low, j).contains((e.end, ws[k].1)));
        } else if k < a.len() + b.len() {
            assert(e == b[k - a.len()]);
            lemma_raw_edge_means(d, low, j, lexicon::reach(d, low, j), k - a.len());
        } else {
            assert(e == c[k - a.len() - b.len()]);
            let m = lemma_initials_edge_means(d, u, run, j, initials_reach(run, j), k - a.len() - b.len());
            lemma_leader_is_heaviest(u, by_initials(d, run.subrange(j, j + m))->0);
            assert(ABBREV_PENALTY * m == -(m * 5 * 4503599627370496)) by (nonlinear_arith);
        }
    }
}

/// Whether one of the edges leads to an end with a word and a gain.
pub open spec fn leads(es: Seq<EdgeV>, end: int, word: Seq<char>, gain: int, raw: bool) -> bool {
    es.contains(EdgeV { end, gain, word, raw })
}

/// Every reading has its edge: for each word key that the letters spell from a
/// position there is an edge to its end with its heaviest word, for each known
/// syllable one that leaves its letters, and for each group of initials one with
/// their heaviest word.
pub proof fn law_every_reading_has_an_edge(d: DictV, u: UserV, run: Seq<char>, j: int, word: (int, u128), end: int)
    requires
        d.wf(),
        is_run(run),
        0 <= j < run.len(),
        run[j] != '\'',
    ensures
        ({
            let low = text::lowered(run);
            let es = lattice_of(d, u, run)[j];
            &&& lexicon::words_from(d, low, j).contains(word) ==> exists|w: Seq<char>, g: int| #[trigger]
                leads(es, word.0, w, g, false) && heaviest(u, d.words[word.1], w, g)
            &&& j < end <= lexicon::reach(d, low, j) && !low.subrange(j, end).contains('\'') && d.ids.contains_key(
                low.subrange(j, end),
            ) ==> leads(es, end, Seq::empty(), -30 * 4503599627370496, true)
            &&& j < end <= run.len() && end - j <= 8 && by_initials(d, run.subrange(j, end)) is Some ==> exists|
                w: Seq<char>,
                g: int,
            | #[trigger]
                leads(es, end, w, g, false) && heaviest(
                    u,
                    by_initials(d, run.subrange(j, end))->0,
                    w,
                    g + (end - j) * 5 * 4503599627370496 + 11258999068426240,
                )
        }),
{
    let low = text::lowered(run);
    let es = edges_at(d, u, run, j);
    assert(is_run_char(run[j]));
    assert(low[j] != '\'');
    let ws = lexicon::words_from(d, low, j);
    let a = word_edges(d, u, ws);
    let ends = lexicon::syllable_ends(d, low, j, lexicon::reach(d, low, j));
    let b = raw_edges(ends);
    let c = initials_edges(d, u, run, j, initials_reach(run, j));
    assert(es == a + b + c);
    assert(lattice_of(d, u, run)[j] == es);
    if ws.contains(word) {
        let i = choose|i: int| 0 <= i < ws.len() && ws[i] == word;
        lexicon::lemma_words_inside(d, low, j, word);
        lemma_leader_is_heaviest(u, d.words[word.1]);
        let l = leader(boosted(u, d.words[word.1]));
        assert(es[i] == a[i]);
        assert(leads(es, word.0, l.0, l.1, false));
    }
    if j < end <= lexicon::reach(d, low, j) && !low.subrange(j, end).contains('\'') && d.ids.contains_key(
        low.subrange(j, end),
    ) {
        let i = lemma_syllable_end_place(d, low, j, lexicon::reach(d, low, j), end);
        assert(es[a.len() + i] == b[i]);
        assert(b[i].word =~= Seq::<char>::empty());
        assert(leads(es, end, Seq::empty(), -30 * 4503599627370496, true));
    }
    if j < end <= run.len() && end - j <= 8 && by_initials(d, run.subrange(j, end)) is Some {
        let n = end - j;
        let i = lemma_initials_edge_place(d, u, run, j, initials_reach(run, j), n);
        lemma_leader_is_heaviest(u, by_initials(d, run.subrange(j, end))->0);
        assert(ABBREV_PENALTY * n == -(n * 5 * 4503599627370496)) by (nonlinear_arith);
        assert(es[a.len() + b.len() + i] == c[i]);
        let e = c[i];
        let l = by_initials(d, run.subrange(j, end))->0;
        assert(e.gain + (end - j) * 5 * 4503599627370496 + 11258999068426240 == leader(boosted(u, l)).1);
        assert(heaviest(u, l, e.word, e.gain + (end - j) * 5 * 4503599627370496 + 11258999068426240));
        assert(leads(es, end, e.word, e.gain, false));
    }
}

proof fn lemma_syllable_end_place(d: DictV, low: Seq<char>, j: int, top: int, end: int) -> (i: int)
    requires
        j < end <= top,
        !low.subrange(j, end).contains('\''),
        d.ids.contains_key(low.subrange(j, end)),
    ensures
        0 <= i < lexicon::syllable_ends(d, low, j, top).len(),
        lexicon::syllable_ends(d, low, j, top)[i] == end,
    decreases top - j,
{
    let head = lexicon::syllable_ends(d, low, j, top - 1);
    if end == top {
        head.len() as int
    } else {
        lemma_syllable_end_place(d, low, j, top - 1, end)
    }
}

proof fn lemma_initials_edge_place(d: DictV, u: UserV, run: Seq<char>, j: int, top: int, n: int) -> (i: int)
    requires
        1 <= n <= top,
        initials_edge(d, u, run, j, n) is Some,
    ensures
        0 <= i < initials_edges(d, u, run, j, top).len(),
        Some(initials_edges(d, u, run, j, top)[i]) == initials_edge(d, u, run, j, n),
    decreases top,
{
    let head = initials_edges(d, u, run, j, top - 1);
    if n == top {
        head.len() as int
    } else {
        lemma_initials_edge_place(d, u, run, j, top - 1, n)
    }
}

/// What a step of the line means: it is an edge of its letters.
pub open spec fn step_means(d: DictV, u: UserV, run: Seq<char>, h: HopV) -> bool {
    exists|gain: int| #[trigger]
        edge_means(d, u, run, h.start, EdgeV { end: h.end, gain, word: h.word, raw: h.raw })
}

/// What steps write: their words, or their letters where they have none.
pub open spec fn written(low: Seq<char>, hs: Seq<HopV>) -> Seq<Seq<char>> {
    Seq::new(
        hs.len(),
        |m: int|
            if hs[m].raw {
                low.subrange(hs[m].start, hs[m].end)
            } else {
                hs[m].word
            },
    )
}

proof fn lemma_line_is_written(low: Seq<char>, hs: Seq<HopV>)
    ensures
        line_text(low, hs) == text::concat(written(low, hs)),
    decreases hs.len(),
{
    if hs.len() > 0 {
        lemma_line_is_written(low, hs.drop_last());
        assert(written(low, hs).drop_last() =~= written(low, hs.drop_last()));
    }
}

proof fn lemma_word_path_members(hs: Seq<HopV>, p: Span)
    ensures
        word_path(hs).contains(p) <==> exists|m: int|
            0 <= m < hs.len() && !(#[trigger] hs[m]).raw && hs[m].word.len() > 0 && p == (hs[m].word, hs[m].start, hs[m].end),
    decreases hs.len(),
{
    if hs.len() > 0 {
        let t = hs.drop_last();
        let h = hs.last();
        let head = word_path(t);
        let r = word_path(hs);
        lemma_word_path_members(t, p);
        if r.contains(p) {
            let i = choose|i: int| 0 <= i < r.len() && r[i] == p;
            if i < head.len() {
                assert(head[i] == p);
                let m = choose|m: int|
                    0 <= m < t.len() && !(#[trigger] t[m]).raw && t[m].word.len() > 0 && p == (t[m].word, t[m].start, t[m].end);
                assert(hs[m] == t[m]);
            } else {
                assert(hs[hs.len() - 1] == h);
            }
        }
        if exists|m: int|
            0 <= m < hs.len() && !(#[trigger] hs[m]).raw && hs[m].word.len() > 0 && p == (
                hs[m].word,
                hs[m].start,
                hs[m].end,
            ) {
            let m = choose|m: int|
                0 <= m < hs.len() && !(#[trigger] hs[m]).raw && hs[m].word.len() > 0 && p == (
                    hs[m].word,
                    hs[m].start,
                    hs[m].end,
                );
            if m < t.len() {
                assert(t[m] == hs[m]);
                let i = choose|i: int| 0 <= i < head.len() && head[i] == p;
                assert(r[i] == p);
            } else {
                assert(r[head.len() as int] == p);
            }
        }
    }
}

/// Leading apostrophes go, and nothing else.
pub proof fn law_leading_apostrophes_go(s: Seq<char>) -> (k: int)
    ensures
        0 <= k <= s.len(),
        without_apostrophes(s) == s.skip(k),
        forall|i: int| 0 <= i < k ==> #[trigger] s[i] == '\'',
        k < s.len() ==> s[k] != '\'',
    decreases s.len(),
{
    if s.len() > 0 && s[0] == '\'' {
        let t = s.drop_first();
        let k = law_leading_apostrophes_go(t);
        assert(t.skip(k) =~= s.skip(k + 1));
        assert forall|i: int| 0 <= i < k + 1 implies #[trigger] s[i] == '\'' by {
            if i > 0 {
                assert(s[i] == t[i - 1]);
            }
        }
        if k < t.len() {
            assert(t[k] == s[k + 1]);
        }
        k + 1
    } else {
        assert(s.skip(0) =~= s);
        0
    }
}

/// A run whose letters abbreviate a word can be converted.
proof fn lemma_initials_convert(d: DictV, u: UserV, run: Seq<char>)
    requires
        d.wf(),
        is_run(run),
        by_initials(d, run) is Some,
    ensures
        lattice::furthest(lattice_of(d, u, run), run.len() as int) > 0,
{
    let n = run.len() as int;
    let lat = lattice_of(d, u, run);
    assert(run.subrange(0, n) =~= run);
    assert(1 <= n <= 8);
    assert(is_run_char(run[0]));
    assert(97 <= letters(run)[0] <= 122);
    law_every_reading_has_an_edge(d, u, run, 0, (0, 0), n);
    let (w, g) = choose|w: Seq<char>, g: int| #[trigger]
        leads(lat[0], n, w, g, false) && heaviest(u, by_initials(d, run)->0, w, g + n * 5 * 4503599627370496 + 11258999068426240);
    let e = EdgeV { end: n, gain: g, word: w, raw: false };
    let k = choose|k: int| 0 <= k < lat[0].len() && lat[0][k] == e;
    let p = seq![(0int, k)];
    assert(p.drop_last() =~= Seq::<(int, int)>::empty());
    assert(lattice::is_path(lat, p.drop_last(), 0));
    assert(lattice::is_path(lat, p, n));
    lemma_lattice_ok(d, u, run);
    lattice::law_best_is_highest(lat, p, n);
}

/// The line reads the letters: it is made of steps that follow each other from
/// the first letter on, each a heaviest word for its letters or a syllable left
/// as it is, with the best total; then come the letters behind the last step,
/// which none can reach, without apostrophes before them. The path holds the
/// words among the steps.
pub proof fn law_line_reads_the_letters(d: DictV, u: UserV, run: Seq<char>) -> (hs: Seq<HopV>)
    requires
        d.wf(),
        is_run(run),
    ensures
        ({
            let low = text::lowered(run);
            let lat = lattice_of(d, u, run);
            let a = analysis(d, u, run);
            let full = if hs.len() == 0 {
                0
            } else {
                hs.last().end
            };
            &&& 0 <= full <= run.len()
            &&& lattice::contiguous(hs, full)
            &&& forall|m: int| full < m <= run.len() ==> #[trigger] lattice::best(lat, m) is None
            &&& forall|m: int| 0 <= m < hs.len() ==> #[trigger] step_means(d, u, run, hs[m])
            &&& exists|k: int|
                full <= k <= run.len() && (forall|i: int| full <= i < k ==> #[trigger] run[i] == '\'') && (k < run.len()
                    ==> run[k] != '\'') && a.best_line == #[trigger] (text::concat(written(low, hs)) + low.skip(k))
            &&& forall|p: Span| #[trigger]
                a.path.contains(p) <==> exists|m: int|
                    0 <= m < hs.len() && !(#[trigger] hs[m]).raw && hs[m].word.len() > 0 && p == (
                        hs[m].word,
                        hs[m].start,
                        hs[m].end,
                    )
        }),
{
    let n = run.len() as int;
    let low = text::lowered(run);
    let lat = lattice_of(d, u, run);
    let full = lattice::furthest(lat, n);
    let hs = lattice::trail(lat, full);
    let a = analysis(d, u, run);
    lattice::law_furthest(lat, n);
    lattice::law_trail_covers(lat, full);
    let p = lattice::law_trail_is_a_best_path(lat, full);
    assert forall|m: int| 0 <= m < hs.len() implies #[trigger] step_means(d, u, run, hs[m]) by {
        assert(lattice::is_edge(lat, hs[m], p[m]));
        let (j, k) = p[m];
        law_edges_emit_the_heaviest_words(d, u, run, j, k);
        let e = lat[j][k];
        assert(e == (EdgeV { end: hs[m].end, gain: e.gain, word: hs[m].word, raw: hs[m].raw }));
    }
    lemma_line_is_written(low, hs);
    let c = full_candidates(d, u, run);
    if by_whole_initials(d, u, c, run).len() > 0 {
        lemma_initials_convert(d, u, run);
    }
    let q = law_leading_apostrophes_go(low.skip(full));
    let k = full + q;
    assert(low.skip(full).skip(q) =~= low.skip(k));
    assert forall|i: int| full <= i < k implies #[trigger] run[i] == '\'' by {
        assert(low.skip(full)[i - full] == '\'');
        assert(is_run_char(run[i]));
    }
    if k < n {
        assert(low.skip(full)[q] == low[k]);
        assert(is_run_char(run[k]));
    }
    assert(a.best_line == text::concat(written(low, hs)) + low.skip(k));
    assert forall|p: Span| #[trigger]
        a.path.contains(p) <==> exists|m: int|
            0 <= m < hs.len() && !(#[trigger] hs[m]).raw && hs[m].word.len() > 0 && p == (
                hs[m].word,
                hs[m].start,
                hs[m].end,
            ) by {
        lemma_word_path_members(hs, p);
    }
    hs
}

/// A text that is no run, or too long to be one, comes back as it is, without
/// candidates.
pub proof fn law_other_text_passes_through(d: DictV, u: UserV, run: Seq<char>, i: int)
    requires
        run.len() > 64 || (0 <= i < run.len() && !('a' <= run[i] <= 'z') && !('A' <= run[i] <= 'Z') && run[i] != '\''),
    ensures
        analysis(d, u, run).best_line == run,
        analysis(d, u, run).candidates.len() == 0,
        analysis(d, u, run).path.len() == 0,
{
    if run.len() <= 64 {
        assert(!is_run_char(run[i]));
    }
}

// ---------------------------------------------------------------------------
// What the candidates are
// ---------------------------------------------------------------------------

/// The words of a list by weight: all of them, no lighter one before a heavier.
pub proof fn law_favourites_come_by_weight(u: UserV, l: Seq<Scored>, i: int, j: int)
    requires
        0 <= i < j < l.len(),
    ensures
        favourites(u, l).len() == l.len(),
        favourites(u, l)[i].1 >= favourites(u, l)[j].1,
        exists|m: int| 0 <= m < l.len() && favourites(u, l)[i] == ((#[trigger] l[m]).0, weight(u, l[m])),
        exists|m: int| 0 <= m < l.len() && favourites(u, l)[j] == ((#[trigger] l[m]).0, weight(u, l[m])),
        forall|m: int|
            0 <= m < l.len() ==> favourites(u, l).contains(((#[trigger] l[m]).0, weight(u, l[m]))),
{
    let b = boosted(u, l);
    let f = favourites(u, l);
    rank::lemma_ranked_contents(b, gain_key());
    rank::lemma_ranked_members(b, gain_key());
    rank::law_ranked(b, gain_key(), (0, 0));
    assert(gain_key()(f[i]).0 >= gain_key()(f[j]).0);
    assert(b.contains(f[i]) && b.contains(f[j]));
    let x = choose|x: int| 0 <= x < b.len() && b[x] == f[i];
    let y = choose|y: int| 0 <= y < b.len() && b[y] == f[j];
    assert(f[i] == (l[x].0, weight(u, l[x])));
    assert(f[j] == (l[y].0, weight(u, l[y])));
    assert forall|m: int| 0 <= m < l.len() implies f.contains(((#[trigger] l[m]).0, weight(u, l[m]))) by {
        assert(b[m] == (l[m].0, weight(u, l[m])));
        assert(b.contains(b[m]));
    }
}

/// Why a candidate is offered: the user picked it for its letters before; or it
/// is the whole line; or it is a word of the dictionary that its letters spell;
/// or a word whose initials are the letters of the whole run.
pub open spec fn has_reason(d: DictV, u: UserV, run: Seq<char>, c: CandidateV) -> bool {
    let low = text::lowered(run);
    let lat = lattice_of(d, u, run);
    let full = lattice::furthest(lat, run.len() as int);
    let hs = lattice::trail(lat, full);
    ||| !c.sentence && exists|n: int| #[trigger] u.prefix_matches(low).contains((c.consumed, c.text, n))
    ||| c.sentence && c.consumed == full && full > 0 && !some_raw(hs) && c.text == text::concat(written(low, hs))
    ||| !c.sentence && exists|k: u128, m: int|
        lexicon::words_from(d, low, 0).contains((c.consumed, k)) && 0 <= m < d.words[k].len() && (#[trigger] d.words[k][m]).0
            == c.text
    ||| !c.sentence && c.consumed == run.len() && by_initials(d, run) is Some && exists|m: int|
        0 <= m < by_initials(d, run)->0.len() && (#[trigger] by_initials(d, run)->0[m]).0 == c.text
}

spec fn all_have_reason(d: DictV, u: UserV, run: Seq<char>, c: Seq<CandidateV>) -> bool {
    forall|i: int| 0 <= i < c.len() ==> has_reason(d, u, run, #[trigger] c[i])
}

proof fn lemma_matches_have_reason(
    d: DictV,
    u: UserV,
    run: Seq<char>,
    c: Seq<CandidateV>,
    ms: Seq<(int, Seq<char>, int)>,
    full: int,
    long: bool,
)
    requires
        all_have_reason(d, u, run, c),
        forall|i: int| 0 <= i < ms.len() ==> u.prefix_matches(text::lowered(run)).contains(#[trigger] ms[i]),
    ensures
        all_have_reason(d, u, run, with_matches(c, ms, full, long)),
    decreases ms.len(),
{
    if ms.len() > 0 {
        let t = ms.drop_last();
        assert forall|i: int| 0 <= i < t.len() implies u.prefix_matches(text::lowered(run)).contains(#[trigger] t[i]) by {
            assert(t[i] == ms[i]);
        }
        lemma_matches_have_reason(d, u, run, c, t, full, long);
        let h = with_matches(c, t, full, long);
        let r = with_matches(c, ms, full, long);
        let m = ms.last();
        assert(u.prefix_matches(text::lowered(run)).contains(ms[ms.len() - 1]));
        assert(u.prefix_matches(text::lowered(run)).contains((m.0, m.1, m.2)));
        assert forall|i: int| 0 <= i < r.len() implies has_reason(d, u, run, #[trigger] r[i]) by {
            if i < h.len() {
                assert(r[i] == h[i]);
            }
        }
    }
}

proof fn lemma_words_have_reason(
    d: DictV,
    u: UserV,
    run: Seq<char>,
    c: Seq<CandidateV>,
    ws: Seq<Weighed>,
    end: int,
    k: u128,
)
    requires
        all_have_reason(d, u, run, c),
        lexicon::words_from(d, text::lowered(run), 0).contains((end, k)),
        forall|i: int| 0 <= i < ws.len() ==> boosted(u, d.words[k]).contains(#[trigger] ws[i]),
    ensures
        all_have_reason(d, u, run, with_words(c, ws, end)),
    decreases ws.len(),
{
    if ws.len() > 0 {
        let t = ws.drop_last();
        assert forall|i: int| 0 <= i < t.len() implies boosted(u, d.words[k]).contains(#[trigger] t[i]) by {
            assert(t[i] == ws[i]);
        }
        lemma_words_have_reason(d, u, run, c, t, end, k);
        let h = with_words(c, t, end);
        let r = with_words(c, ws, end);
        let b = boosted(u, d.words[k]);
        assert(b.contains(ws[ws.len() - 1]));
        let m = choose|m: int| 0 <= m < b.len() && b[m] == ws.last();
        assert(d.words[k][m].0 == ws.last().0);
        assert forall|i: int| 0 <= i < r.len() implies has_reason(d, u, run, #[trigger] r[i]) by {
            if i < h.len() {
                assert(r[i] == h[i]);
            }
        }
    }
}

proof fn lemma_cut_members(u: UserV, l: Seq<Scored>, n: int)
    requires
        0 <= n,
    ensures
        forall|i: int|
            0 <= i < rank::cut(favourites(u, l), n).len() ==> boosted(u, l).contains(
                #[trigger] rank::cut(favourites(u, l), n)[i],
            ),
{
    rank::lemma_ranked_members(boosted(u, l), gain_key());
    let f = favourites(u, l);
    let c = rank::cut(f, n);
    assert forall|i: int| 0 <= i < c.len() implies boosted(u, l).contains(#[trigger] c[i]) by {
        assert(c[i] == f[i]);
    }
}

proof fn lemma_starts_have_reason(
    d: DictV,
    u: UserV,
    run: Seq<char>,
    c: Seq<CandidateV>,
    ss: Seq<Start>,
    full: int,
)
    requires
        all_have_reason(d, u, run, c),
        forall|i: int|
            0 <= i < ss.len() ==> lexicon::words_from(d, text::lowered(run), 0).contains(
                ((#[trigger] ss[i]).0, ss[i].1),
            ),
    ensures
        all_have_reason(d, u, run, with_starts(d, u, c, ss, full)),
    decreases ss.len(),
{
    if ss.len() > 0 {
        let t = ss.drop_last();
        let s = ss.last();
        assert forall|i: int| 0 <= i < t.len() implies lexicon::words_from(d, text::lowered(run), 0).contains(
            ((#[trigger] t[i]).0, t[i].1),
        ) by {
            assert(t[i] == ss[i]);
        }
        lemma_starts_have_reason(d, u, run, c, t, full);
        assert(ss[ss.len() - 1] == s);
        lemma_cut_members(u, d.words[s.1], share(s.0, full));
        lemma_words_have_reason(
            d,
            u,
            run,
            with_starts(d, u, c, t, full),
            rank::cut(favourites(u, d.words[s.1]), share(s.0, full)),
            s.0,
            s.1,
        );
    }
}

proof fn lemma_start_members(d: DictV, low: Seq<char>)
    ensures
        forall|i: int|
            0 <= i < rank::ranked(starts_of(d, low), start_key()).len() ==> lexicon::words_from(d, low, 0).contains(
                ((#[trigger] rank::ranked(starts_of(d, low), start_key())[i]).0, rank::ranked(
                    starts_of(d, low),
                    start_key(),
                )[i].1),
            ),
        forall|w: (int, u128)| #[trigger]
            lexicon::words_from(d, low, 0).contains(w) ==> exists|i: int|
                0 <= i < rank::ranked(starts_of(d, low), start_key()).len() && (#[trigger] rank::ranked(
                    starts_of(d, low),
                    start_key(),
                )[i]).0 == w.0 && rank::ranked(starts_of(d, low), start_key())[i].1 == w.1,
{
    let ws = lexicon::words_from(d, low, 0);
    let s = starts_of(d, low);
    let r = rank::ranked(s, start_key());
    rank::lemma_ranked_members(s, start_key());
    assert forall|i: int| 0 <= i < r.len() implies ws.contains(((#[trigger] r[i]).0, r[i].1)) by {
        assert(s.contains(r[i]));
        let k = choose|k: int| 0 <= k < s.len() && s[k] == r[i];
        assert(ws[k] == (r[i].0, r[i].1));
    }
    assert forall|w: (int, u128)| #[trigger] ws.contains(w) implies exists|i: int|
        0 <= i < r.len() && (#[trigger] r[i]).0 == w.0 && r[i].1 == w.1 by {
        let k = choose|k: int| 0 <= k < ws.len() && ws[k] == w;
        assert(s.contains(s[k]));
        assert(r.contains(s[k]));
        let i = choose|i: int| 0 <= i < r.len() && r[i] == s[k];
        assert(r[i].0 == w.0 && r[i].1 == w.1);
    }
}

proof fn lemma_fresh_have_reason(d: DictV, u: UserV, run: Seq<char>, c: Seq<CandidateV>, ws: Seq<Weighed>)
    requires
        by_initials(d, run) is Some,
        forall|i: int| 0 <= i < ws.len() ==> boosted(u, by_initials(d, run)->0).contains(#[trigger] ws[i]),
    ensures
        all_have_reason(d, u, run, fresh(c, ws, run.len() as int)),
    decreases ws.len(),
{
    if ws.len() > 0 {
        let t = ws.drop_last();
        let n = run.len() as int;
        assert forall|i: int| 0 <= i < t.len() implies boosted(u, by_initials(d, run)->0).contains(#[trigger] t[i]) by {
            assert(t[i] == ws[i]);
        }
        lemma_fresh_have_reason(d, u, run, c, t);
        let h = fresh(c, t, n);
        let r = fresh(c, ws, n);
        let l = by_initials(d, run)->0;
        let b = boosted(u, l);
        assert(b.contains(ws[ws.len() - 1]));
        let m = choose|m: int| 0 <= m < b.len() && b[m] == ws.last();
        assert(l[m].0 == ws.last().0);
        assert forall|i: int| 0 <= i < r.len() implies has_reason(d, u, run, #[trigger] r[i]) by {
            if i < h.len() {
                assert(r[i] == h[i]);
            }
        }
    }
}

/// No candidate comes from nowhere.
pub proof fn law_candidates_have_a_reason(d: DictV, u: UserV, run: Seq<char>, i: int)
    requires
        d.wf(),
        is_run(run),
        0 <= i < analysis(d, u, run).candidates.len(),
    ensures
        has_reason(d, u, run, analysis(d, u, run).candidates[i]),
{
    let low = text::lowered(run);
    let lat = lattice_of(d, u, run);
    let full = lattice::furthest(lat, run.len() as int);
    let hs = lattice::trail(lat, full);
    let ms = u.prefix_matches(low);
    let a = with_matches(Seq::empty(), ms, full, true);
    assert forall|i: int| 0 <= i < ms.len() implies ms.contains(#[trigger] ms[i]) by {}
    lemma_matches_have_reason(d, u, run, Seq::empty(), ms, full, true);
    lemma_line_is_written(low, hs);
    let line = CandidateV { text: line_text(low, hs), consumed: full, sentence: true };
    let b = if full > 0 && !some_raw(hs) {
        with_distinct(a, line)
    } else {
        a
    };
    assert(all_have_reason(d, u, run, b)) by {
        assert forall|i: int| 0 <= i < b.len() implies has_reason(d, u, run, #[trigger] b[i]) by {
            if i < a.len() {
                assert(b[i] == a[i]);
            }
        }
    }
    lemma_matches_have_reason(d, u, run, b, ms, full, false);
    lemma_start_members(d, low);
    let ss = rank::ranked(starts_of(d, low), start_key());
    lemma_starts_have_reason(d, u, run, with_matches(b, ms, full, false), ss, full);
    let c = full_candidates(d, u, run);
    let extra = by_whole_initials(d, u, c, run);
    if by_initials(d, run) is Some {
        lemma_cut_members(u, by_initials(d, run)->0, 8);
        lemma_fresh_have_reason(d, u, run, c, rank::cut(favourites(u, by_initials(d, run)->0), 8));
        lemma_initials_convert(d, u, run);
    }
    lemma_full_candidates(d, u, run);
    lemma_whole_initials(d, u, c, run);
    let r = analysis(d, u, run).candidates;
    let m = r.len() - extra.len();
    if i < m {
        assert(r[i] == c[i]);
    } else {
        assert(r[i] == extra[i - m]);
    }
}

proof fn lemma_matches_are_offered(
    c: Seq<CandidateV>,
    ms: Seq<(int, Seq<char>, int)>,
    full: int,
    long: bool,
    i: int,
)
    requires
        0 <= i < ms.len(),
        (ms[i].0 >= full) == long,
    ensures
        offered(with_matches(c, ms, full, long), ms[i].1, ms[i].0),
    decreases ms.len(),
{
    let t = ms.drop_last();
    let h = with_matches(c, t, full, long);
    let r = with_matches(c, ms, full, long);
    if i < t.len() {
        assert(t[i] == ms[i]);
        lemma_matches_are_offered(c, t, full, long, i);
        let x = choose|x: int| 0 <= x < h.len() && (#[trigger] h[x]).text == ms[i].1 && h[x].consumed == ms[i].0;
        assert(r[x] == h[x]);
    } else {
        assert(ms.last() == ms[i]);
        if offered(h, ms[i].1, ms[i].0) {
            assert(r == h);
        } else {
            assert(r[h.len() as int].text == ms[i].1);
        }
    }
}

/// What the user picked before is offered again: each remembered pick is among
/// the candidates, for the letters it was picked for.
pub proof fn law_remembered_picks_are_offered(d: DictV, u: UserV, run: Seq<char>, i: int)
    requires
        d.wf(),
        is_run(run),
        0 <= i < u.prefix_matches(text::lowered(run)).len(),
    ensures
        ({
            let m = u.prefix_matches(text::lowered(run))[i];
            offered(analysis(d, u, run).candidates, m.1, m.0)
        }),
{
    let n = run.len() as int;
    let low = text::lowered(run);
    let lat = lattice_of(d, u, run);
    let full = lattice::furthest(lat, n);
    let hs = lattice::trail(lat, full);
    let ms = u.prefix_matches(low);
    let m = ms[i];
    lattice::law_furthest(lat, n);
    lemma_matches(u, low);
    lemma_with_matches(Seq::empty(), ms, full, true, n);
    let a = with_matches(Seq::empty(), ms, full, true);
    let line = CandidateV { text: line_text(low, hs), consumed: full, sentence: true };
    let b = if full > 0 && !some_raw(hs) {
        with_distinct(a, line)
    } else {
        a
    };
    assert(covers_some(b, n)) by {
        assert forall|i: int| 0 <= i < b.len() implies 1 <= (#[trigger] b[i]).consumed <= n by {
            if i < a.len() {
                assert(b[i] == a[i]);
            }
        }
    }
    lemma_with_matches(b, ms, full, false, n);
    let c = with_matches(b, ms, full, false);
    if m.0 >= full {
        lemma_matches_are_offered(Seq::empty(), ms, full, true, i);
        let x = choose|x: int| 0 <= x < a.len() && (#[trigger] a[x]).text == m.1 && a[x].consumed == m.0;
        assert(b[x] == a[x]);
        assert(c[x] == b[x]);
    } else {
        lemma_matches_are_offered(b, ms, full, false, i);
    }
    let x = choose|x: int| 0 <= x < c.len() && (#[trigger] c[x]).text == m.1 && c[x].consumed == m.0;
    let ss = rank::ranked(starts_of(d, low), start_key());
    lemma_starts(d, low);
    lemma_with_starts(d, u, c, ss, full, n);
    let f = full_candidates(d, u, run);
    assert(f[x] == c[x]);
    lemma_whole_initials(d, u, f, run);
    let r = analysis(d, u, run).candidates;
    assert(x < 37);
    assert(r[x] == f[x]);
}

proof fn lemma_words_are_offered(c: Seq<CandidateV>, ws: Seq<Weighed>, end: int, i: int)
    requires
        0 <= i < ws.len(),
        with_words(c, ws, end).len() < MAX_CANDIDATES,
    ensures
        has_text(with_words(c, ws, end), ws[i].0),
    decreases ws.len(),
{
    let t = ws.drop_last();
    let h = with_words(c, t, end);
    let r = with_words(c, ws, end);
    if i < t.len() {
        assert(t[i] == ws[i]);
        lemma_words_are_offered(c, t, end, i);
        let x = choose|x: int| 0 <= x < h.len() && (#[trigger] h[x]).text == ws[i].0;
        assert(r[x] == h[x]);
    } else {
        assert(ws.last() == ws[i]);
        if has_text(h, ws[i].0) {
            assert(r == h);
        } else {
            assert(r[h.len() as int].text == ws[i].0);
        }
    }
}

proof fn lemma_words_stay(c: Seq<CandidateV>, ws: Seq<Weighed>, end: int)
    ensures
        c.len() <= with_words(c, ws, end).len(),
        forall|i: int| 0 <= i < c.len() ==> #[trigger] with_words(c, ws, end)[i] == c[i],
    decreases ws.len(),
{
    if ws.len() > 0 {
        lemma_words_stay(c, ws.drop_last(), end);
        let h = with_words(c, ws.drop_last(), end);
        let r = with_words(c, ws, end);
        assert forall|i: int| 0 <= i < c.len() implies #[trigger] r[i] == c[i] by {
            assert(h[i] == c[i]);
        }
    }
}

proof fn lemma_starts_are_offered(
    d: DictV,
    u: UserV,
    c: Seq<CandidateV>,
    ss: Seq<Start>,
    full: int,
    i: int,
    m: int,
)
    requires
        0 <= i < ss.len(),
        0 <= m < rank::cut(favourites(u, d.words[ss[i].1]), share(ss[i].0, full)).len(),
        with_starts(d, u, c, ss, full).len() < MAX_CANDIDATES,
    ensures
        has_text(with_starts(d, u, c, ss, full), favourites(u, d.words[ss[i].1])[m].0),
    decreases ss.len(),
{
    let t = ss.drop_last();
    let s = ss.last();
    let h = with_starts(d, u, c, t, full);
    let ws = rank::cut(favourites(u, d.words[s.1]), share(s.0, full));
    let r = with_starts(d, u, c, ss, full);
    lemma_words_stay(h, ws, s.0);
    if i < t.len() {
        assert(t[i] == ss[i]);
        lemma_starts_are_offered(d, u, c, t, full, i, m);
        let x = choose|x: int| 0 <= x < h.len() && (#[trigger] h[x]).text == favourites(u, d.words[ss[i].1])[m].0;
        assert(r[x] == h[x]);
    } else {
        assert(s == ss[i]);
        lemma_words_are_offered(h, ws, s.0, m);
        assert(ws[m] == favourites(u, d.words[s.1])[m]);
    }
}

/// What the first letters spell is offered: while there is room, the eight
/// heaviest words of every reading from the start of the run are among the
/// candidates.
pub proof fn law_spelled_words_are_offered(d: DictV, u: UserV, run: Seq<char>, word: (int, u128), m: int)
    requires
        d.wf(),
        is_run(run),
        lexicon::words_from(d, text::lowered(run), 0).contains(word),
        0 <= m < 8,
        m < d.words[word.1].len(),
        analysis(d, u, run).candidates.len() < 45,
    ensures
        has_text(analysis(d, u, run).candidates, favourites(u, d.words[word.1])[m].0),
{
    let low = text::lowered(run);
    let lat = lattice_of(d, u, run);
    let full = lattice::furthest(lat, run.len() as int);
    let hs = lattice::trail(lat, full);
    let ms = u.prefix_matches(low);
    let a = with_matches(Seq::empty(), ms, full, true);
    let b = if full > 0 && !some_raw(hs) {
        with_distinct(a, CandidateV { text: line_text(low, hs), consumed: full, sentence: true })
    } else {
        a
    };
    let base = with_matches(b, ms, full, false);
    let ss = rank::ranked(starts_of(d, low), start_key());
    let c = full_candidates(d, u, run);
    let extra = by_whole_initials(d, u, c, run);
    lemma_full_candidates(d, u, run);
    lemma_whole_initials(d, u, c, run);
    if by_initials(d, run) is Some {
        lemma_initials_convert(d, u, run);
    }
    lemma_start_members(d, low);
    rank::lemma_ranked_contents(boosted(u, d.words[word.1]), gain_key());
    let i = choose|i: int| 0 <= i < ss.len() && (#[trigger] ss[i]).0 == word.0 && ss[i].1 == word.1;
    assert(c.len() < 45);
    lemma_starts_are_offered(d, u, base, ss, full, i, m);
    let w = favourites(u, d.words[word.1])[m].0;
    let x = choose|x: int| 0 <= x < c.len() && (#[trigger] c[x]).text == w;
    let r = analysis(d, u, run).candidates;
    assert(r[x] == c[x]);
}

proof fn lemma_fresh_is_offered(c: Seq<CandidateV>, ws: Seq<Weighed>, n: int, i: int)
    requires
        0 <= i < ws.len(),
    ensures
        has_text(c, ws[i].0) || has_text(fresh(c, ws, n), ws[i].0),
    decreases ws.len(),
{
    let t = ws.drop_last();
    let h = fresh(c, t, n);
    let r = fresh(c, ws, n);
    if i < t.len() {
        assert(t[i] == ws[i]);
        lemma_fresh_is_offered(c, t, n, i);
        if has_text(h, ws[i].0) {
            let x = choose|x: int| 0 <= x < h.len() && (#[trigger] h[x]).text == ws[i].0;
            assert(r[x] == h[x]);
        }
    } else {
        assert(ws.last() == ws[i]);
        if !has_text(c, ws[i].0) {
            assert(r[h.len() as int].text == ws[i].0);
        }
    }
}

/// What the letters abbreviate is offered: while there is room, the eight
/// heaviest words with the letters of the whole run as initials are among the
/// candidates.
pub proof fn law_abbreviated_words_are_offered(d: DictV, u: UserV, run: Seq<char>, m: int)
    requires
        d.wf(),
        is_run(run),
        by_initials(d, run) is Some,
        0 <= m < 8,
        m < by_initials(d, run)->0.len(),
        analysis(d, u, run).candidates.len() < 45,
    ensures
        has_text(analysis(d, u, run).candidates, favourites(u, by_initials(d, run)->0)[m].0),
{
    let l = by_initials(d, run)->0;
    let c = full_candidates(d, u, run);
    let ws = rank::cut(favourites(u, l), 8);
    let extra = by_whole_initials(d, u, c, run);
    rank::lemma_ranked_contents(boosted(u, l), gain_key());
    lemma_full_candidates(d, u, run);
    lemma_whole_initials(d, u, c, run);
    lemma_initials_convert(d, u, run);
    lemma_fresh_is_offered(c, ws, run.len() as int, m);
    let r = analysis(d, u, run).candidates;
    let w = favourites(u, l)[m].0;
    assert(ws[m].0 == w);
    if has_text(c, w) {
        let x = choose|x: int| 0 <= x < c.len() && (#[trigger] c[x]).text == w;
        assert(r[x] == c[x]);
    } else {
        let x = choose|x: int| 0 <= x < extra.len() && (#[trigger] extra[x]).text == w;
        assert(r[r.len() - extra.len() + x] == extra[x]);
    }
}

/// Whether a candidate is a pick that the user made for its letters before.
pub open spec fn remembered(u: UserV, run: Seq<char>, c: CandidateV) -> bool {
    exists|n: int| #[trigger] u.prefix_matches(text::lowered(run)).contains((c.consumed, c.text, n))
}

spec fn all_early(u: UserV, run: Seq<char>, c: Seq<CandidateV>) -> bool {
    forall|i: int| 0 <= i < c.len() ==> (#[trigger] c[i]).sentence || remembered(u, run, c[i])
}

proof fn lemma_matches_are_early(
    u: UserV,
    run: Seq<char>,
    c: Seq<CandidateV>,
    ms: Seq<(int, Seq<char>, int)>,
    full: int,
    long: bool,
)
    requires
        all_early(u, run, c),
        forall|i: int| 0 <= i < ms.len() ==> u.prefix_matches(text::lowered(run)).contains(#[trigger] ms[i]),
    ensures
        all_early(u, run, with_matches(c, ms, full, long)),
    decreases ms.len(),
{
    if ms.len() > 0 {
        let t = ms.drop_last();
        assert forall|i: int| 0 <= i < t.len() implies u.prefix_matches(text::lowered(run)).contains(#[trigger] t[i]) by {
            assert(t[i] == ms[i]);
        }
        lemma_matches_are_early(u, run, c, t, full, long);
        let h = with_matches(c, t, full, long);
        let r = with_matches(c, ms, full, long);
        let m = ms.last();
        assert(u.prefix_matches(text::lowered(run)).contains(ms[ms.len() - 1]));
        assert(u.prefix_matches(text::lowered(run)).contains((m.0, m.1, m.2)));
        assert forall|i: int| 0 <= i < r.len() implies (#[trigger] r[i]).sentence || remembered(u, run, r[i]) by {
            if i < h.len() {
                assert(r[i] == h[i]);
            }
        }
    }
}

proof fn lemma_words_have_one_end(c: Seq<CandidateV>, ws: Seq<Weighed>, end: int)
    ensures
        c.len() <= with_words(c, ws, end).len(),
        forall|i: int| 0 <= i < c.len() ==> #[trigger] with_words(c, ws, end)[i] == c[i],
        forall|i: int|
            c.len() <= i < with_words(c, ws, end).len() ==> (#[trigger] with_words(c, ws, end)[i]).consumed == end,
    decreases ws.len(),
{
    if ws.len() > 0 {
        lemma_words_have_one_end(c, ws.drop_last(), end);
        let h = with_words(c, ws.drop_last(), end);
        let r = with_words(c, ws, end);
        assert forall|i: int| 0 <= i < r.len() implies (i < c.len() ==> #[trigger] r[i] == c[i]) && (i >= c.len()
            ==> r[i].consumed == end) by {
            if i < h.len() {
                assert(r[i] == h[i]);
            }
        }
    }
}

proof fn lemma_starts_come_by_length(d: DictV, u: UserV, c: Seq<CandidateV>, ss: Seq<Start>, full: int)
    requires
        forall|i: int, j: int| 0 <= i < j < ss.len() ==> (#[trigger] ss[i]).0 >= (#[trigger] ss[j]).0,
    ensures
        ({
            let r = with_starts(d, u, c, ss, full);
            &&& c.len() <= r.len()
            &&& forall|i: int| 0 <= i < c.len() ==> #[trigger] r[i] == c[i]
            &&& forall|i: int| c.len() <= i < r.len() ==> ss.len() > 0 && (#[trigger] r[i]).consumed >= ss.last().0
            &&& forall|i: int, j: int|
                c.len() <= i < j < r.len() ==> (#[trigger] r[i]).consumed >= (#[trigger] r[j]).consumed
        }),
    decreases ss.len(),
{
    if ss.len() > 0 {
        let t = ss.drop_last();
        assert forall|i: int, j: int| 0 <= i < j < t.len() implies (#[trigger] t[i]).0 >= (#[trigger] t[j]).0 by {
            assert(t[i] == ss[i] && t[j] == ss[j]);
        }
        lemma_starts_come_by_length(d, u, c, t, full);
        let s = ss.last();
        let h = with_starts(d, u, c, t, full);
        let ws = rank::cut(favourites(u, d.words[s.1]), share(s.0, full));
        lemma_words_have_one_end(h, ws, s.0);
        let r = with_starts(d, u, c, ss, full);
        if t.len() > 0 {
            assert(t.last() == ss[ss.len() - 2]);
            assert(s == ss[ss.len() - 1]);
        }
        assert forall|i: int| 0 <= i < c.len() implies #[trigger] r[i] == c[i] by {
            assert(r[i] == h[i]);
        }
        assert forall|i: int| c.len() <= i < r.len() implies (#[trigger] r[i]).consumed >= s.0 by {
            if i < h.len() {
                assert(r[i] == h[i]);
            }
        }
        assert forall|i: int, j: int| c.len() <= i < j < r.len() implies (#[trigger] r[i]).consumed >= (#[trigger] r[j]).consumed by {
            if j < h.len() {
                assert(r[i] == h[i] && r[j] == h[j]);
            } else {
                assert(r[j].consumed == s.0);
            }
        }
    }
}

/// Longer words come first: of two candidates that are dictionary words, neither
/// a remembered pick nor the line nor found by initials of the whole run, the
/// one that stands first covers at least as many letters.
pub proof fn law_longer_words_come_first(d: DictV, u: UserV, run: Seq<char>, i: int, j: int)
    requires
        d.wf(),
        is_run(run),
        0 <= i < j < analysis(d, u, run).candidates.len(),
        ({
            let c = analysis(d, u, run).candidates;
            &&& !c[i].sentence && !remembered(u, run, c[i])
            &&& !c[j].sentence && !remembered(u, run, c[j]) && c[j].consumed < run.len()
        }),
    ensures
        analysis(d, u, run).candidates[i].consumed >= analysis(d, u, run).candidates[j].consumed,
{
    let low = text::lowered(run);
    let lat = lattice_of(d, u, run);
    let full = lattice::furthest(lat, run.len() as int);
    let hs = lattice::trail(lat, full);
    let ms = u.prefix_matches(low);
    let a = with_matches(Seq::empty(), ms, full, true);
    assert(all_early(u, run, Seq::empty()));
    assert forall|x: int| 0 <= x < ms.len() implies u.prefix_matches(text::lowered(run)).contains(#[trigger] ms[x]) by {}
    lemma_matches_are_early(u, run, Seq::empty(), ms, full, true);
    let b = if full > 0 && !some_raw(hs) {
        with_distinct(a, CandidateV { text: line_text(low, hs), consumed: full, sentence: true })
    } else {
        a
    };
    assert(all_early(u, run, b)) by {
        assert forall|x: int| 0 <= x < b.len() implies (#[trigger] b[x]).sentence || remembered(u, run, b[x]) by {
            if x < a.len() {
                assert(b[x] == a[x]);
            }
        }
    }
    lemma_matches_are_early(u, run, b, ms, full, false);
    let base = with_matches(b, ms, full, false);
    let ss = rank::ranked(starts_of(d, low), start_key());
    rank::lemma_ranked_descending(starts_of(d, low), start_key());
    assert forall|x: int, y: int| 0 <= x < y < ss.len() implies (#[trigger] ss[x]).0 >= (#[trigger] ss[y]).0 by {
        assert(!rank::above(start_key()(ss[y]), start_key()(ss[x])));
    }
    lemma_starts_come_by_length(d, u, base, ss, full);
    let c = full_candidates(d, u, run);
    let extra = by_whole_initials(d, u, c, run);
    lemma_whole_initials(d, u, c, run);
    lemma_full_candidates(d, u, run);
    let r = analysis(d, u, run).candidates;
    let m = r.len() - extra.len();
    if j >= m {
        assert(r[j] == extra[j - m]);
    } else {
        assert(r[j] == c[j]);
        assert(r[i] == c[i]);
        if i < base.len() {
            assert(c[i] == base[i]);
        }
        if j < base.len() {
            assert(c[j] == base[j]);
        }
    }
}

/// A reading of everything that can be converted offers ten words, not only
/// eight.
pub proof fn law_whole_readings_offer_ten_words(d: DictV, u: UserV, run: Seq<char>, k: u128, m: int)
    requires
        d.wf(),
        is_run(run),
        lexicon::words_from(d, text::lowered(run), 0).contains(
            (lattice::furthest(lattice_of(d, u, run), run.len() as int), k),
        ),
        0 <= m < 10,
        m < d.words[k].len(),
        analysis(d, u, run).candidates.len() < 45,
    ensures
        has_text(analysis(d, u, run).candidates, favourites(u, d.words[k])[m].0),
{
    let low = text::lowered(run);
    let lat = lattice_of(d, u, run);
    let full = lattice::furthest(lat, run.len() as int);
    let hs = lattice::trail(lat, full);
    let ms = u.prefix_matches(low);
    let a = with_matches(Seq::empty(), ms, full, true);
    let b = if full > 0 && !some_raw(hs) {
        with_distinct(a, CandidateV { text: line_text(low, hs), consumed: full, sentence: true })
    } else {
        a
    };
    let base = with_matches(b, ms, full, false);
    let ss = rank::ranked(starts_of(d, low), start_key());
    let c = full_candidates(d, u, run);
    let extra = by_whole_initials(d, u, c, run);
    lemma_full_candidates(d, u, run);
    lemma_whole_initials(d, u, c, run);
    if by_initials(d, run) is Some {
        lemma_initials_convert(d, u, run);
    }
    lemma_start_members(d, low);
    rank::lemma_ranked_contents(boosted(u, d.words[k]), gain_key());
    let i = choose|i: int| 0 <= i < ss.len() && (#[trigger] ss[i]).0 == full && ss[i].1 == k;
    assert(c.len() < 45);
    lemma_starts_are_offered(d, u, base, ss, full, i, m);
    let w = favourites(u, d.words[k])[m].0;
    let x = choose|x: int| 0 <= x < c.len() && (#[trigger] c[x]).text == w;
    let r = analysis(d, u, run).candidates;
    assert(r[x] == c[x]);
}

/// A run holds ASCII letters and apostrophes only, sixty-four of them at most.
pub proof fn law_runs_are_letters_and_apostrophes(run: Seq<char>, c: char)
    ensures
        is_run_char(c) <==> 'a' <= c <= 'z' || 'A' <= c <= 'Z' || c == '\'',
        is_run(run) <==> run.len() <= 64 && forall|i: int|
            0 <= i < run.len() ==> 'a' <= #[trigger] run[i] <= 'z' || 'A' <= run[i] <= 'Z' || run[i] == '\'',
{
    if run.len() <= 64 && forall|i: int|
        0 <= i < run.len() ==> 'a' <= #[trigger] run[i] <= 'z' || 'A' <= run[i] <= 'Z' || run[i] == '\'' {
        assert forall|i: int| 0 <= i < run.len() implies is_run_char(#[trigger] run[i]) by {}
    }
    if is_run(run) {
        assert forall|i: int| 0 <= i < run.len() implies 'a' <= #[trigger] run[i] <= 'z' || 'A' <= run[i] <= 'Z' || run[i]
            == '\'' by {
            assert(is_run_char(run[i]));
        }
    }
}

/// The best line wins: the line starts with what the steps of a path through the
/// lattice write, and no other path as far as that one gains more. No path
/// leads further.
pub proof fn law_the_best_line_wins(d: DictV, u: UserV, run: Seq<char>, p: Seq<(int, int)>, end: int) -> (r: (
    Seq<HopV>,
    Seq<(int, int)>,
))
    requires
        d.wf(),
        is_run(run),
        0 <= end <= run.len(),
        lattice::is_path(lattice_of(d, u, run), p, end),
    ensures
        ({
            let (hs, q) = r;
            let lat = lattice_of(d, u, run);
            let full = if hs.len() == 0 {
                0
            } else {
                hs.last().end
            };
            let line = text::concat(written(text::lowered(run), hs));
            &&& lattice::is_path(lat, q, full)
            &&& q.len() == hs.len()
            &&& forall|m: int| 0 <= m < q.len() ==> #[trigger] lattice::is_edge(lat, hs[m], q[m])
            &&& end <= full
            &&& end == full ==> lattice::path_gain(lat, p) <= lattice::path_gain(lat, q)
            &&& line.len() <= analysis(d, u, run).best_line.len()
            &&& analysis(d, u, run).best_line.take(line.len() as int) == line
        }),
{
    let n = run.len() as int;
    let low = text::lowered(run);
    let lat = lattice_of(d, u, run);
    let full = lattice::furthest(lat, n);
    let hs = lattice::trail(lat, full);
    lemma_lattice_ok(d, u, run);
    lattice::law_furthest(lat, n);
    lattice::law_trail_covers(lat, full);
    let q = lattice::law_trail_is_a_best_path(lat, full);
    lattice::law_best_is_highest(lat, p, end);
    lemma_line_is_written(low, hs);
    let c = full_candidates(d, u, run);
    if by_whole_initials(d, u, c, run).len() > 0 {
        lemma_initials_convert(d, u, run);
    }
    let line = text::concat(written(low, hs));
    assert(analysis(d, u, run).best_line.take(line.len() as int) =~= line);
    (hs, q)
}

/// Words of one list that weigh the same keep their order among the favourites.
pub proof fn law_equal_favourites_keep_their_order(u: UserV, l: Seq<Scored>, gain: int)
    ensures
        rank::of_rank(favourites(u, l), gain_key(), (gain, 0)) == rank::of_rank(boosted(u, l), gain_key(), (gain, 0)),
        boosted(u, l).len() == l.len(),
        forall|i: int| 0 <= i < l.len() ==> #[trigger] boosted(u, l)[i] == (l[i].0, weight(u, l[i])),
{
    rank::law_ranked(boosted(u, l), gain_key(), (gain, 0));
    assert forall|i: int| 0 <= i < l.len() implies #[trigger] boosted(u, l)[i] == (l[i].0, weight(u, l[i])) by {}
}

/// Words by initials are never crowded out: each of the eight heaviest with the
/// letters of the whole run as initials is a candidate, however many there are,
/// unless it is among the candidates of full pinyin already.
pub proof fn law_initials_are_never_crowded_out(d: DictV, u: UserV, run: Seq<char>, m: int)
    requires
        d.wf(),
        is_run(run),
        by_initials(d, run) is Some,
        0 <= m < 8,
        m < by_initials(d, run)->0.len(),
        !has_text(full_candidates(d, u, run), favourites(u, by_initials(d, run)->0)[m].0),
    ensures
        has_text(analysis(d, u, run).candidates, favourites(u, by_initials(d, run)->0)[m].0),
{
    let l = by_initials(d, run)->0;
    let c = full_candidates(d, u, run);
    let ws = rank::cut(favourites(u, l), 8);
    let extra = by_whole_initials(d, u, c, run);
    rank::lemma_ranked_contents(boosted(u, l), gain_key());
    lemma_full_candidates(d, u, run);
    lemma_whole_initials(d, u, c, run);
    lemma_initials_convert(d, u, run);
    lemma_fresh_is_offered(c, ws, run.len() as int, m);
    let r = analysis(d, u, run).candidates;
    let w = favourites(u, l)[m].0;
    assert(ws[m].0 == w);
    let x = choose|x: int| 0 <= x < extra.len() && (#[trigger] extra[x]).text == w;
    assert(r[r.len() - extra.len() + x] == extra[x]);
}

} // verus!
