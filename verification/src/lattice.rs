//! Best paths through a word lattice.
//!
//! A lattice over `n` input positions lists, for each position, the edges that
//! start there. An edge ends at a later position, carries a gain, and emits a
//! word or the raw letters that it spans. The best path to a position is the
//! one with the highest total gain; among equals, the edge that starts first
//! wins, then the one listed first.

use vstd::prelude::*;

verus! {

/// The largest absolute gain of an edge.
pub const MAX_GAIN: i128 = 0x10_0000_0000_0000_0000_0000_0000;

/// The largest number of positions of a lattice.
pub const MAX_POSITIONS: usize = 64;

/// An edge of the lattice.
pub struct Edge {
    /// The position where the edge ends.
    pub end: usize,
    /// What the edge adds to the score of a path.
    pub gain: i128,
    /// The word that the edge emits.
    pub word: String,
    /// Whether the edge emits the letters that it spans instead of a word.
    pub raw: bool,
}

/// The model of an edge.
pub struct EdgeV {
    pub end: int,
    pub gain: int,
    pub word: Seq<char>,
    pub raw: bool,
}

impl View for Edge {
    type V = EdgeV;

    open spec fn view(&self) -> EdgeV {
        EdgeV { end: self.end as int, gain: self.gain as int, word: self.word@, raw: self.raw }
    }
}

/// The last step of the best path to a position.
pub struct State {
    /// The total gain of the path.
    pub score: i128,
    /// Where the last edge starts.
    pub prev: usize,
    /// The word of the last edge.
    pub word: String,
    /// Whether the last edge emits letters.
    pub raw: bool,
}

/// The model of the last step of the best path to a position.
pub struct StateV {
    pub score: int,
    pub prev: int,
    pub word: Seq<char>,
    pub raw: bool,
}

impl View for State {
    type V = StateV;

    open spec fn view(&self) -> StateV {
        StateV { score: self.score as int, prev: self.prev as int, word: self.word@, raw: self.raw }
    }
}

/// One edge of a path, with the span of the input that it covers.
pub struct Hop {
    pub word: String,
    pub start: usize,
    pub end: usize,
    pub raw: bool,
}

/// The model of one edge of a path.
pub struct HopV {
    pub word: Seq<char>,
    pub start: int,
    pub end: int,
    pub raw: bool,
}

impl View for Hop {
    type V = HopV;

    open spec fn view(&self) -> HopV {
        HopV { word: self.word@, start: self.start as int, end: self.end as int, raw: self.raw }
    }
}

/// The models of a list of edges.
pub open spec fn edges(v: Seq<Edge>) -> Seq<EdgeV> {
    Seq::new(v.len(), |i: int| v[i]@)
}

/// The model of a lattice.
pub open spec fn lattice(v: Seq<Vec<Edge>>) -> Seq<Seq<EdgeV>> {
    Seq::new(v.len(), |j: int| edges(v[j]@))
}

/// The models of a path.
pub open spec fn hops(v: Seq<Hop>) -> Seq<HopV> {
    Seq::new(v.len(), |i: int| v[i]@)
}

/// The model of an optional state.
pub open spec fn state_view(s: Option<State>) -> Option<StateV> {
    match s {
        Some(s) => Some(s@),
        None => None,
    }
}

/// Every edge leads forward, inside the lattice, with a bounded gain.
pub open spec fn well_formed(lat: Seq<Seq<EdgeV>>) -> bool {
    forall|j: int, k: int|
        0 <= j < lat.len() && 0 <= k < lat[j].len() ==> j < (#[trigger] lat[j][k]).end <= lat.len()
            && -MAX_GAIN <= lat[j][k].gain <= MAX_GAIN
}

/// The better of what is known of position `i` and an edge from position `j`,
/// which is reached with score `base`: the edge counts only if it is strictly
/// better.
pub open spec fn relax(acc: Option<StateV>, base: int, j: int, e: EdgeV, i: int) -> Option<StateV> {
    if e.end == i && (acc is None || base + e.gain > acc->0.score) {
        Some(StateV { score: base + e.gain, prev: j, word: e.word, raw: e.raw })
    } else {
        acc
    }
}

/// The best of what is known of position `i` and the edges `es` from `j`.
pub open spec fn relax_all(acc: Option<StateV>, base: int, j: int, es: Seq<EdgeV>, i: int) -> Option<StateV>
    decreases es.len(),
{
    if es.len() == 0 {
        acc
    } else {
        relax(relax_all(acc, base, j, es.drop_last(), i), base, j, es.last(), i)
    }
}

/// The best way to reach position `i` by an edge that starts before `m`.
pub open spec fn best_before(lat: Seq<Seq<EdgeV>>, i: int, m: int) -> Option<StateV>
    decreases i, m,
{
    if m <= 0 || m > i {
        None
    } else {
        match best(lat, m - 1) {
            Some(b) => relax_all(best_before(lat, i, m - 1), b.score, m - 1, lat[m - 1], i),
            None => best_before(lat, i, m - 1),
        }
    }
}

/// The best path to position `i`, by its last step; `None` if no path leads
/// there. The empty path reaches position 0.
pub open spec fn best(lat: Seq<Seq<EdgeV>>, i: int) -> Option<StateV>
    decreases i, i + 1,
{
    if i <= 0 {
        Some(StateV { score: 0, prev: 0, word: Seq::empty(), raw: false })
    } else {
        best_before(lat, i, i)
    }
}

/// The furthest position not after `i` that a path reaches.
pub open spec fn furthest(lat: Seq<Seq<EdgeV>>, i: int) -> int
    decreases i,
{
    if i <= 0 {
        0
    } else if best(lat, i) is Some {
        i
    } else {
        furthest(lat, i - 1)
    }
}

/// The edges of the best path to position `i`.
pub open spec fn trail(lat: Seq<Seq<EdgeV>>, i: int) -> Seq<HopV>
    decreases i,
{
    if i <= 0 {
        Seq::empty()
    } else {
        match best(lat, i) {
            Some(s) => if 0 <= s.prev < i {
                trail(lat, s.prev).push(HopV { word: s.word, start: s.prev, end: i, raw: s.raw })
            } else {
                Seq::empty()
            },
            None => Seq::empty(),
        }
    }
}

// ---------------------------------------------------------------------------
// What the best path is
// ---------------------------------------------------------------------------

/// Whether `p` is a path from position 0 to `i`: each step names an edge by the
/// position where it starts and its place in the list there.
pub open spec fn is_path(lat: Seq<Seq<EdgeV>>, p: Seq<(int, int)>, i: int) -> bool
    decreases p.len(),
{
    if p.len() == 0 {
        i == 0
    } else {
        let (j, k) = p.last();
        &&& 0 <= j < lat.len()
        &&& 0 <= k < lat[j].len()
        &&& lat[j][k].end == i
        &&& is_path(lat, p.drop_last(), j)
    }
}

/// The total gain of a path.
pub open spec fn path_gain(lat: Seq<Seq<EdgeV>>, p: Seq<(int, int)>) -> int
    decreases p.len(),
{
    if p.len() == 0 {
        0
    } else {
        path_gain(lat, p.drop_last()) + lat[p.last().0][p.last().1].gain
    }
}

/// What is known never gets worse, and is at least as good as each edge seen.
proof fn lemma_relax_all(acc: Option<StateV>, base: int, j: int, es: Seq<EdgeV>, i: int)
    ensures
        acc is Some ==> relax_all(acc, base, j, es, i) is Some && relax_all(acc, base, j, es, i)->0.score
            >= acc->0.score,
        forall|k: int|
            0 <= k < es.len() && (#[trigger] es[k]).end == i ==> relax_all(acc, base, j, es, i) is Some && relax_all(
                acc,
                base,
                j,
                es,
                i,
            )->0.score >= base + es[k].gain,
        ({
            let r = relax_all(acc, base, j, es, i);
            r == acc || (r is Some && r->0.prev == j && exists|k: int|
                0 <= k < es.len() && #[trigger] es[k] == (EdgeV {
                    end: i,
                    gain: r->0.score - base,
                    word: r->0.word,
                    raw: r->0.raw,
                }))
        }),
    decreases es.len(),
{
    if es.len() > 0 {
        let t = es.drop_last();
        lemma_relax_all(acc, base, j, t, i);
        let q = relax_all(acc, base, j, t, i);
        let r = relax_all(acc, base, j, es, i);
        assert(es[es.len() - 1] == es.last());
        assert forall|k: int| 0 <= k < es.len() && (#[trigger] es[k]).end == i implies r is Some && r->0.score >= base
            + es[k].gain by {
            if k < t.len() {
                assert(t[k] == es[k]);
            }
        }
        if r == q {
            if r != acc {
                let k = choose|k: int|
                    0 <= k < t.len() && #[trigger] t[k] == (EdgeV {
                        end: i,
                        gain: r->0.score - base,
                        word: r->0.word,
                        raw: r->0.raw,
                    });
                assert(es[k] == t[k]);
            }
        } else {
            assert(es[es.len() - 1] == (EdgeV {
                end: i,
                gain: r->0.score - base,
                word: r->0.word,
                raw: r->0.raw,
            }));
        }
    }
}

/// The best way so far is at least as good as every edge from a reached
/// position before `m`.
proof fn lemma_best_before_bound(lat: Seq<Seq<EdgeV>>, i: int, m: int, j: int, k: int)
    requires
        0 <= j < m <= i,
        0 <= k < lat[j].len(),
        lat[j][k].end == i,
        best(lat, j) is Some,
    ensures
        best_before(lat, i, m) is Some,
        best_before(lat, i, m)->0.score >= best(lat, j)->0.score + lat[j][k].gain,
    decreases m,
{
    match best(lat, m - 1) {
        Some(b) => {
            lemma_relax_all(best_before(lat, i, m - 1), b.score, m - 1, lat[m - 1], i);
        },
        None => {},
    }
    if j < m - 1 {
        lemma_best_before_bound(lat, i, m - 1, j, k);
    } else {
        assert(lat[m - 1][k] == lat[j][k]);
    }
}

/// The best way so far ends with an edge of the lattice from a reached position.
proof fn lemma_best_before_edge(lat: Seq<Seq<EdgeV>>, i: int, m: int)
    requires
        m <= i,
        best_before(lat, i, m) is Some,
    ensures
        ({
            let s = best_before(lat, i, m)->0;
            &&& 0 <= s.prev < m
            &&& best(lat, s.prev) is Some
            &&& exists|k: int|
                0 <= k < lat[s.prev].len() && #[trigger] lat[s.prev][k] == (EdgeV {
                    end: i,
                    gain: s.score - best(lat, s.prev)->0.score,
                    word: s.word,
                    raw: s.raw,
                })
        }),
    decreases m,
{
    if m > 0 {
        match best(lat, m - 1) {
            Some(b) => {
                lemma_relax_all(best_before(lat, i, m - 1), b.score, m - 1, lat[m - 1], i);
                if best_before(lat, i, m) == best_before(lat, i, m - 1) {
                    lemma_best_before_edge(lat, i, m - 1);
                }
            },
            None => {
                lemma_best_before_edge(lat, i, m - 1);
            },
        }
    }
}

/// The last step of the best path to a reached position is an edge of the
/// lattice from an earlier reached position, and the scores add up.
pub proof fn lemma_best_step(lat: Seq<Seq<EdgeV>>, i: int)
    requires
        0 < i,
        best(lat, i) is Some,
    ensures
        ({
            let s = best(lat, i)->0;
            &&& 0 <= s.prev < i
            &&& best(lat, s.prev) is Some
            &&& exists|k: int|
                0 <= k < lat[s.prev].len() && #[trigger] lat[s.prev][k] == (EdgeV {
                    end: i,
                    gain: s.score - best(lat, s.prev)->0.score,
                    word: s.word,
                    raw: s.raw,
                })
        }),
{
    lemma_best_before_edge(lat, i, i);
}

/// No path beats the best one: every position that a path reaches has a best
/// path, and its score is at least the gain of that path.
pub proof fn law_best_is_highest(lat: Seq<Seq<EdgeV>>, p: Seq<(int, int)>, i: int)
    requires
        well_formed(lat),
        is_path(lat, p, i),
    ensures
        best(lat, i) is Some,
        best(lat, i)->0.score >= path_gain(lat, p),
    decreases p.len(),
{
    if p.len() > 0 {
        let (j, k) = p.last();
        law_best_is_highest(lat, p.drop_last(), j);
        assert(j < lat[j][k].end);
        lemma_best_before_bound(lat, i, i, j, k);
    }
}

/// The best score is that of a real path.
pub proof fn law_best_is_attained(lat: Seq<Seq<EdgeV>>, i: int) -> (p: Seq<(int, int)>)
    requires
        0 <= i <= lat.len(),
        best(lat, i) is Some,
    ensures
        is_path(lat, p, i),
        path_gain(lat, p) == best(lat, i)->0.score,
    decreases i,
{
    if i == 0 {
        Seq::empty()
    } else {
        lemma_best_step(lat, i);
        let s = best(lat, i)->0;
        let k = choose|k: int|
            0 <= k < lat[s.prev].len() && #[trigger] lat[s.prev][k] == (EdgeV {
                end: i,
                gain: s.score - best(lat, s.prev)->0.score,
                word: s.word,
                raw: s.raw,
            });
        let q = law_best_is_attained(lat, s.prev);
        let p = q.push((s.prev, k));
        assert(p.drop_last() =~= q);
        p
    }
}

/// The spans of the best path follow each other from 0 to its end.
pub open spec fn contiguous(h: Seq<HopV>, end: int) -> bool {
    &&& forall|k: int| 0 <= k < h.len() ==> (#[trigger] h[k]).start < h[k].end
    &&& forall|k: int| 0 < k < h.len() ==> (#[trigger] h[k]).start == h[k - 1].end
    &&& h.len() == 0 ==> end == 0
    &&& h.len() > 0 ==> h[0].start == 0 && h.last().end == end
}

/// The best path to a reached position covers the input up to it, span by span.
pub proof fn law_trail_covers(lat: Seq<Seq<EdgeV>>, i: int)
    requires
        0 <= i,
        best(lat, i) is Some,
    ensures
        contiguous(trail(lat, i), i),
        forall|k: int| 0 <= k < trail(lat, i).len() ==> 0 <= (#[trigger] trail(lat, i)[k]).start && trail(lat, i)[k].end <= i,
        i > 0 ==> trail(lat, i).len() > 0,
    decreases i,
{
    if i > 0 {
        lemma_best_step(lat, i);
        let s = best(lat, i)->0;
        law_trail_covers(lat, s.prev);
        let q = trail(lat, s.prev);
        let h = trail(lat, i);
        assert forall|k: int| 0 <= k < h.len() implies (#[trigger] h[k]).start < h[k].end && 0 <= h[k].start && h[k].end
            <= i by {
            if k < q.len() {
                assert(h[k] == q[k]);
            }
        }
        assert forall|k: int| 0 < k < h.len() implies (#[trigger] h[k]).start == h[k - 1].end by {
            if k < q.len() {
                assert(h[k] == q[k] && h[k - 1] == q[k - 1]);
            } else {
                assert(h[k - 1] == q.last());
            }
        }
        if q.len() > 0 {
            assert(h[0] == q[0]);
        }
    }
}

/// Whether a span is an edge, named by the position where it starts and its place
/// in the list there.
pub open spec fn is_edge(lat: Seq<Seq<EdgeV>>, h: HopV, at: (int, int)) -> bool {
    &&& 0 <= at.0 < lat.len()
    &&& 0 <= at.1 < lat[at.0].len()
    &&& h.start == at.0
    &&& h.end == lat[at.0][at.1].end
    &&& h.word == lat[at.0][at.1].word
    &&& h.raw == lat[at.0][at.1].raw
}

/// The trail is a real path that attains the best score: its spans are edges of
/// the lattice, with the same words, one behind the other.
pub proof fn law_trail_is_a_best_path(lat: Seq<Seq<EdgeV>>, i: int) -> (p: Seq<(int, int)>)
    requires
        0 <= i <= lat.len(),
        best(lat, i) is Some,
    ensures
        is_path(lat, p, i),
        path_gain(lat, p) == best(lat, i)->0.score,
        p.len() == trail(lat, i).len(),
        forall|m: int| 0 <= m < p.len() ==> #[trigger] is_edge(lat, trail(lat, i)[m], p[m]),
    decreases i,
{
    if i == 0 {
        Seq::empty()
    } else {
        lemma_best_step(lat, i);
        let s = best(lat, i)->0;
        let k = choose|k: int|
            0 <= k < lat[s.prev].len() && #[trigger] lat[s.prev][k] == (EdgeV {
                end: i,
                gain: s.score - best(lat, s.prev)->0.score,
                word: s.word,
                raw: s.raw,
            });
        let q = law_trail_is_a_best_path(lat, s.prev);
        let p = q.push((s.prev, k));
        assert(p.drop_last() =~= q);
        let t = trail(lat, s.prev);
        assert forall|m: int| 0 <= m < p.len() implies #[trigger] is_edge(lat, trail(lat, i)[m], p[m]) by {
            if m < q.len() {
                assert(is_edge(lat, t[m], q[m]));
                assert(trail(lat, i)[m] == t[m]);
                assert(p[m] == q[m]);
            }
        }
        p
    }
}

/// `furthest` is a reached position, and none after it up to `i` is reached.
pub proof fn law_furthest(lat: Seq<Seq<EdgeV>>, i: int)
    requires
        0 <= i,
    ensures
        0 <= furthest(lat, i) <= i,
        best(lat, furthest(lat, i)) is Some,
        forall|m: int| furthest(lat, i) < m <= i ==> #[trigger] best(lat, m) is None,
    decreases i,
{
    if i > 0 && best(lat, i) is None {
        law_furthest(lat, i - 1);
    }
}

/// Scores stay within the gains of as many edges as positions.
proof fn lemma_best_bounded(lat: Seq<Seq<EdgeV>>, i: int)
    requires
        well_formed(lat),
        0 <= i <= lat.len(),
        best(lat, i) is Some,
    ensures
        -(MAX_GAIN * i) <= best(lat, i)->0.score <= MAX_GAIN * i,
    decreases i,
{
    if i > 0 {
        lemma_best_step(lat, i);
        let s = best(lat, i)->0;
        lemma_best_bounded(lat, s.prev);
        let k = choose|k: int|
            0 <= k < lat[s.prev].len() && #[trigger] lat[s.prev][k] == (EdgeV {
                end: i,
                gain: s.score - best(lat, s.prev)->0.score,
                word: s.word,
                raw: s.raw,
            });
        assert(-MAX_GAIN <= lat[s.prev][k].gain <= MAX_GAIN);
    }
}

// ---------------------------------------------------------------------------
// Computing it
// ---------------------------------------------------------------------------

/// The models of the table of best states.
pub open spec fn table(dp: Seq<Option<State>>) -> Seq<Option<StateV>> {
    Seq::new(dp.len(), |i: int| state_view(dp[i]))
}

/// Relaxes every edge from position `j`, which is reached with score `base`.
fn relax_from(dp: &mut Vec<Option<State>>, base: i128, j: usize, es: &Vec<Edge>)
    requires
        j < old(dp)@.len() <= MAX_POSITIONS + 1,
        forall|k: int| 0 <= k < es@.len() ==> j < (#[trigger] es@[k]).end < old(dp)@.len(),
        forall|k: int| 0 <= k < es@.len() ==> -MAX_GAIN <= (#[trigger] es@[k]).gain <= MAX_GAIN,
        -(MAX_GAIN * 64) <= base <= MAX_GAIN * 64,
    ensures
        final(dp)@.len() == old(dp)@.len(),
        forall|i: int|
            0 <= i < old(dp)@.len() ==> #[trigger] table(final(dp)@)[i] == relax_all(
                table(old(dp)@)[i],
                base as int,
                j as int,
                edges(es@),
                i,
            ),
{
    let ghost start = table(dp@);
    let ghost ev = edges(es@);
    let mut k: usize = 0;
    assert(ev.take(0) =~= Seq::<EdgeV>::empty());
    while k < es.len()
        invariant
            0 <= k <= es@.len(),
            dp@.len() == start.len(),
            start.len() <= MAX_POSITIONS + 1,
            ev == edges(es@),
            forall|k: int| 0 <= k < es@.len() ==> j < (#[trigger] es@[k]).end < dp@.len(),
            forall|k: int| 0 <= k < es@.len() ==> -MAX_GAIN <= (#[trigger] es@[k]).gain <= MAX_GAIN,
            -(MAX_GAIN * 64) <= base <= MAX_GAIN * 64,
            forall|i: int|
                0 <= i < start.len() ==> #[trigger] table(dp@)[i] == relax_all(
                    start[i],
                    base as int,
                    j as int,
                    ev.take(k as int),
                    i,
                ),
        decreases es@.len() - k,
    {
        let ghost before = table(dp@);
        let e = &es[k];
        let score: i128 = base + e.gain;
        let better = match &dp[e.end] {
            Some(s) => score > s.score,
            None => true,
        };
        let ghost target = e.end as int;
        proof {
            assert(ev.take(k + 1).drop_last() =~= ev.take(k as int));
            assert(ev.take(k + 1).last() == es@[k as int]@);
            assert(table(dp@)[target] == state_view(dp@[target]));
        }
        if better {
            let end = e.end;
            dp.set(end, Some(State { score, prev: j, word: e.word.clone(), raw: e.raw }));
        }
        assert forall|i: int| 0 <= i < start.len() implies #[trigger] table(dp@)[i] == relax_all(
            start[i],
            base as int,
            j as int,
            ev.take(k + 1),
            i,
        ) by {
            assert(before[i] == relax_all(start[i], base as int, j as int, ev.take(k as int), i));
        }
        k = k + 1;
    }
    assert(ev.take(ev.len() as int) =~= ev);
}

/// The best state of every position.
pub fn solve(lat: &Vec<Vec<Edge>>) -> (dp: Vec<Option<State>>)
    requires
        lat@.len() <= MAX_POSITIONS,
        well_formed(lattice(lat@)),
    ensures
        dp@.len() == lat@.len() + 1,
        forall|i: int| 0 <= i < dp@.len() ==> #[trigger] table(dp@)[i] == best(lattice(lat@), i),
{
    let n: usize = lat.len();
    let ghost lv = lattice(lat@);
    let mut dp: Vec<Option<State>> = Vec::new();
    dp.push(Some(State { score: 0, prev: 0, word: String::new(), raw: false }));
    assert(dp@[0]->0.word@ =~= Seq::<char>::empty());
    let mut i: usize = 0;
    while i < n
        invariant
            0 <= i <= n,
            dp@.len() == i + 1,
            state_view(dp@[0]) == best(lv, 0),
            forall|k: int| 1 <= k <= i ==> #[trigger] dp@[k] is None,
        decreases n - i,
    {
        dp.push(None);
        i = i + 1;
    }
    let mut j: usize = 0;
    while j < n
        invariant
            0 <= j <= n,
            n == lat@.len() <= MAX_POSITIONS,
            lv == lattice(lat@),
            well_formed(lv),
            dp@.len() == n + 1,
            forall|k: int| 0 <= k <= j ==> #[trigger] table(dp@)[k] == best(lv, k),
            forall|k: int| j < k <= n ==> #[trigger] table(dp@)[k] == best_before(lv, k, j as int),
        decreases n - j,
    {
        let ghost before = table(dp@);
        let base: Option<i128> = match &dp[j] {
            Some(s) => Some(s.score),
            None => None,
        };
        assert(table(dp@)[j as int] == state_view(dp@[j as int]));
        if base.is_some() {
            let b: i128 = base.unwrap();
            proof {
                lemma_best_bounded(lv, j as int);
                assert(lv[j as int] == edges(lat@[j as int]@));
                assert forall|k: int| 0 <= k < lat@[j as int]@.len() implies j < (#[trigger] lat@[j as int]@[k]).end
                    < dp@.len() && -MAX_GAIN <= lat@[j as int]@[k].gain <= MAX_GAIN by {
                    assert(lv[j as int][k] == lat@[j as int]@[k]@);
                }
            }
            relax_from(&mut dp, b, j, &lat[j]);
            proof {
                assert forall|k: int| 0 <= k <= j implies #[trigger] table(dp@)[k] == before[k] by {
                    lemma_no_edge_back(before[k], b as int, j as int, lv[j as int], k);
                }
            }
        }
        assert forall|k: int| 0 <= k <= j + 1 && k <= n implies #[trigger] table(dp@)[k] == best(lv, k) by {
            if k <= j {
                assert(before[k] == best(lv, k));
            } else {
                assert(before[k] == best_before(lv, k, j as int));
            }
        }
        assert forall|k: int| j + 1 < k <= n implies #[trigger] table(dp@)[k] == best_before(lv, k, j + 1) by {
            assert(before[k] == best_before(lv, k, j as int));
        }
        j = j + 1;
    }
    dp
}

/// Edges that end elsewhere leave a position as it is.
proof fn lemma_no_edge_back(acc: Option<StateV>, base: int, j: int, es: Seq<EdgeV>, i: int)
    requires
        forall|k: int| 0 <= k < es.len() ==> (#[trigger] es[k]).end != i,
    ensures
        relax_all(acc, base, j, es, i) == acc,
    decreases es.len(),
{
    if es.len() > 0 {
        let t = es.drop_last();
        assert forall|k: int| 0 <= k < t.len() implies (#[trigger] t[k]).end != i by {
            assert(t[k] == es[k]);
        }
        lemma_no_edge_back(acc, base, j, t, i);
        assert(es[es.len() - 1] == es.last());
    }
}

/// The furthest reached position.
pub(crate) fn furthest_reached(dp: &Vec<Option<State>>, Ghost(lv): Ghost<Seq<Seq<EdgeV>>>) -> (r: usize)
    requires
        dp@.len() == lv.len() + 1,
        forall|i: int| 0 <= i < dp@.len() ==> #[trigger] table(dp@)[i] == best(lv, i),
    ensures
        r == furthest(lv, lv.len() as int),
        r < dp@.len(),
{
    let mut i: usize = dp.len() - 1;
    while i > 0 && dp[i].is_none()
        invariant
            0 <= i < dp@.len(),
            dp@.len() == lv.len() + 1,
            forall|i: int| 0 <= i < dp@.len() ==> #[trigger] table(dp@)[i] == best(lv, i),
            furthest(lv, lv.len() as int) == furthest(lv, i as int),
        decreases i,
    {
        assert(table(dp@)[i as int] == best(lv, i as int));
        i = i - 1;
    }
    assert(table(dp@)[i as int] == best(lv, i as int));
    i
}

/// The edges of the best path to position `i`.
pub(crate) fn trace(dp: &Vec<Option<State>>, i: usize, Ghost(lv): Ghost<Seq<Seq<EdgeV>>>) -> (r: Vec<Hop>)
    requires
        i < dp@.len(),
        best(lv, i as int) is Some,
        forall|i: int| 0 <= i < dp@.len() ==> #[trigger] table(dp@)[i] == best(lv, i),
    ensures
        hops(r@) == trail(lv, i as int),
    decreases i,
{
    if i == 0 {
        let r: Vec<Hop> = Vec::new();
        assert(hops(r@) =~= Seq::<HopV>::empty());
        return r;
    }
    assert(table(dp@)[i as int] == best(lv, i as int));
    proof {
        lemma_best_step(lv, i as int);
    }
    match &dp[i] {
        Some(s) => {
            let mut r = trace(dp, s.prev, Ghost(lv));
            let ghost head = hops(r@);
            r.push(Hop { word: s.word.clone(), start: s.prev, end: i, raw: s.raw });
            assert(hops(r@) =~= head.push(r@.last()@));
            r
        },
        None => Vec::new(),
    }
}

/// Whether an edge, up to place `k` of a list, gives what is known of a
/// position.
pub open spec fn given_by(es: Seq<EdgeV>, k: int, s: StateV, base: int, i: int) -> bool {
    exists|x: int|
        0 <= x <= k && x < es.len() && #[trigger] es[x] == (EdgeV { end: i, gain: s.score - base, word: s.word, raw: s.raw })
}

proof fn lemma_relax_all_first(acc: Option<StateV>, base: int, j: int, es: Seq<EdgeV>, i: int, k: int)
    ensures
        ({
            let r = relax_all(acc, base, j, es, i);
            &&& acc is Some && r->0.score == acc->0.score ==> r == acc
            &&& 0 <= k < es.len() && es[k].end == i && base + es[k].gain == r->0.score ==> r == acc || (r->0.prev == j
                && given_by(es, k, r->0, base, i))
        }),
    decreases es.len(),
{
    if es.len() > 0 {
        let t = es.drop_last();
        let e = es.last();
        let h = relax_all(acc, base, j, t, i);
        let r = relax_all(acc, base, j, es, i);
        lemma_relax_all(acc, base, j, t, i);
        lemma_relax_all(acc, base, j, es, i);
        lemma_relax_all_first(acc, base, j, t, i, k);
        if 0 <= k < es.len() && es[k].end == i && base + es[k].gain == r->0.score {
            if k < t.len() {
                assert(t[k] == es[k]);
                assert(r == h);
                if r != acc {
                    let x = choose|x: int|
                        0 <= x <= k && x < t.len() && #[trigger] t[x] == (EdgeV {
                            end: i,
                            gain: r->0.score - base,
                            word: r->0.word,
                            raw: r->0.raw,
                        });
                    assert(es[x] == t[x]);
                }
            } else {
                assert(es[k] == e);
                if r == h {
                    if r != acc {
                        let x = choose|x: int|
                            0 <= x < t.len() && #[trigger] t[x] == (EdgeV {
                                end: i,
                                gain: r->0.score - base,
                                word: r->0.word,
                                raw: r->0.raw,
                            });
                        assert(es[x] == t[x]);
                    }
                } else {
                    assert(es[k] == (EdgeV { end: i, gain: r->0.score - base, word: r->0.word, raw: r->0.raw }));
                }
            }
        }
    }
}

proof fn lemma_best_before_first(lat: Seq<Seq<EdgeV>>, i: int, m: int, j: int, k: int)
    requires
        0 <= j < m <= i,
        0 <= k < lat[j].len(),
        lat[j][k].end == i,
        best(lat, j) is Some,
        best_before(lat, i, m) is Some,
        best_before(lat, i, m)->0.score == best(lat, j)->0.score + lat[j][k].gain,
    ensures
        ({
            let s = best_before(lat, i, m)->0;
            s.prev < j || (s.prev == j && given_by(lat[j], k, s, best(lat, j)->0.score, i))
        }),
    decreases m,
{
    let acc = best_before(lat, i, m - 1);
    let r = best_before(lat, i, m);
    if acc is Some {
        lemma_best_before_edge(lat, i, m - 1);
    }
    match best(lat, m - 1) {
        Some(b) => {
            lemma_relax_all(acc, b.score, m - 1, lat[m - 1], i);
            lemma_relax_all_first(acc, b.score, m - 1, lat[m - 1], i, k);
            if j < m - 1 {
                lemma_best_before_bound(lat, i, m - 1, j, k);
                assert(r == acc);
                lemma_best_before_first(lat, i, m - 1, j, k);
            }
        },
        None => {
            lemma_best_before_first(lat, i, m - 1, j, k);
        },
    }
}

/// Of the ways to a position that score the same, the one whose last edge comes
/// first is taken: by the position where it starts, and there by its place in
/// the list.
pub proof fn law_the_first_of_the_best_is_taken(lat: Seq<Seq<EdgeV>>, i: int, j: int, k: int)
    requires
        0 <= j < i,
        0 <= k < lat[j].len(),
        lat[j][k].end == i,
        best(lat, j) is Some,
        best(lat, i) is Some,
        best(lat, i)->0.score == best(lat, j)->0.score + lat[j][k].gain,
    ensures
        ({
            let s = best(lat, i)->0;
            s.prev < j || (s.prev == j && given_by(lat[j], k, s, best(lat, j)->0.score, i))
        }),
{
    lemma_best_before_first(lat, i, i, j, k);
}

} // verus!
