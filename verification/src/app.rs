//! The floating input bar: type Chinese, see English, Enter to commit.
//!
//! The bar is a state machine. What the outside does (keys, clicks, results of
//! the translator, the clock) comes in as calls; what it has to do (send a job,
//! hide the window, paste, save) goes out as return values.

use vstd::prelude::*;

use crate::config::{Settings, SettingsV};
use crate::engine::{Job, JobV, TransResult, TransResultV};
use crate::lexicon::DictV;
use crate::pinyin;
use crate::pinyin::{Analysis, AnalysisV, Candidate, CandidateV, PinyinDict, Span};
use crate::style;
use crate::text;
use crate::userdict::{UserDict, UserV};

verus! {

/// How long after an edit the text is sent, in nanoseconds. With translations
/// at 30-100 ms a short pause keeps the preview snappy without flooding the
/// worker.
pub const DEBOUNCE_NS: u64 = 120000000;

/// Candidates shown per page.
pub const PAGE_SIZE: usize = 5;

// ---------------------------------------------------------------------------
// Labels
// ---------------------------------------------------------------------------

/// A text, clipped so that a row cannot grow too long.
pub open spec fn clipped(s: Seq<char>, max: int) -> Seq<char> {
    if s.len() > max {
        s.take(max).push('…')
    } else {
        s
    }
}

/// A text, clipped to `max` characters.
fn clip(s: &str, max: usize) -> (r: String)
    ensures
        r@ == clipped(s@, max as int),
{
    let v = text::chars_of(s);
    if v.len() > max {
        let mut r = text::string_of(&v, 0, max);
        assert(r@ =~= s@.take(max as int));
        r.push('…');
        r
    } else {
        text::copy_of(s)
    }
}

/// How many pages `n` candidates fill.
pub open spec fn page_count(n: int) -> int {
    (n + PAGE_SIZE - 1) / PAGE_SIZE as int
}

/// How many candidates stand on page `pg`.
pub open spec fn page_len(n: int, pg: int) -> int {
    if n - pg * PAGE_SIZE < PAGE_SIZE {
        n - pg * PAGE_SIZE
    } else {
        PAGE_SIZE as int
    }
}

/// The label of candidate `i` on page `pg`: its digit and its text. The first
/// one of all has more room.
pub open spec fn label(t: Seq<char>, pg: int, i: int) -> Seq<char> {
    text::decimal((i + 1) as nat).push(' ') + clipped(
        t,
        if pg == 0 && i == 0 {
            18
        } else {
            8
        },
    )
}

/// The labels of page `pg`.
pub open spec fn page_labels(c: Seq<CandidateV>, pg: int) -> Seq<Seq<char>> {
    Seq::new(page_len(c.len() as int, pg) as nat, |i: int| label(c[pg * PAGE_SIZE + i].text, pg, i))
}

/// The labels of all pages.
pub open spec fn pages_of(c: Seq<CandidateV>) -> Seq<Seq<Seq<char>>> {
    Seq::new(page_count(c.len() as int) as nat, |pg: int| page_labels(c, pg))
}

/// The models of pages.
pub open spec fn pages_view(v: Seq<Vec<String>>) -> Seq<Seq<Seq<char>>> {
    Seq::new(v.len(), |i: int| text::views(v[i]@))
}

/// The labels of candidates, page by page.
fn render_pages(c: &Vec<Candidate>) -> (r: Vec<Vec<String>>)
    ensures
        pages_view(r@) == pages_of(pinyin::candidates_view(c@)),
{
    let ghost cv = pinyin::candidates_view(c@);
    let n: usize = c.len();
    let mut out: Vec<Vec<String>> = Vec::new();
    let mut at: usize = 0;
    while at < n
        invariant
            n == cv.len(),
            cv == pinyin::candidates_view(c@),
            0 <= at <= n,
            at < n ==> at == out@.len() * PAGE_SIZE,
            at == n ==> out@.len() == page_count(n as int),
            out@.len() <= page_count(n as int),
            pages_view(out@) == pages_of(cv).take(out@.len() as int),
        decreases n - at,
    {
        let pg: usize = out.len();
        let len: usize = if n - at < PAGE_SIZE { n - at } else { PAGE_SIZE };
        let mut labels: Vec<String> = Vec::new();
        let mut i: usize = 0;
        let ghost all = page_labels(cv, pg as int);
        assert(text::views(labels@) =~= all.take(0));
        while i < len
            invariant
                0 <= i <= len <= PAGE_SIZE,
                at + len <= n,
                n == cv.len(),
                cv == pinyin::candidates_view(c@),
                at == pg * PAGE_SIZE,
                len == page_len(n as int, pg as int),
                all == page_labels(cv, pg as int),
                text::views(labels@) == all.take(i as int),
            decreases len - i,
        {
            let ghost before = text::views(labels@);
            let max: usize = if pg == 0 && i == 0 { 18 } else { 8 };
            let mut t = String::new();
            text::push_number(&mut t, (i + 1) as u64);
            t.push(' ');
            let body = clip(c[at + i].text.as_str(), max);
            t.append(body.as_str());
            proof {
                assert(cv[at + i] == c@[at + i]@);
                assert(t@ =~= label(cv[pg * PAGE_SIZE + i].text, pg as int, i as int));
                assert(t@ == all[i as int]);
            }
            labels.push(t);
            assert(text::views(labels@) =~= before.push(all[i as int]));
            assert(all.take(i + 1) =~= all.take(i as int).push(all[i as int]));
            i = i + 1;
        }
        let ghost before = pages_view(out@);
        assert(all.take(len as int) =~= all);
        out.push(labels);
        proof {
            assert(pages_view(out@) =~= before.push(all));
            assert(pages_of(cv).take(pg + 1) =~= pages_of(cv).take(pg as int).push(pages_of(cv)[pg as int]));
        }
        at = at + len;
    }
    assert(pages_of(cv).take(out@.len() as int) =~= pages_of(cv));
    out
}

// ---------------------------------------------------------------------------
// The model of the bar
// ---------------------------------------------------------------------------

/// The analysis of the run that was looked at last.
#[verifier::ext_equal]
pub struct UiV {
    pub run: Seq<char>,
    pub analysis: AnalysisV,
}

/// A seed with its suggestions.
#[verifier::ext_equal]
pub struct SuggestedV {
    pub seed: Seq<char>,
    pub words: Seq<Seq<char>>,
}

/// The model of the bar.
#[verifier::ext_equal]
pub struct AppV {
    pub dict: DictV,
    pub user: UserV,
    /// The analysis that is shown.
    pub cache: Option<UiV>,
    /// The page of candidates that is shown.
    pub page: int,
    /// The last committed word, the seed of suggestions (联想).
    pub last_word: Option<Seq<char>>,
    /// A seed with its suggestions.
    pub suggested: Option<SuggestedV>,
    pub settings: SettingsV,
    /// Whether there is a place where the memory is saved.
    pub keeps_memory: bool,
    pub hint: Seq<char>,
    pub input: Seq<char>,
    /// The translation, or what tells of an error.
    pub output: Seq<char>,
    /// Whether the output tells of an error.
    pub failed: bool,
    /// A message of the bar itself, shown in place of the output.
    pub notice: Option<Seq<char>>,
    /// The revision of the newest job.
    pub rev: int,
    /// The revision of the translation that is shown.
    pub shown_rev: int,
    /// The text of the newest job.
    pub last_sent: Seq<char>,
    pub last_edit: int,
    /// Whether the text was edited since the newest job.
    pub dirty: bool,
    pub visible: bool,
    /// Whether Enter was pressed while a translation was on its way.
    pub commit_pending: bool,
    /// Whether the input takes the focus at the next frame.
    pub focus_next: bool,
}

/// Whether a text holds no ASCII letters and digits.
pub open spec fn plain_word(t: Seq<char>) -> bool {
    forall|i: int| 0 <= i < t.len() ==> !(text::is_letter(#[trigger] t[i]) || text::is_digit(t[i]))
}

/// Whether the analysis of a run speaks of its letters alone, and does not have
/// too many candidates.
pub open spec fn fits_run(a: AnalysisV, run: Seq<char>) -> bool {
    &&& a.candidates.len() <= pinyin::MAX_CANDIDATES
    &&& pinyin::covers_some(a.candidates, run.len() as int)
    &&& pinyin::in_order(a.path, run.len() as int)
}

/// A memory with one more pick. A count that cannot grow stays.
pub open spec fn remembered(u: UserV, pinyin: Seq<char>, word: Seq<char>, prev: Option<Seq<char>>) -> UserV {
    if u.room_for_pick(pinyin, word, prev) {
        u.picked(pinyin, word, prev)
    } else {
        u
    }
}

impl AppV {
    /// The bar before anything was typed.
    pub open spec fn initial(
        dict: DictV,
        user: UserV,
        settings: SettingsV,
        keeps_memory: bool,
        hint: Seq<char>,
    ) -> AppV {
        AppV {
            dict,
            user,
            cache: None,
            page: 0,
            last_word: None,
            suggested: None,
            settings,
            keeps_memory,
            hint,
            input: Seq::empty(),
            output: Seq::empty(),
            failed: false,
            notice: None,
            rev: 0,
            shown_rev: 0,
            last_sent: Seq::empty(),
            last_edit: 0,
            dirty: false,
            visible: false,
            commit_pending: false,
            focus_next: false,
        }
    }

    /// The dictionary and the memory are in shape, and the analysis speaks of
    /// the letters of its run.
    pub open spec fn wf(self) -> bool {
        &&& self.dict.wf()
        &&& self.user.wf()
        &&& 0 <= self.page
        &&& self.cache is Some ==> fits_run(self.cache->0.analysis, self.cache->0.run)
    }

    /// Where the trailing pinyin run of the input starts; its end, if the
    /// built-in pinyin is switched off. That gate alone disables candidates,
    /// selection keys and conversion.
    pub open spec fn run_at(self) -> int {
        if self.settings.pinyin {
            pinyin::run_index(self.input)
        } else {
            self.input.len() as int
        }
    }

    /// The trailing pinyin run of the input.
    pub open spec fn run(self) -> Seq<char> {
        self.input.skip(self.run_at())
    }

    /// What stands before the run.
    pub open spec fn head(self) -> Seq<char> {
        self.input.take(self.run_at())
    }

    /// The bar with the analysis of a run at hand. One of another run is thrown
    /// away, and the first page is shown.
    pub open spec fn with_analysis(self, run: Seq<char>) -> AppV {
        if self.cache is Some && self.cache->0.run == run {
            self
        } else {
            AppV {
                cache: Some(UiV { run, analysis: pinyin::analysis(self.dict, self.user, run) }),
                page: 0,
                ..self
            }
        }
    }

    /// The bar with the analysis of its run at hand, if there is a run.
    pub open spec fn analyzed(self) -> AppV {
        if self.run().len() == 0 {
            self
        } else {
            self.with_analysis(self.run())
        }
    }

    /// The analysis of the run.
    pub open spec fn analysis(self) -> AnalysisV {
        self.with_analysis(self.run()).cache->0.analysis
    }

    /// The text to translate: a trailing run is replaced by its best
    /// conversion.
    pub open spec fn effective(self) -> Seq<char> {
        if self.run().len() == 0 {
            self.input
        } else {
            self.head() + self.analysis().best_line
        }
    }

    /// The job to send: none, if its text was sent already.
    pub open spec fn job(self) -> Option<JobV> {
        if self.effective() == self.last_sent {
            None
        } else {
            Some(JobV { rev: self.rev + 1, text: self.effective() })
        }
    }

    /// The bar after its text was sent.
    pub open spec fn sent(self) -> AppV {
        match self.job() {
            Some(j) => AppV { dirty: false, rev: j.rev, last_sent: j.text, ..self.analyzed() },
            None => AppV { dirty: false, ..self.analyzed() },
        }
    }

    /// The bar after a word was learned for letters; it is the seed of what
    /// follows.
    pub open spec fn learned(self, letters: Seq<char>, word: Seq<char>) -> AppV {
        AppV {
            user: remembered(self.user, text::lowered(letters), word, self.last_word),
            last_word: Some(word),
            ..self
        }
    }

    /// The bar after the words of a path were learned, one after the other.
    pub open spec fn learned_path(self, run: Seq<char>, path: Seq<Span>) -> AppV
        decreases path.len(),
    {
        if path.len() == 0 {
            self
        } else {
            let s = self.learned_path(run, path.drop_last());
            let (word, from, to) = path.last();
            if plain_word(word) {
                s.learned(run.subrange(from, to), word)
            } else {
                s
            }
        }
    }

    /// The candidate with a number.
    pub open spec fn candidate(self, pick: int) -> Option<CandidateV> {
        if self.run().len() > 0 && 0 <= pick < self.analysis().candidates.len() {
            Some(self.analysis().candidates[pick])
        } else {
            None
        }
    }

    /// The bar after a candidate was picked: the pick is learned unless it
    /// still holds letters, a whole line by the words of its path; its text
    /// replaces the letters that it covers.
    pub open spec fn selected(self, pick: int, now: int) -> AppV {
        match self.candidate(pick) {
            None => self.analyzed(),
            Some(c) => {
                let s = self.analyzed();
                let run = self.run();
                let t = if !plain_word(c.text) {
                    s
                } else if c.sentence {
                    s.learned_path(run, self.analysis().path)
                } else {
                    s.learned(run.take(c.consumed), c.text)
                };
                AppV {
                    input: self.head() + c.text + pinyin::without_apostrophes(run.skip(c.consumed)),
                    cache: None,
                    page: 0,
                    dirty: true,
                    last_edit: now,
                    ..t
                }
            },
        }
    }

    /// The bar after a suggestion was picked.
    pub open spec fn followed(self, word: Seq<char>, now: int) -> AppV {
        match self.last_word {
            None => self,
            Some(prev) => AppV {
                user: if self.user.room_for_follow(prev, word) {
                    self.user.followed(prev, word)
                } else {
                    self.user
                },
                input: self.input + word,
                last_word: Some(word),
                dirty: true,
                last_edit: now,
                ..self
            },
        }
    }

    /// The bar after its trailing run was converted in place and the words of
    /// the conversion were learned.
    pub open spec fn finalized(self) -> AppV {
        if self.run().len() == 0 {
            self
        } else {
            AppV {
                input: self.head() + self.analysis().best_line,
                cache: None,
                ..self.analyzed().learned_path(self.run(), self.analysis().path)
            }
        }
    }

    /// The text that keeps the memory, if it changed.
    pub open spec fn memory(self) -> Option<Seq<char>> {
        if self.keeps_memory && self.user.dirty {
            Some(self.user.pruned().saved())
        } else {
            None
        }
    }

    /// The bar after its memory was made ready to save.
    pub open spec fn flushed(self) -> AppV {
        AppV {
            user: if self.keeps_memory && self.user.dirty {
                self.user.pruned()
            } else {
                self.user
            },
            ..self
        }
    }

    /// The bar after it was shown.
    pub open spec fn shown(self) -> AppV {
        AppV { visible: true, focus_next: true, ..self }
    }

    /// The bar after it was hidden: empty, and with a revision that no
    /// translation on its way has.
    pub open spec fn hidden(self) -> AppV {
        AppV {
            visible: false,
            last_word: None,
            page: 0,
            input: Seq::empty(),
            output: Seq::empty(),
            failed: false,
            notice: None,
            dirty: false,
            commit_pending: false,
            last_sent: Seq::empty(),
            rev: self.rev + 1,
            shown_rev: self.rev + 1,
            ..self.flushed()
        }
    }

    /// The text to paste at a commit: the output, unless it is blank or tells of
    /// an error.
    pub open spec fn paste(self) -> Option<Seq<char>> {
        if self.failed || text::trimmed(self.output).len() == 0 {
            None
        } else {
            Some(text::trimmed(self.output))
        }
    }

    /// What is shown: the message of the bar, if there is one, else the output.
    pub open spec fn shown_text(self) -> Seq<char> {
        match self.notice {
            Some(n) => n,
            None => self.output,
        }
    }

    /// A translation as it is shown: polished, if that is switched on.
    pub open spec fn presented(self, t: Seq<char>) -> Seq<char> {
        if self.settings.style {
            style::polished(t)
        } else {
            t
        }
    }

    /// Whether a result is shown: an error always, a translation if it is not
    /// older than what is shown.
    pub open spec fn takes(self, r: TransResultV) -> bool {
        r.error is Some || r.rev >= self.shown_rev
    }

    /// The bar after a result came. An error is shown and never committed.
    pub open spec fn accepted(self, r: TransResultV) -> AppV {
        match r.error {
            Some(e) => AppV {
                output: "⚠ 翻译引擎错误: "@ + e,
                failed: true,
                notice: None,
                commit_pending: false,
                ..self
            },
            None => if r.rev >= self.shown_rev {
                AppV {
                    shown_rev: r.rev,
                    output: self.presented(r.text),
                    failed: false,
                    notice: None,
                    ..self
                }
            } else {
                self
            },
        }
    }

    /// Whether a commit that was asked for can be made: what is shown is the
    /// translation of the newest text.
    pub open spec fn ready(self) -> bool {
        self.commit_pending && !self.dirty && self.shown_rev == self.rev
    }

    /// How long the text has to rest until it is sent.
    pub open spec fn rest(self, now: int) -> int {
        let elapsed = if now > self.last_edit {
            now - self.last_edit
        } else {
            0
        };
        if elapsed >= DEBOUNCE_NS {
            0
        } else {
            DEBOUNCE_NS - elapsed
        }
    }

    /// Whether a newer translation is on its way.
    pub open spec fn pending(self) -> bool {
        self.dirty || self.shown_rev < self.rev
    }
}

// ---------------------------------------------------------------------------
// The bar itself
// ---------------------------------------------------------------------------

/// The analysis of a run with its labels, so that repaints need not make them
/// again.
struct PinyinUi {
    run: String,
    analysis: Analysis,
    pages: Vec<Vec<String>>,
}

/// The state of the input bar.
pub struct FastransApp {
    pinyin: PinyinDict,
    user: UserDict,
    cache: Option<PinyinUi>,
    page: usize,
    last_word: Option<String>,
    suggested: Option<(String, Vec<String>)>,
    settings: Settings,
    keeps_memory: bool,
    hint: String,
    input: String,
    output: String,
    failed: bool,
    notice: Option<String>,
    rev: u64,
    shown_rev: u64,
    last_sent: String,
    last_edit: u64,
    dirty: bool,
    visible: bool,
    commit_pending: bool,
    focus_next: bool,
}

spec fn ui_view(c: Option<PinyinUi>) -> Option<UiV> {
    match c {
        Some(u) => Some(UiV { run: u.run@, analysis: u.analysis@ }),
        None => None,
    }
}

/// The model of an optional text.
pub open spec fn text_view(t: Option<String>) -> Option<Seq<char>> {
    match t {
        Some(s) => Some(s@),
        None => None,
    }
}

spec fn suggested_view(s: Option<(String, Vec<String>)>) -> Option<SuggestedV> {
    match s {
        Some((seed, words)) => Some(SuggestedV { seed: seed@, words: text::views(words@) }),
        None => None,
    }
}

impl View for FastransApp {
    type V = AppV;

    closed spec fn view(&self) -> AppV {
        AppV {
            dict: self.pinyin@,
            user: self.user@,
            cache: ui_view(self.cache),
            page: self.page as int,
            last_word: text_view(self.last_word),
            suggested: suggested_view(self.suggested),
            settings: self.settings@,
            keeps_memory: self.keeps_memory,
            hint: self.hint@,
            input: self.input@,
            output: self.output@,
            failed: self.failed,
            notice: text_view(self.notice),
            rev: self.rev as int,
            shown_rev: self.shown_rev as int,
            last_sent: self.last_sent@,
            last_edit: self.last_edit as int,
            dirty: self.dirty,
            visible: self.visible,
            commit_pending: self.commit_pending,
            focus_next: self.focus_next,
        }
    }
}

/// Learning touches the memory and the seed alone.
proof fn lemma_learned_path(s: AppV, run: Seq<char>, path: Seq<Span>)
    ensures
        s.learned_path(run, path) == (AppV {
            user: s.learned_path(run, path).user,
            last_word: s.learned_path(run, path).last_word,
            ..s
        }),
    decreases path.len(),
{
    if path.len() > 0 {
        lemma_learned_path(s, run, path.drop_last());
    }
}

/// What a commit asks for: the memory to save, and the text to paste.
pub struct Commit {
    pub memory: Option<String>,
    pub paste: Option<String>,
}

/// Whether a text holds no ASCII letters and digits.
fn is_plain_word(t: &str) -> (r: bool)
    ensures
        r == plain_word(t@),
{
    let v = text::chars_of(t);
    let mut i: usize = 0;
    while i < v.len()
        invariant
            0 <= i <= v@.len(),
            v@ == t@,
            forall|k: int| 0 <= k < i ==> !(text::is_letter(#[trigger] t@[k]) || text::is_digit(t@[k])),
        decreases v@.len() - i,
    {
        let c = v[i];
        if ('a' <= c && c <= 'z') || ('A' <= c && c <= 'Z') || ('0' <= c && c <= '9') {
            assert(text::is_letter(t@[i as int]) || text::is_digit(t@[i as int]));
            return false;
        }
        i = i + 1;
    }
    true
}

/// A copy of a path.
fn copy_path(p: &Vec<(String, usize, usize)>) -> (r: Vec<(String, usize, usize)>)
    ensures
        pinyin::path_view(r@) == pinyin::path_view(p@),
{
    let ghost pv = pinyin::path_view(p@);
    let mut out: Vec<(String, usize, usize)> = Vec::new();
    let mut i: usize = 0;
    assert(pinyin::path_view(out@) =~= pv.take(0));
    while i < p.len()
        invariant
            0 <= i <= p@.len(),
            pv == pinyin::path_view(p@),
            pinyin::path_view(out@) == pv.take(i as int),
        decreases p@.len() - i,
    {
        let ghost before = pinyin::path_view(out@);
        out.push((p[i].0.clone(), p[i].1, p[i].2));
        assert(pinyin::path_view(out@) =~= before.push(pv[i as int]));
        assert(pv.take(i + 1) =~= pv.take(i as int).push(pv[i as int]));
        i = i + 1;
    }
    assert(pv.take(pv.len() as int) =~= pv);
    out
}

impl FastransApp {
    /// The bar is in shape, and its labels are those of its analysis.
    pub closed spec fn wf(&self) -> bool {
        &&& self@.wf()
        &&& self.user.wf()
        &&& self.cache is Some ==> pages_view(self.cache->0.pages@) == pages_of(
            pinyin::candidates_view(self.cache->0.analysis.candidates@),
        )
    }

    /// A bar that was not shown yet. The hint names the hotkey and the version;
    /// `keeps_memory` tells whether there is a place to save the memory.
    pub fn new(
        hotkey_spec: &str,
        version: &str,
        pinyin: PinyinDict,
        user: UserDict,
        settings: Settings,
        keeps_memory: bool,
    ) -> (r: FastransApp)
        requires
            pinyin@.wf(),
            user.wf(),
        ensures
            r.wf(),
            r@ == AppV::initial(
                pinyin@,
                user@,
                settings@,
                keeps_memory,
                "输入中文,回车上屏英文 · "@ + hotkey_spec@ + " · ^Q退出 ^P拼音 · v"@ + version@,
            ),
    {
        let mut hint = text::copy_of("输入中文,回车上屏英文 · ");
        hint.append(hotkey_spec);
        hint.append(" · ^Q退出 ^P拼音 · v");
        hint.append(version);
        let r = FastransApp {
            pinyin,
            user,
            cache: None,
            page: 0,
            last_word: None,
            suggested: None,
            settings,
            keeps_memory,
            hint,
            input: String::new(),
            output: String::new(),
            failed: false,
            notice: None,
            rev: 0,
            shown_rev: 0,
            last_sent: String::new(),
            last_edit: 0,
            dirty: false,
            visible: false,
            commit_pending: false,
            focus_next: false,
        };
        proof {
            user.lemma_wf();
            assert(r@ =~= AppV::initial(
                pinyin@,
                user@,
                settings@,
                keeps_memory,
                "输入中文,回车上屏英文 · "@ + hotkey_spec@ + " · ^Q退出 ^P拼音 · v"@ + version@,
            ));
        }
        r
    }

    /// Whether another job or another hiding can have a revision of its own.
    pub fn has_revisions_left(&self) -> (r: bool)
        ensures
            r == (self@.rev < u64::MAX),
    {
        self.rev < u64::MAX
    }

    /// The hint of the empty input.
    pub fn hint(&self) -> (r: &str)
        ensures
            r@ == self@.hint,
    {
        self.hint.as_str()
    }

    /// What is typed.
    pub fn input(&self) -> (r: &str)
        ensures
            r@ == self@.input,
    {
        self.input.as_str()
    }

    /// What is shown: the translation, an error, or a message of the bar.
    pub fn output(&self) -> (r: &str)
        ensures
            r@ == self@.shown_text(),
    {
        match &self.notice {
            Some(n) => n.as_str(),
            None => self.output.as_str(),
        }
    }

    /// Whether the bar is shown.
    pub fn is_visible(&self) -> (r: bool)
        ensures
            r == self@.visible,
    {
        self.visible
    }

    /// The settings to save.
    pub fn settings(&self) -> (r: Settings)
        ensures
            r@ == self@.settings,
    {
        self.settings.clone()
    }

    /// Whether the input takes the focus now; it does so once.
    pub fn take_focus(&mut self) -> (r: bool)
        requires
            old(self).wf(),
        ensures
            final(self).wf(),
            r == old(self)@.focus_next,
            final(self)@ == (AppV { focus_next: false, ..old(self)@ }),
    {
        let r = self.focus_next;
        self.focus_next = false;
        assert(self@ =~= (AppV { focus_next: false, ..old(self)@ }));
        r
    }

    /// What stands before the trailing pinyin run of the input, and the run.
    fn pinyin_run(&self) -> (r: (String, String))
        ensures
            r.0@ == self@.head(),
            r.1@ == self@.run(),
    {
        let v = text::chars_of(self.input.as_str());
        let n: usize = v.len();
        let at: usize = if self.settings.pinyin { pinyin::run_place(&v) } else { n };
        proof {
            assert(v@.subrange(0, at as int) =~= self@.head());
            assert(v@.subrange(at as int, n as int) =~= self@.run());
        }
        (text::string_of(&v, 0, at), text::string_of(&v, at, n))
    }

    /// Makes the analysis of a run, unless it is at hand.
    fn ensure_pinyin_ui(&mut self, run: &str)
        requires
            old(self).wf(),
        ensures
            final(self).wf(),
            final(self)@ == old(self)@.with_analysis(run@),
    {
        let hit = match &self.cache {
            Some(c) => text::same(c.run.as_str(), run),
            None => false,
        };
        if !hit {
            let analysis = self.pinyin.analyze(run, &self.user);
            let pages = render_pages(&analysis.candidates);
            proof {
                pinyin::law_candidates_are_capped(self@.dict, self@.user, run@);
                pinyin::law_candidates_cover_some_letters(self@.dict, self@.user, run@);
                pinyin::law_path_is_in_order(self@.dict, self@.user, run@);
            }
            self.cache = Some(PinyinUi { run: text::copy_of(run), analysis, pages });
            self.page = 0;
        }
        assert(self@ =~= old(self)@.with_analysis(run@));
    }

    /// The text to translate.
    pub fn effective_input(&mut self) -> (r: String)
        requires
            old(self).wf(),
        ensures
            final(self).wf(),
            final(self)@ == old(self)@.analyzed(),
            r@ == old(self)@.effective(),
    {
        let (head, run) = self.pinyin_run();
        if run.as_str().is_empty() {
            return self.input.clone();
        }
        self.ensure_pinyin_ui(run.as_str());
        let mut out = head;
        match &self.cache {
            Some(c) => {
                out.append(c.analysis.best_line.as_str());
            },
            None => {},
        }
        out
    }

    /// Sends the text to translate, unless it was sent already.
    pub fn send_job(&mut self) -> (r: Option<Job>)
        requires
            old(self).wf(),
            old(self)@.rev < u64::MAX,
        ensures
            final(self).wf(),
            final(self)@ == old(self)@.sent(),
            match r {
                Some(j) => old(self)@.job() == Some(j@),
                None => old(self)@.job() is None,
            },
    {
        let text = self.effective_input();
        self.dirty = false;
        if text::same(text.as_str(), self.last_sent.as_str()) {
            assert(self@ =~= old(self)@.sent());
            return None;
        }
        self.rev = self.rev + 1;
        self.last_sent = text.clone();
        assert(self@ =~= old(self)@.sent());
        Some(Job { rev: self.rev, text })
    }

    /// Learns a word for letters.
    fn learn(&mut self, letters: &str, word: &str)
        requires
            old(self).wf(),
        ensures
            final(self).wf(),
            final(self)@ == old(self)@.learned(letters@, word@),
    {
        let low = text::to_lower(letters);
        let prev = match &self.last_word {
            Some(w) => Some(w.clone()),
            None => None,
        };
        let p = match &prev {
            Some(w) => Some(w.as_str()),
            None => None,
        };
        proof {
            assert(crate::userdict::opt_view(p) == old(self)@.last_word);
        }
        if self.user.has_room_for_pick(low.as_str(), word, p) {
            self.user.record_pick(low.as_str(), word, p);
            proof {
                self.user.lemma_wf();
            }
        }
        self.last_word = Some(text::copy_of(word));
        assert(self@ =~= old(self)@.learned(letters@, word@));
    }

    /// Learns the words of a path, one after the other.
    fn learn_path(&mut self, run: &Vec<char>, path: &Vec<(String, usize, usize)>)
        requires
            old(self).wf(),
            pinyin::in_order(pinyin::path_view(path@), run@.len() as int),
        ensures
            final(self).wf(),
            final(self)@ == old(self)@.learned_path(run@, pinyin::path_view(path@)),
    {
        let ghost pv = pinyin::path_view(path@);
        let ghost start = self@;
        let mut i: usize = 0;
        assert(pv.take(0) =~= Seq::<Span>::empty());
        while i < path.len()
            invariant
                0 <= i <= path@.len(),
                self.wf(),
                pv == pinyin::path_view(path@),
                pinyin::in_order(pv, run@.len() as int),
                self@ == start.learned_path(run@, pv.take(i as int)),
            decreases path@.len() - i,
        {
            proof {
                assert(pv.take(i + 1).drop_last() =~= pv.take(i as int));
                assert(pv.take(i + 1).last() == pv[i as int]);
                assert(0 <= pv[i as int].1 < pv[i as int].2 <= run@.len());
            }
            if is_plain_word(path[i].0.as_str()) {
                let letters = text::string_of(run, path[i].1, path[i].2);
                self.learn(letters.as_str(), path[i].0.as_str());
            }
            i = i + 1;
        }
        assert(pv.take(pv.len() as int) =~= pv);
    }

    /// Applies candidate `pick` to the trailing run; tells whether there is
    /// such a candidate.
    pub fn apply_selection(&mut self, pick: usize, now: u64) -> (r: bool)
        requires
            old(self).wf(),
        ensures
            final(self).wf(),
            final(self)@ == old(self)@.selected(pick as int, now as int),
            r == (old(self)@.candidate(pick as int) is Some),
    {
        let (head, run) = self.pinyin_run();
        if run.as_str().is_empty() {
            return false;
        }
        self.ensure_pinyin_ui(run.as_str());
        let ghost s = self@;
        let found = match &self.cache {
            Some(c) => if pick < c.analysis.candidates.len() {
                Some((c.analysis.candidates[pick].clone(), copy_path(&c.analysis.path)))
            } else {
                None
            },
            None => None,
        };
        let (cand, path) = match found {
            Some(f) => f,
            None => {
                return false;
            },
        };
        let letters = text::chars_of(run.as_str());
        let used: usize = cand.consumed_bytes;
        proof {
            assert(cand@ == old(self)@.analysis().candidates[pick as int]);
            assert(1 <= used <= letters@.len());
        }
        if is_plain_word(cand.text.as_str()) {
            if cand.sentence {
                self.learn_path(&letters, &path);
            } else {
                let part = text::string_of(&letters, 0, used);
                assert(part@ =~= run@.take(used as int));
                self.learn(part.as_str(), cand.text.as_str());
            }
        }
        let mut from: usize = used;
        while from < letters.len() && letters[from] == '\''
            invariant
                used <= from <= letters@.len(),
                pinyin::without_apostrophes(letters@.skip(used as int)) == pinyin::without_apostrophes(
                    letters@.skip(from as int),
                ),
            decreases letters@.len() - from,
        {
            assert(letters@.skip(from as int).drop_first() =~= letters@.skip(from + 1));
            from = from + 1;
        }
        let rest = text::string_of(&letters, from, letters.len());
        assert(rest@ =~= letters@.skip(from as int));
        let mut input = head;
        input.append(cand.text.as_str());
        input.append(rest.as_str());
        self.input = input;
        self.cache = None;
        self.page = 0;
        self.dirty = true;
        self.last_edit = now;
        assert(self@ =~= old(self)@.selected(pick as int, now as int));
        true
    }

    /// Appends a suggestion (联想) to the input.
    pub fn apply_suggestion(&mut self, word: &str, now: u64)
        requires
            old(self).wf(),
        ensures
            final(self).wf(),
            final(self)@ == old(self)@.followed(word@, now as int),
    {
        let prev = match &self.last_word {
            Some(w) => w.clone(),
            None => {
                return;
            },
        };
        if self.user.has_room_for_follow(prev.as_str(), word) {
            self.user.record_follow(prev.as_str(), word);
            proof {
                self.user.lemma_wf();
            }
        }
        self.input.append(word);
        self.last_word = Some(text::copy_of(word));
        self.dirty = true;
        self.last_edit = now;
        assert(self@ =~= old(self)@.followed(word@, now as int));
    }

    /// Converts a trailing run in place (on Enter); tells whether there is one.
    pub fn finalize_pinyin(&mut self) -> (r: bool)
        requires
            old(self).wf(),
        ensures
            final(self).wf(),
            final(self)@ == old(self)@.finalized(),
            r == (old(self)@.run().len() > 0),
    {
        let (head, run) = self.pinyin_run();
        if run.as_str().is_empty() {
            return false;
        }
        self.ensure_pinyin_ui(run.as_str());
        let mut input = head;
        let path = match &self.cache {
            Some(c) => {
                input.append(c.analysis.best_line.as_str());
                copy_path(&c.analysis.path)
            },
            None => Vec::new(),
        };
        let letters = text::chars_of(run.as_str());
        self.learn_path(&letters, &path);
        self.input = input;
        self.cache = None;
        assert(self@ =~= old(self)@.finalized());
        true
    }

    /// Makes the memory ready to save: the text to write, if it changed.
    pub fn flush(&mut self) -> (r: Option<String>)
        requires
            old(self).wf(),
        ensures
            final(self).wf(),
            final(self)@ == old(self)@.flushed(),
            text_view(r) == old(self)@.memory(),
    {
        if !self.keeps_memory {
            assert(self@ =~= old(self)@.flushed());
            return None;
        }
        let r = self.user.save_if_dirty();
        proof {
            self.user.lemma_wf();
            assert(self@ =~= old(self)@.flushed());
        }
        r
    }

    /// Notes that the memory was saved.
    pub fn memory_saved(&mut self)
        requires
            old(self).wf(),
        ensures
            final(self).wf(),
            final(self)@ == (AppV { user: (UserV { dirty: false, ..old(self)@.user }), ..old(self)@ }),
    {
        self.user.mark_saved();
        proof {
            self.user.lemma_wf();
            assert(self@ =~= (AppV { user: (UserV { dirty: false, ..old(self)@.user }), ..old(self)@ }));
        }
    }

    /// Shows or hides the bar; hiding gives the memory to save.
    pub fn set_visible(&mut self, visible: bool) -> (r: Option<String>)
        requires
            old(self).wf(),
            !visible ==> old(self)@.rev < u64::MAX,
        ensures
            final(self).wf(),
            visible ==> final(self)@ == old(self)@.shown() && r is None,
            !visible ==> final(self)@ == old(self)@.hidden() && text_view(r) == old(self)@.memory(),
    {
        if visible {
            self.visible = true;
            self.focus_next = true;
            assert(self@ =~= old(self)@.shown());
            None
        } else {
            let r = self.flush();
            self.visible = false;
            self.last_word = None;
            self.page = 0;
            self.input = String::new();
            self.output = String::new();
            self.failed = false;
            self.notice = None;
            self.dirty = false;
            self.commit_pending = false;
            self.last_sent = String::new();
            self.rev = self.rev + 1;
            self.shown_rev = self.rev;
            assert(self@ =~= old(self)@.hidden());
            r
        }
    }

    /// Hides the bar and gives the text to paste.
    pub fn commit(&mut self) -> (r: Commit)
        requires
            old(self).wf(),
            old(self)@.rev < u64::MAX,
        ensures
            final(self).wf(),
            final(self)@ == old(self)@.hidden(),
            text_view(r.memory) == old(self)@.memory(),
            text_view(r.paste) == old(self)@.paste(),
    {
        let t = text::trim(self.output.as_str());
        let failed = self.failed;
        let memory = self.set_visible(false);
        if failed || t.as_str().is_empty() {
            Commit { memory, paste: None }
        } else {
            Commit { memory, paste: Some(t) }
        }
    }

    /// Takes a result of the translator; tells whether it is a fresh
    /// translation.
    pub fn accept(&mut self, res: TransResult) -> (r: bool)
        requires
            old(self).wf(),
        ensures
            final(self).wf(),
            final(self)@ == old(self)@.accepted(res@),
            r == (res@.error is None && old(self)@.takes(res@)),
    {
        match res.error {
            Some(err) => {
                let mut out = text::copy_of("⚠ 翻译引擎错误: ");
                out.append(err.as_str());
                self.output = out;
                self.failed = true;
                self.notice = None;
                self.commit_pending = false;
                assert(self@ =~= old(self)@.accepted(res@));
                false
            },
            None => {
                if res.rev >= self.shown_rev {
                    self.shown_rev = res.rev;
                    self.output = if self.settings.style { style::polish(res.text.as_str()) } else { res.text };
                    self.failed = false;
                    self.notice = None;
                    assert(self@ =~= old(self)@.accepted(res@));
                    true
                } else {
                    false
                }
            },
        }
    }

    /// Takes an edited input.
    pub fn edit(&mut self, input: String, now: u64)
        requires
            old(self).wf(),
        ensures
            final(self).wf(),
            final(self)@ == (AppV { input: input@, dirty: true, last_edit: now as int, ..old(self)@ }),
    {
        self.input = input;
        self.dirty = true;
        self.last_edit = now;
        assert(self@ =~= (AppV { input: input@, dirty: true, last_edit: now as int, ..old(self)@ }));
    }
}

// ---------------------------------------------------------------------------
// The clock
// ---------------------------------------------------------------------------

/// What a tick of the clock asks for.
pub enum Tick {
    /// Nothing.
    Idle,
    /// Hide, save and paste.
    Commit(Commit),
    /// Hand a job to the translator.
    Send(Job),
    /// Look again after so many nanoseconds.
    Wait(u64),
}

impl AppV {
    /// The bar after a tick.
    pub open spec fn ticked(self, now: int) -> AppV {
        if self.ready() {
            self.hidden()
        } else if self.dirty && self.rest(now) == 0 {
            self.sent()
        } else {
            self
        }
    }
}

impl FastransApp {
    /// Commits what can be committed; sends a text that has rested.
    pub fn tick(&mut self, now: u64) -> (r: Tick)
        requires
            old(self).wf(),
            old(self)@.rev < u64::MAX,
        ensures
            final(self).wf(),
            final(self)@ == old(self)@.ticked(now as int),
            match r {
                Tick::Commit(c) => old(self)@.ready() && text_view(c.memory) == old(self)@.memory() && text_view(c.paste)
                    == old(self)@.paste(),
                Tick::Send(j) => !old(self)@.ready() && old(self)@.dirty && old(self)@.rest(now as int) == 0
                    && old(self)@.job() == Some(j@),
                Tick::Wait(n) => !old(self)@.ready() && old(self)@.dirty && n == old(self)@.rest(now as int) && n > 0,
                Tick::Idle => !old(self)@.ready() && (!old(self)@.dirty || (old(self)@.rest(now as int) == 0 && old(
                    self,
                )@.job() is None)),
            },
    {
        if self.commit_pending && !self.dirty && self.shown_rev == self.rev {
            return Tick::Commit(self.commit());
        }
        if self.dirty {
            let elapsed: u64 = if now > self.last_edit { now - self.last_edit } else { 0 };
            if elapsed >= DEBOUNCE_NS {
                match self.send_job() {
                    Some(j) => Tick::Send(j),
                    None => Tick::Idle,
                }
            } else {
                Tick::Wait(DEBOUNCE_NS - elapsed)
            }
        } else {
            Tick::Idle
        }
    }
}

// ---------------------------------------------------------------------------
// Keys of the pinyin row
// ---------------------------------------------------------------------------

/// A key that turns pages.
#[derive(Clone, Copy, PartialEq, Eq, Structural)]
pub enum NavKey {
    ArrowUp,
    ArrowDown,
    PageUp,
    PageDown,
}

/// An event of the keyboard.
pub enum Press {
    /// Text was typed.
    Text(String),
    /// A key was pressed, without modifiers.
    Key(NavKey),
    /// Anything else.
    Other,
}

/// The model of an event of the keyboard.
#[verifier::ext_equal]
pub enum PressV {
    Text(Seq<char>),
    Key(NavKey),
    Other,
}

impl View for Press {
    type V = PressV;

    open spec fn view(&self) -> PressV {
        match *self {
            Press::Text(t) => PressV::Text(t@),
            Press::Key(k) => PressV::Key(k),
            Press::Other => PressV::Other,
        }
    }
}

/// The models of events.
pub open spec fn presses(v: Seq<Press>) -> Seq<PressV> {
    Seq::new(v.len(), |i: int| v[i]@)
}

/// What an event means while pinyin is composed.
#[derive(Clone, Copy, PartialEq, Eq, Structural)]
pub enum Act {
    /// Pick the candidate with this place on the page.
    Pick(usize),
    /// Pick nothing, but keep the key from the input.
    Swallow,
    /// Turn to the page before.
    Back,
    /// Turn to the next page.
    Forward,
}

/// What a typed character means: space picks the first candidate, digits pick
/// by place (those past the page pick nothing), and `-` `,` `=` `.` turn pages.
pub open spec fn char_act(c: char) -> Option<Act> {
    if c == ' ' {
        Some(Act::Pick(0))
    } else if '1' <= c <= '9' {
        let d = (c as u32) - ('1' as u32);
        if d < PAGE_SIZE {
            Some(Act::Pick(d as usize))
        } else {
            Some(Act::Swallow)
        }
    } else if c == '-' || c == ',' {
        Some(Act::Back)
    } else if c == '=' || c == '.' {
        Some(Act::Forward)
    } else {
        None
    }
}

/// What an event means.
pub open spec fn act_of(p: PressV) -> Option<Act> {
    match p {
        PressV::Text(t) => if t.len() == 1 {
            char_act(t[0])
        } else {
            None
        },
        PressV::Key(k) => match k {
            NavKey::ArrowUp => Some(Act::Back),
            NavKey::PageUp => Some(Act::Back),
            NavKey::ArrowDown => Some(Act::Forward),
            NavKey::PageDown => Some(Act::Forward),
        },
        PressV::Other => None,
    }
}

/// The first event from place `i` on that means something.
pub open spec fn first_act(es: Seq<PressV>, i: int) -> Option<int>
    decreases es.len() - i,
{
    if i < 0 || i >= es.len() {
        None
    } else if act_of(es[i]) is Some {
        Some(i)
    } else {
        first_act(es, i + 1)
    }
}

/// What an event means.
fn meaning(p: &Press) -> (r: Option<Act>)
    ensures
        r == act_of(p@),
{
    match p {
        Press::Text(t) => {
            let v = text::chars_of(t.as_str());
            if v.len() != 1 {
                return None;
            }
            let c = v[0];
            if c == ' ' {
                Some(Act::Pick(0))
            } else if '1' <= c && c <= '9' {
                let d: usize = (c as u32 - '1' as u32) as usize;
                if d < PAGE_SIZE {
                    Some(Act::Pick(d))
                } else {
                    Some(Act::Swallow)
                }
            } else if c == '-' || c == ',' {
                Some(Act::Back)
            } else if c == '=' || c == '.' {
                Some(Act::Forward)
            } else {
                None
            }
        },
        Press::Key(k) => match k {
            NavKey::ArrowUp => Some(Act::Back),
            NavKey::PageUp => Some(Act::Back),
            NavKey::ArrowDown => Some(Act::Forward),
            NavKey::PageDown => Some(Act::Forward),
        },
        Press::Other => None,
    }
}

/// What became of the events of a frame.
pub struct Intercepted {
    /// The event that is kept from the input.
    pub consumed: Option<usize>,
    /// Whether the input was rewritten.
    pub rewritten: bool,
}

impl AppV {
    /// Whether pinyin is composed: the run has candidates. Plain English keeps
    /// its digits and punctuation.
    pub open spec fn composing(self) -> bool {
        self.run().len() > 0 && self.analysis().candidates.len() > 0
    }

    /// How many pages there are, at least one.
    pub open spec fn pages(self) -> int {
        if self.analysis().candidates.len() == 0 {
            1
        } else {
            page_count(self.analysis().candidates.len() as int)
        }
    }

    /// The page that is shown: the last one, if there are not so many.
    pub open spec fn page_shown(self) -> int {
        if self.analyzed().page >= self.pages() {
            self.pages() - 1
        } else {
            self.analyzed().page
        }
    }

    /// The event that is kept from the input: the first one that means
    /// something, while pinyin is composed.
    pub open spec fn consumes(self, es: Seq<PressV>) -> Option<int> {
        if self.composing() {
            first_act(es, 0)
        } else {
            None
        }
    }

    /// The bar with the page that is shown as its page.
    pub open spec fn paged(self) -> AppV {
        AppV { page: self.page_shown(), ..self.analyzed() }
    }

    /// The bar after the meaning of an event.
    pub open spec fn acted(self, act: Act, now: int) -> AppV {
        let s = self.paged();
        match act {
            Act::Pick(d) => if d < PAGE_SIZE {
                s.selected(s.page * PAGE_SIZE + d, now)
            } else {
                s
            },
            Act::Swallow => s,
            Act::Back => AppV {
                page: if s.page == 0 {
                    0
                } else {
                    s.page - 1
                },
                ..s
            },
            Act::Forward => AppV {
                page: if s.page + 1 >= self.pages() {
                    self.pages() - 1
                } else {
                    s.page + 1
                },
                ..s
            },
        }
    }

    /// The bar after the events of a frame.
    pub open spec fn intercepted(self, es: Seq<PressV>, now: int) -> AppV {
        match self.consumes(es) {
            Some(i) => self.acted(act_of(es[i])->0, now),
            None => if self.composing() {
                self.paged()
            } else {
                self.analyzed()
            },
        }
    }
}

/// An analysis at hand is not made again.
proof fn lemma_analyzed(s: AppV, pick: int, now: int)
    ensures
        s.analyzed().analyzed() == s.analyzed(),
        s.analyzed().run() == s.run(),
        s.analyzed().candidate(pick) == s.candidate(pick),
        s.analyzed().selected(pick, now) == s.selected(pick, now),
{
    let t = s.analyzed();
    assert(t.run() == s.run() && t.head() == s.head());
    if s.run().len() > 0 {
        assert(t.analysis() == s.analysis());
    }
}

/// Showing a page twice is showing it once.
proof fn lemma_paged(s: AppV)
    requires
        s.composing(),
        0 <= s.page,
    ensures
        s.paged().composing(),
        s.paged().analysis() == s.analysis(),
        s.paged().pages() == s.pages(),
        s.paged().paged() == s.paged(),
        s.paged().cache is Some,
        0 <= s.page_shown() < s.pages(),
        forall|a: Act, now: int| #[trigger] s.paged().acted(a, now) == s.acted(a, now),
{
    let t = s.paged();
    assert(t.run() == s.run());
    assert(t.analyzed() == t);
}

impl FastransApp {
    /// How many candidates the run has, with its analysis at hand.
    fn candidates_here(&mut self) -> (r: usize)
        requires
            old(self).wf(),
        ensures
            final(self).wf(),
            final(self)@ == old(self)@.analyzed(),
            r == if old(self)@.run().len() == 0 {
                0
            } else {
                old(self)@.analysis().candidates.len()
            },
    {
        let (_, run) = self.pinyin_run();
        if run.as_str().is_empty() {
            return 0;
        }
        self.ensure_pinyin_ui(run.as_str());
        match &self.cache {
            Some(c) => c.analysis.candidates.len(),
            None => 0,
        }
    }

    /// Does what a key means, on the page that is shown; tells whether the input
    /// was rewritten.
    fn act(&mut self, a: Act, pages: usize, now: u64) -> (r: bool)
        requires
            old(self).wf(),
            old(self)@.composing(),
            old(self)@.paged() == old(self)@,
            pages == old(self)@.pages(),
        ensures
            final(self).wf(),
            final(self)@ == old(self)@.acted(a, now as int),
            r == (final(self)@.cache is None),
    {
        let ghost s = self@;
        proof {
            lemma_paged(s);
        }
        match a {
            Act::Pick(d) => {
                if d >= PAGE_SIZE {
                    assert(self@ =~= s.acted(a, now as int));
                    return false;
                }
                let pick: usize = self.page * PAGE_SIZE + d;
                self.apply_selection(pick, now)
            },
            Act::Swallow => {
                assert(self@ =~= s.acted(a, now as int));
                false
            },
            Act::Back => {
                if self.page > 0 {
                    self.page = self.page - 1;
                }
                assert(self@ =~= s.acted(a, now as int));
                false
            },
            Act::Forward => {
                if self.page < pages - 1 {
                    self.page = self.page + 1;
                }
                assert(self@ =~= s.acted(a, now as int));
                false
            },
        }
    }

    /// Handles the selection and paging keys of the pinyin row before the input
    /// sees them. At most one event is honoured per frame: a later one would
    /// act on stale state.
    pub fn intercept(&mut self, events: &Vec<Press>, now: u64) -> (r: Intercepted)
        requires
            old(self).wf(),
        ensures
            final(self).wf(),
            final(self)@ == old(self)@.intercepted(presses(events@), now as int),
            match r.consumed {
                Some(i) => i < events@.len() && old(self)@.consumes(presses(events@)) == Some(i as int),
                None => old(self)@.consumes(presses(events@)) is None,
            },
            r.rewritten ==> r.consumed is Some,
            r.rewritten == (final(self)@.cache is None && old(self)@.composing()),
    {
        let ghost s0 = self@;
        let n: usize = self.candidates_here();
        if n == 0 {
            return Intercepted { consumed: None, rewritten: false };
        }
        let ghost es = presses(events@);
        let mut i: usize = 0;
        let mut act: Option<Act> = None;
        while i < events.len() && act.is_none()
            invariant
                0 <= i <= events@.len(),
                es == presses(events@),
                act is None ==> first_act(es, 0) == first_act(es, i as int),
                act is Some ==> i < events@.len() && first_act(es, 0) == Some(i as int) && act == act_of(es[i as int]),
            decreases events@.len() - i + if act is None { 1int } else { 0 },
        {
            act = meaning(&events[i]);
            assert(es[i as int] == events@[i as int]@);
            if act.is_none() {
                i = i + 1;
            }
        }
        let pages: usize = (n - 1) / PAGE_SIZE + 1;
        assert(pages == page_count(n as int));
        if self.page >= pages {
            self.page = pages - 1;
        }
        proof {
            assert(self@ =~= s0.paged());
            lemma_paged(s0);
        }
        match act {
            None => Intercepted { consumed: None, rewritten: false },
            Some(a) => {
                let rewritten = self.act(a, pages, now);
                Intercepted { consumed: Some(i), rewritten }
            },
        }
    }
}

// ---------------------------------------------------------------------------
// What is shown
// ---------------------------------------------------------------------------

/// The row under the input.
pub enum Row {
    /// A page of candidates: its number from 0, how many there are, its labels.
    Candidates { page: usize, pages: usize, labels: Vec<String> },
    /// Follow-up suggestions (联想).
    Suggestions(Vec<String>),
    /// Nothing.
    Nothing,
}

/// The model of the row.
#[verifier::ext_equal]
pub enum RowV {
    Candidates { page: int, pages: int, labels: Seq<Seq<char>> },
    Suggestions(Seq<Seq<char>>),
    Nothing,
}

impl View for Row {
    type V = RowV;

    open spec fn view(&self) -> RowV {
        match *self {
            Row::Candidates { page, pages, labels } => RowV::Candidates {
                page: page as int,
                pages: pages as int,
                labels: text::views(labels@),
            },
            Row::Suggestions(words) => RowV::Suggestions(text::views(words@)),
            Row::Nothing => RowV::Nothing,
        }
    }
}

/// Whether `t` stands at the end of `s`.
pub open spec fn ends_with(s: Seq<char>, t: Seq<char>) -> bool {
    t.len() <= s.len() && s.skip(s.len() - t.len()) == t
}

/// What the area below the row shows.
#[derive(Clone, Copy, PartialEq, Eq, Structural)]
pub enum Display {
    /// Enter was pressed while translating.
    Committing,
    /// The first translation is on its way.
    Waiting,
    /// The translation, dimmed while a newer one is on its way.
    Output { pending: bool },
}

impl AppV {
    /// The seed of suggestions: the last word, while the input still ends with
    /// it and no pinyin is typed.
    pub open spec fn seed(self) -> Option<Seq<char>> {
        if self.settings.pinyin && self.run().len() == 0 && self.last_word is Some && ends_with(
            self.input,
            self.last_word->0,
        ) {
            self.last_word
        } else {
            None
        }
    }

    /// The bar with the suggestions for a seed at hand.
    pub open spec fn with_suggestions(self, seed: Seq<char>) -> AppV {
        if self.suggested is Some && self.suggested->0.seed == seed {
            self
        } else {
            AppV { suggested: Some(SuggestedV { seed, words: self.user.suggestions(seed) }), ..self }
        }
    }

    /// The bar after its row was made.
    pub open spec fn rowed(self) -> AppV {
        match self.seed() {
            Some(seed) => self.with_suggestions(seed),
            None => self.analyzed(),
        }
    }

    /// The row under the input: candidates while there is a run, else the
    /// suggestions for the seed.
    pub open spec fn row(self) -> RowV {
        if self.run().len() > 0 {
            let c = self.analysis().candidates;
            RowV::Candidates {
                page: self.page_shown(),
                pages: self.pages(),
                labels: if c.len() == 0 {
                    Seq::empty()
                } else {
                    page_labels(c, self.page_shown())
                },
            }
        } else {
            match self.seed() {
                Some(seed) => {
                    let words = self.with_suggestions(seed).suggested->0.words;
                    if words.len() == 0 {
                        RowV::Nothing
                    } else {
                        RowV::Suggestions(words)
                    }
                },
                None => RowV::Nothing,
            }
        }
    }

    /// What the area below the row shows.
    pub open spec fn display(self) -> Display {
        if self.commit_pending {
            Display::Committing
        } else if self.shown_text().len() == 0 && self.input.len() > 0 {
            Display::Waiting
        } else {
            Display::Output { pending: self.pending() }
        }
    }
}

/// Whether `t` stands at the end of `s`.
fn has_ending(s: &str, t: &str) -> (r: bool)
    ensures
        r == ends_with(s@, t@),
{
    let v = text::chars_of(s);
    let w = text::chars_of(t);
    if w.len() > v.len() {
        return false;
    }
    let at: usize = v.len() - w.len();
    let tail = text::string_of(&v, at, v.len());
    assert(tail@ =~= s@.skip(at as int));
    text::same(tail.as_str(), t)
}

/// A copy of texts.
fn copy_texts(v: &Vec<String>) -> (r: Vec<String>)
    ensures
        text::views(r@) == text::views(v@),
{
    let ghost all = text::views(v@);
    let mut out: Vec<String> = Vec::new();
    let mut i: usize = 0;
    assert(text::views(out@) =~= all.take(0));
    while i < v.len()
        invariant
            0 <= i <= v@.len(),
            all == text::views(v@),
            text::views(out@) == all.take(i as int),
        decreases v@.len() - i,
    {
        let ghost before = text::views(out@);
        out.push(v[i].clone());
        assert(text::views(out@) =~= before.push(all[i as int]));
        assert(all.take(i + 1) =~= all.take(i as int).push(all[i as int]));
        i = i + 1;
    }
    assert(all.take(all.len() as int) =~= all);
    out
}

impl FastransApp {
    /// The suggestions for a seed.
    fn suggestions_for(&mut self, seed: &str) -> (r: Vec<String>)
        requires
            old(self).wf(),
        ensures
            final(self).wf(),
            final(self)@ == old(self)@.with_suggestions(seed@),
            text::views(r@) == old(self)@.with_suggestions(seed@).suggested->0.words,
    {
        let hit = match &self.suggested {
            Some(s) => text::same(s.0.as_str(), seed),
            None => false,
        };
        if !hit {
            let words = self.user.suggestions(seed);
            self.suggested = Some((text::copy_of(seed), words));
        }
        assert(self@ =~= old(self)@.with_suggestions(seed@));
        match &self.suggested {
            Some(s) => copy_texts(&s.1),
            None => Vec::new(),
        }
    }

    /// The row under the input.
    pub fn row(&mut self) -> (r: Row)
        requires
            old(self).wf(),
        ensures
            final(self).wf(),
            final(self)@ == old(self)@.rowed(),
            r@ == old(self)@.row(),
    {
        let ghost s0 = self@;
        let (_, run) = self.pinyin_run();
        if !run.as_str().is_empty() {
            self.ensure_pinyin_ui(run.as_str());
            match &self.cache {
                Some(c) => {
                    let n: usize = c.pages.len();
                    let ghost cs = pinyin::candidates_view(c.analysis.candidates@);
                    proof {
                        assert(cs == s0.analysis().candidates);
                        assert(pages_of(cs).len() == n);
                        assert(n == page_count(cs.len() as int));
                    }
                    let pages: usize = if n == 0 { 1 } else { n };
                    let page: usize = if self.page >= pages { pages - 1 } else { self.page };
                    if page < n {
                        let labels = copy_texts(&c.pages[page]);
                        proof {
                            assert(pages_view(c.pages@)[page as int] == text::views(c.pages@[page as int]@));
                        }
                        return Row::Candidates { page, pages, labels };
                    } else {
                        let labels: Vec<String> = Vec::new();
                        assert(text::views(labels@) =~= Seq::<Seq<char>>::empty());
                        return Row::Candidates { page, pages, labels };
                    }
                },
                None => {
                    return Row::Nothing;
                },
            }
        }
        if !self.settings.pinyin {
            return Row::Nothing;
        }
        let seed = match &self.last_word {
            Some(w) => if has_ending(self.input.as_str(), w.as_str()) {
                Some(w.clone())
            } else {
                None
            },
            None => None,
        };
        match seed {
            Some(seed) => {
                let words = self.suggestions_for(seed.as_str());
                if words.len() == 0 {
                    Row::Nothing
                } else {
                    Row::Suggestions(words)
                }
            },
            None => Row::Nothing,
        }
    }

    /// Picks the candidate with place `i` on the page that is shown; tells
    /// whether there is one.
    pub fn click_candidate(&mut self, i: usize, now: u64) -> (r: bool)
        requires
            old(self).wf(),
            i < PAGE_SIZE,
        ensures
            final(self).wf(),
            final(self)@ == old(self)@.selected(old(self)@.page_shown() * PAGE_SIZE + i, now as int),
            r == (old(self)@.candidate(old(self)@.page_shown() * PAGE_SIZE + i) is Some),
    {
        let ghost s0 = self@;
        let n: usize = self.candidates_here();
        if n == 0 {
            return false;
        }
        let pages: usize = (n - 1) / PAGE_SIZE + 1;
        assert(pages == page_count(n as int));
        let page: usize = if self.page >= pages { pages - 1 } else { self.page };
        let pick: usize = page * PAGE_SIZE + i;
        proof {
            lemma_analyzed(s0, pick as int, now as int);
        }
        self.apply_selection(pick, now)
    }

    /// What the area below the row shows.
    pub fn display(&self) -> (r: Display)
        ensures
            r == self@.display(),
    {
        if self.commit_pending {
            Display::Committing
        } else if self.output().is_empty() && !self.input.as_str().is_empty() {
            Display::Waiting
        } else {
            Display::Output { pending: self.dirty || self.shown_rev < self.rev }
        }
    }
}

// ---------------------------------------------------------------------------
// Keys of the bar
// ---------------------------------------------------------------------------

/// Which of the bar's keys were pressed.
pub struct Keys {
    pub enter: bool,
    pub esc: bool,
    /// Ctrl+Q.
    pub quit: bool,
    /// Ctrl+P.
    pub toggle_pinyin: bool,
}

/// What the keys ask for.
pub enum KeyStep {
    /// Nothing.
    Nothing,
    /// Save the memory and end the program.
    Quit { memory: Option<String> },
    /// Save the settings.
    Toggled,
    /// Hide, and save the memory.
    Hide { memory: Option<String> },
    /// Hide, save and paste.
    Commit(Commit),
    /// Wait for the translation; send the job, if there is one.
    Await(Option<Job>),
}

impl AppV {
    /// The bar after the built-in pinyin was switched on or off. A message tells
    /// of it; the translation stays what Enter commits.
    pub open spec fn toggled(self, now: int) -> AppV {
        let on = !self.settings.pinyin;
        AppV {
            settings: (SettingsV { pinyin: on, ..self.settings }),
            cache: None,
            page: 0,
            last_word: None,
            suggested: None,
            notice: Some(
                if on {
                    "内置拼音:开(无系统输入法时的兜底)"@
                } else {
                    "内置拼音:关(只用系统输入法)"@
                },
            ),
            dirty: true,
            last_edit: now,
            ..self
        }
    }

    /// The bar at Enter, with its trailing run converted.
    pub open spec fn entered(self) -> AppV {
        AppV { dirty: self.dirty || self.run().len() > 0, ..self.finalized() }
    }

    /// Whether Enter has something to commit.
    pub open spec fn has_text(self) -> bool {
        text::trimmed(self.input).len() > 0
    }

    /// The bar after a commit was asked for: a text that is not translated yet is
    /// sent now and committed when its translation arrives.
    pub open spec fn committed(self) -> AppV {
        if self.dirty {
            AppV { commit_pending: true, ..self.sent() }
        } else if self.pending() {
            AppV { commit_pending: true, ..self }
        } else {
            self.hidden()
        }
    }

    /// The bar after its keys.
    pub open spec fn keyed(self, quit: bool, toggle: bool, esc: bool, enter: bool, now: int) -> AppV {
        if quit {
            self.flushed()
        } else if toggle {
            self.toggled(now)
        } else if esc {
            self.hidden()
        } else if enter && self.has_text() {
            self.entered().committed()
        } else if enter {
            self.hidden()
        } else {
            self
        }
    }
}

impl FastransApp {
    /// Switches the built-in pinyin on or off.
    fn toggle_pinyin(&mut self, now: u64)
        requires
            old(self).wf(),
        ensures
            final(self).wf(),
            final(self)@ == old(self)@.toggled(now as int),
    {
        let on = !self.settings.pinyin;
        self.settings.pinyin = on;
        self.cache = None;
        self.page = 0;
        self.last_word = None;
        self.suggested = None;
        self.notice = Some(
            if on {
                text::copy_of("内置拼音:开(无系统输入法时的兜底)")
            } else {
                text::copy_of("内置拼音:关(只用系统输入法)")
            },
        );
        self.dirty = true;
        self.last_edit = now;
        assert(self@ =~= old(self)@.toggled(now as int));
    }

    /// Converts a trailing run, so that the text can be committed.
    fn enter_text(&mut self)
        requires
            old(self).wf(),
        ensures
            final(self).wf(),
            final(self)@ == old(self)@.entered(),
            final(self)@.rev == old(self)@.rev,
    {
        let ghost o = self@;
        if self.finalize_pinyin() {
            self.dirty = true;
        }
        proof {
            assert(self@ =~= o.entered());
            if o.run().len() > 0 {
                lemma_learned_path(o.analyzed(), o.run(), o.analysis().path);
            }
        }
    }

    /// Commits the text at Enter, or sends it to commit it when its translation
    /// arrives.
    fn commit_or_await(&mut self) -> (r: KeyStep)
        requires
            old(self).wf(),
            old(self)@.rev < u64::MAX,
        ensures
            final(self).wf(),
            final(self)@ == old(self)@.committed(),
            match r {
                KeyStep::Commit(c) => !old(self)@.pending() && text_view(c.memory) == old(self)@.memory() && text_view(
                    c.paste,
                ) == old(self)@.paste(),
                KeyStep::Await(Some(j)) => old(self)@.dirty && old(self)@.job() == Some(j@),
                KeyStep::Await(None) => old(self)@.pending() && (!old(self)@.dirty || old(self)@.job() is None),
                _ => false,
            },
    {
        let ghost s = self@;
        if self.dirty {
            let job = self.send_job();
            self.commit_pending = true;
            assert(self@ =~= s.committed());
            KeyStep::Await(job)
        } else if self.shown_rev < self.rev {
            self.commit_pending = true;
            assert(self@ =~= s.committed());
            KeyStep::Await(None)
        } else {
            KeyStep::Commit(self.commit())
        }
    }

    /// Handles the bar's keys.
    pub fn keys(&mut self, keys: &Keys, now: u64) -> (r: KeyStep)
        requires
            old(self).wf(),
            old(self)@.rev < u64::MAX,
        ensures
            final(self).wf(),
            final(self)@ == old(self)@.keyed(keys.quit, keys.toggle_pinyin, keys.esc, keys.enter, now as int),
            match r {
                KeyStep::Quit { memory } => keys.quit && text_view(memory) == old(self)@.memory(),
                KeyStep::Toggled => !keys.quit && keys.toggle_pinyin,
                KeyStep::Hide { memory } => !keys.quit && !keys.toggle_pinyin && (keys.esc || (keys.enter && !old(
                    self,
                )@.has_text())) && text_view(memory) == old(self)@.memory(),
                KeyStep::Commit(c) => {
                    let s = old(self)@.entered();
                    &&& !keys.quit && !keys.toggle_pinyin && !keys.esc && keys.enter && old(self)@.has_text()
                    &&& !s.pending()
                    &&& text_view(c.memory) == s.memory()
                    &&& text_view(c.paste) == s.paste()
                },
                KeyStep::Await(j) => {
                    let s = old(self)@.entered();
                    &&& !keys.quit && !keys.toggle_pinyin && !keys.esc && keys.enter && old(self)@.has_text()
                    &&& s.pending()
                    &&& match j {
                        Some(j) => s.dirty && s.job() == Some(j@),
                        None => !s.dirty || s.job() is None,
                    }
                },
                KeyStep::Nothing => !keys.quit && !keys.toggle_pinyin && !keys.esc && !keys.enter,
            },
    {
        if keys.quit {
            let memory = self.flush();
            return KeyStep::Quit { memory };
        }
        if keys.toggle_pinyin {
            self.toggle_pinyin(now);
            return KeyStep::Toggled;
        }
        if keys.esc {
            let memory = self.set_visible(false);
            return KeyStep::Hide { memory };
        }
        if !keys.enter {
            return KeyStep::Nothing;
        }
        let t = text::trim(self.input.as_str());
        if t.as_str().is_empty() {
            let memory = self.set_visible(false);
            return KeyStep::Hide { memory };
        }
        self.enter_text();
        self.commit_or_await()
    }
}

// ---------------------------------------------------------------------------
// What the bar keeps
// ---------------------------------------------------------------------------

/// A translation older than what is shown never shows.
pub proof fn law_older_results_are_dropped(s: AppV, r: TransResultV)
    requires
        r.error is None,
        r.rev < s.shown_rev,
    ensures
        s.accepted(r) == s,
{
}

/// What is shown never goes back to an older revision.
pub proof fn law_shown_revision_never_falls(s: AppV, r: TransResultV)
    ensures
        s.accepted(r).shown_rev >= s.shown_rev,
        r.rev <= s.rev && s.shown_rev <= s.rev ==> s.accepted(r).shown_rev <= s.accepted(r).rev,
{
}

/// A translation that was on its way when the bar was hidden cannot fill it
/// again.
pub proof fn law_hiding_drops_translations_on_their_way(s: AppV, r: TransResultV)
    requires
        r.error is None,
        r.rev <= s.rev,
    ensures
        s.hidden().accepted(r) == s.hidden(),
        s.hidden().shown().accepted(r) == s.hidden().shown(),
{
}

/// The same text is not translated twice: right after it was sent, there is
/// nothing to send.
pub proof fn law_same_text_is_sent_once(s: AppV)
    ensures
        s.sent().job() is None,
        s.sent().effective() == s.effective(),
{
    let t = s.sent();
    assert(t.run() == s.run());
    assert(t.analysis() == s.analysis());
}

/// An error of the engine is shown and never committed: it takes back a commit
/// that was asked for, and is not pasted, not even after edits, picks, jobs and
/// switches of the built-in pinyin.
pub proof fn law_errors_are_never_committed(s: AppV, r: TransResultV, pick: int, word: Seq<char>, now: int)
    requires
        r.error is Some,
    ensures
        !s.accepted(r).ready(),
        s.accepted(r).shown_text() == "⚠ 翻译引擎错误: "@ + r.error->0,
        s.accepted(r).paste() is None,
        s.accepted(r).sent().paste() is None,
        s.accepted(r).entered().paste() is None,
        s.accepted(r).selected(pick, now).paste() is None,
        s.accepted(r).followed(word, now).paste() is None,
        s.accepted(r).toggled(now).paste() is None,
{
    let t = s.accepted(r);
    if t.run().len() > 0 {
        lemma_learned_path(t.analyzed(), t.run(), t.analysis().path);
    }
}

/// Whether the output is nothing, an error, or the translation of the revision
/// that is shown, where `tr` gives the translation of each revision.
pub open spec fn truthful(s: AppV, tr: spec_fn(int) -> Seq<char>) -> bool {
    !s.failed ==> s.output.len() == 0 || s.output == s.presented(tr(s.shown_rev))
}

/// Only translations are pasted: whatever is typed, picked, switched or
/// received, what can be pasted is the translation of the revision that is
/// shown.
pub proof fn law_only_translations_are_pasted(
    s: AppV,
    tr: spec_fn(int) -> Seq<char>,
    r: TransResultV,
    es: Seq<PressV>,
    pick: int,
    word: Seq<char>,
    keys: Keys,
    now: int,
)
    requires
        truthful(s, tr),
        r.error is None ==> r.text == tr(r.rev),
    ensures
        s.paste() is Some ==> s.paste() == Some(text::trimmed(s.presented(tr(s.shown_rev)))),
        truthful(s.accepted(r), tr),
        truthful((AppV { input: word, dirty: true, last_edit: now, ..s }), tr),
        truthful(s.intercepted(es, now), tr),
        truthful(s.selected(pick, now), tr),
        truthful(s.followed(word, now), tr),
        truthful(s.sent(), tr),
        truthful(s.rowed(), tr),
        truthful(s.ticked(now), tr),
        truthful(s.keyed(keys.quit, keys.toggle_pinyin, keys.esc, keys.enter, now), tr),
        truthful(s.shown(), tr),
        truthful(s.hidden(), tr),
{
    lemma_selected_keeps_output(s, pick, now);
    lemma_intercepted_keeps_output(s, es, now);
    lemma_entered_keeps_output(s);
    let e = s.entered();
    assert(truthful(e, tr));
    assert(truthful(e.committed(), tr));
}

/// Whether two bars have the same output.
spec fn same_output(s: AppV, t: AppV) -> bool {
    &&& t.output == s.output
    &&& t.failed == s.failed
    &&& t.shown_rev == s.shown_rev
    &&& t.settings == s.settings
}

proof fn lemma_selected_keeps_output(s: AppV, pick: int, now: int)
    ensures
        same_output(s, s.selected(pick, now)),
{
    if s.run().len() > 0 {
        lemma_learned_path(s.analyzed(), s.run(), s.analysis().path);
    }
}

proof fn lemma_entered_keeps_output(s: AppV)
    ensures
        same_output(s, s.entered()),
{
    if s.run().len() > 0 {
        lemma_learned_path(s.analyzed(), s.run(), s.analysis().path);
    }
}

proof fn lemma_intercepted_keeps_output(s: AppV, es: Seq<PressV>, now: int)
    ensures
        same_output(s, s.intercepted(es, now)),
{
    let p = s.paged();
    assert(same_output(s, p));
    match s.consumes(es) {
        Some(i) => {
            let act = act_of(es[i])->0;
            if let Act::Pick(d) = act {
                lemma_selected_keeps_output(p, p.page * PAGE_SIZE + d, now);
            }
        },
        None => {},
    }
}

/// Whether a text that is not edited since is the one that was sent.
pub open spec fn settled(s: AppV) -> bool {
    !s.dirty ==> s.effective() == s.last_sent
}

/// What a text is sent for does not change behind the bar's back: unless it is
/// marked as edited, the text to translate is the one that was sent last,
/// whatever is typed, picked, switched or received while the program runs.
pub proof fn law_unedited_text_is_the_one_sent(
    s: AppV,
    r: TransResultV,
    es: Seq<PressV>,
    pick: int,
    word: Seq<char>,
    keys: Keys,
    now: int,
)
    requires
        settled(s),
        !keys.quit,
    ensures
        settled(s.accepted(r)),
        settled((AppV { input: word, dirty: true, last_edit: now, ..s })),
        settled(s.intercepted(es, now)),
        settled(s.selected(pick, now)),
        settled(s.followed(word, now)),
        settled(s.sent()),
        settled(s.rowed()),
        settled(s.ticked(now)),
        settled(s.keyed(keys.quit, keys.toggle_pinyin, keys.esc, keys.enter, now)),
        settled(s.shown()),
        settled(s.hidden()),
{
    law_same_text_is_sent_once(s);
    lemma_same_effective(s, s.accepted(r));
    lemma_same_effective(s, s.shown());
    lemma_selected_settled(s, pick, now);
    lemma_intercepted_settled(s, es, now);
    lemma_rowed_settled(s);
    lemma_hidden_settled(s);
    let e = s.entered();
    if s.run().len() == 0 {
        assert(e == s);
    }
    assert(settled(e));
    law_same_text_is_sent_once(e);
    lemma_hidden_settled(e);
    if e.dirty {
        lemma_same_effective(e.sent(), e.committed());
    } else if e.pending() {
        lemma_same_effective(e, e.committed());
    }
}

proof fn lemma_analyzed_settled(s: AppV)
    requires
        settled(s),
    ensures
        settled(s.analyzed()),
        s.analyzed().effective() == s.effective(),
{
    let a = s.analyzed();
    assert(a.run() == s.run());
    if s.run().len() > 0 {
        assert(a.analysis() == s.analysis());
    }
}

proof fn lemma_selected_settled(s: AppV, pick: int, now: int)
    requires
        settled(s),
    ensures
        settled(s.selected(pick, now)),
{
    lemma_analyzed_settled(s);
}

proof fn lemma_intercepted_settled(s: AppV, es: Seq<PressV>, now: int)
    requires
        settled(s),
    ensures
        settled(s.intercepted(es, now)),
{
    let a = s.analyzed();
    let p = s.paged();
    lemma_analyzed_settled(s);
    lemma_same_effective(a, p);
    assert(settled(p));
    match s.consumes(es) {
        Some(i) => {
            match act_of(es[i])->0 {
                Act::Pick(d) => {
                    lemma_selected_settled(p, p.page * PAGE_SIZE + d, now);
                },
                _ => {
                    lemma_same_effective(p, s.intercepted(es, now));
                },
            }
        },
        None => {},
    }
}

proof fn lemma_rowed_settled(s: AppV)
    requires
        settled(s),
    ensures
        settled(s.rowed()),
{
    match s.seed() {
        Some(seed) => {
            lemma_same_effective(s, s.with_suggestions(seed));
        },
        None => {
            lemma_analyzed_settled(s);
        },
    }
}

proof fn lemma_hidden_settled(s: AppV)
    ensures
        settled(s.hidden()),
{
    let h = s.hidden();
    pinyin::law_run_is_the_trailing_letters(h.input);
    assert(h.run() =~= Seq::<char>::empty());
}

/// The text to translate depends on the input, the built-in pinyin, and what is
/// known of the run alone.
proof fn lemma_same_effective(s: AppV, t: AppV)
    requires
        s.input == t.input,
        s.settings == t.settings,
        s.cache == t.cache,
        s.dict == t.dict,
        s.user == t.user,
    ensures
        s.effective() == t.effective(),
{
    assert(s.run() == t.run());
    assert(s.analysis() == t.analysis());
}

/// Only the translation of the newest text is committed by the clock: what is
/// shown is of the newest revision, and the text in the bar is the one that was
/// sent last.
pub proof fn law_commits_are_up_to_date(s: AppV, tr: spec_fn(int) -> Seq<char>)
    requires
        s.ready(),
        settled(s),
        truthful(s, tr),
    ensures
        !s.pending(),
        s.shown_rev == s.rev,
        s.last_sent == s.effective(),
        s.paste() is Some ==> s.paste() == Some(text::trimmed(s.presented(tr(s.rev)))),
{
}

/// A message of the bar is never pasted: switching the built-in pinyin changes
/// what is shown, and not what a commit pastes.
pub proof fn law_messages_are_never_pasted(s: AppV, now: int)
    ensures
        s.toggled(now).notice is Some,
        s.toggled(now).shown_text() == s.toggled(now).notice->0,
        s.toggled(now).paste() == s.paste(),
        s.toggled(now).sent().paste() == s.paste(),
{
}

/// A new bar shows nothing, and has nothing to send.
pub proof fn law_a_new_bar_is_empty(
    dict: DictV,
    user: UserV,
    settings: SettingsV,
    keeps_memory: bool,
    hint: Seq<char>,
    tr: spec_fn(int) -> Seq<char>,
)
    ensures
        ({
            let s = AppV::initial(dict, user, settings, keeps_memory, hint);
            truthful(s, tr) && settled(s) && s.job() is None && s.paste() is None && s.shown_text().len() == 0
        }),
{
    let s = AppV::initial(dict, user, settings, keeps_memory, hint);
    pinyin::law_run_is_the_trailing_letters(s.input);
    assert(s.run() =~= Seq::<char>::empty());
    text::lemma_trimmed(s.output);
}

/// Enter sends nothing that the preview has sent already: the converted input is
/// the text that was translated while it was typed. Letters that the conversion
/// leaves at the end are a run again, and must convert to themselves.
pub proof fn law_enter_sends_what_the_preview_sent(s: AppV)
    requires
        s.sent().entered().run().len() > 0 ==> s.sent().entered().analysis().best_line == s.sent().entered().run(),
    ensures
        s.sent().entered().effective() == s.effective(),
        s.sent().entered().job() is None,
{
    let t = s.sent();
    law_same_text_is_sent_once(s);
    if t.run().len() > 0 {
        lemma_learned_path(t.analyzed(), t.run(), t.analysis().path);
    }
    let e = t.entered();
    assert(e.input == t.effective());
    pinyin::law_run_is_the_trailing_letters(e.input);
    assert(e.head() + e.run() =~= e.input);
}

/// Enter commits the translation of what was entered: the job that it sends
/// holds the converted input, and when the translation of that job arrives, the
/// clock commits it and nothing else.
pub proof fn law_enter_commits_the_translation(s: AppV, r: TransResultV, now: int)
    requires
        s.shown_rev <= s.rev,
        s.entered().dirty,
        s.entered().job() is Some,
        r.error is None,
        r.rev == s.entered().job()->0.rev,
    ensures
        ({
            let t = s.entered().committed();
            let u = t.accepted(r);
            let shown = s.presented(r.text);
            &&& s.entered().job()->0.text == s.entered().effective()
            &&& !t.ready()
            &&& u.ready()
            &&& u.ticked(now) == u.hidden()
            &&& u.paste() == if text::trimmed(shown).len() == 0 {
                None
            } else {
                Some(text::trimmed(shown))
            }
        }),
{
    if s.run().len() > 0 {
        lemma_learned_path(s.analyzed(), s.run(), s.analysis().path);
    }
}

/// Enter commits the preview where it sends nothing: one on its way is committed
/// by the clock when it arrives, one that has arrived at once or at the next
/// tick of the clock; what is pasted is that translation.
pub proof fn law_enter_commits_the_preview(s: AppV, r: TransResultV, now: int)
    requires
        s.shown_rev <= s.rev,
        s.entered().dirty ==> s.entered().job() is None,
        r.error is None,
        r.rev == s.rev,
    ensures
        ({
            let shown = text::trimmed(s.presented(r.text));
            let pasted = if shown.len() == 0 {
                None
            } else {
                Some(shown)
            };
            // Enter, then the translation.
            let u = s.entered().committed().accepted(r);
            // The translation, then Enter.
            let e = s.accepted(r).entered();
            &&& s.entered().pending() ==> u.ready() && u.ticked(now) == u.hidden() && u.paste() == pasted
            &&& e.paste() == pasted
            &&& !e.dirty ==> e.committed() == e.hidden()
            &&& e.dirty ==> e.committed().ready() && e.committed().ticked(now) == e.committed().hidden()
                && e.committed().paste() == pasted
            &&& !s.dirty && s.run().len() == 0 ==> e == s.accepted(r) && !e.dirty
        }),
{
    let a = s.accepted(r);
    assert(a.run() == s.run() && a.head() == s.head());
    assert(a.analysis() == s.analysis());
    if s.run().len() > 0 {
        lemma_learned_path(s.analyzed(), s.run(), s.analysis().path);
        lemma_learned_path(a.analyzed(), a.run(), a.analysis().path);
        lemma_learned_path_same(s.analyzed(), a.analyzed(), s.run(), s.analysis().path);
    }
    let e = a.entered();
    lemma_same_effective(s.entered(), e);
}

/// What is learned depends on the memory and the seed alone.
proof fn lemma_learned_path_same(s: AppV, t: AppV, run: Seq<char>, path: Seq<Span>)
    requires
        s.user == t.user,
        s.last_word == t.last_word,
    ensures
        s.learned_path(run, path).user == t.learned_path(run, path).user,
        s.learned_path(run, path).last_word == t.learned_path(run, path).last_word,
    decreases path.len(),
{
    if path.len() > 0 {
        lemma_learned_path_same(s, t, run, path.drop_last());
    }
}

/// With the built-in pinyin switched off, the input is translated as it is, no
/// key is kept from it, and Enter converts nothing.
pub proof fn law_pinyin_off_leaves_the_input_alone(s: AppV, es: Seq<PressV>, now: int)
    requires
        !s.settings.pinyin,
    ensures
        s.run().len() == 0,
        s.effective() == s.input,
        s.consumes(es) is None,
        s.intercepted(es, now) == s,
        s.finalized() == s,
        s.rowed() == s,
        s.row() == RowV::Nothing,
{
}

/// Where nothing is composed, every key reaches the input.
pub proof fn law_plain_text_keeps_its_keys(s: AppV, es: Seq<PressV>)
    requires
        !s.composing(),
    ensures
        s.consumes(es) is None,
{
}

/// The event that is kept from the input is the first one that means something.
pub proof fn law_one_key_per_frame(s: AppV, es: Seq<PressV>)
    ensures
        match s.consumes(es) {
            Some(i) => 0 <= i < es.len() && act_of(es[i]) is Some && forall|k: int|
                0 <= k < i ==> act_of(#[trigger] es[k]) is None,
            None => s.composing() ==> forall|k: int| 0 <= k < es.len() ==> act_of(#[trigger] es[k]) is None,
        },
{
    lemma_first_act(es, 0);
}

proof fn lemma_first_act(es: Seq<PressV>, i: int)
    requires
        0 <= i,
    ensures
        match first_act(es, i) {
            Some(k) => i <= k < es.len() && act_of(es[k]) is Some && forall|j: int|
                i <= j < k ==> act_of(#[trigger] es[j]) is None,
            None => forall|j: int| i <= j < es.len() ==> act_of(#[trigger] es[j]) is None,
        },
    decreases es.len() - i,
{
    if i < es.len() && act_of(es[i]) is None {
        lemma_first_act(es, i + 1);
    }
}

/// Pages never run out of range, and a digit picks what its label names: the
/// page that is shown is one of the pages, and the candidate that digit `d + 1`
/// picks on it is the one with that label.
pub proof fn law_digits_pick_what_labels_name(s: AppV, d: int)
    requires
        s.wf(),
        s.composing(),
        0 <= d < page_len(s.analysis().candidates.len() as int, s.page_shown()),
    ensures
        0 <= s.page_shown() < s.pages(),
        ({
            let c = s.analysis().candidates;
            let pg = s.page_shown();
            &&& s.candidate(pg * PAGE_SIZE + d) == Some(c[pg * PAGE_SIZE + d])
            &&& page_labels(c, pg)[d] == label(c[pg * PAGE_SIZE + d].text, pg, d)
        }),
{
    let n = s.analysis().candidates.len() as int;
    let pg = s.page_shown();
    assert(0 <= s.analyzed().page);
    assert(pg * PAGE_SIZE + d < n);
}

/// Turning pages stays on the pages.
pub proof fn law_paging_stays_on_the_pages(s: AppV, now: int)
    requires
        s.wf(),
        s.composing(),
    ensures
        0 <= s.acted(Act::Back, now).page < s.pages(),
        0 <= s.acted(Act::Forward, now).page < s.pages(),
{
    assert(0 <= s.analyzed().page);
}

/// Whether the analysis that is shown is that of its run with the memory as it
/// is.
pub open spec fn coherent(s: AppV) -> bool {
    s.cache is Some ==> s.cache->0.analysis == pinyin::analysis(s.dict, s.user, s.cache->0.run)
}

/// What is shown is up to date: whatever the bar does, the analysis at hand is
/// the one that would be made anew. Hiding keeps that unless it prunes picks.
pub proof fn law_what_is_shown_is_up_to_date(
    s: AppV,
    pick: int,
    word: Seq<char>,
    seed: Seq<char>,
    r: TransResultV,
    now: int,
)
    requires
        coherent(s),
    ensures
        coherent(s.analyzed()),
        coherent(s.sent()),
        coherent(s.selected(pick, now)),
        coherent(s.followed(word, now)),
        coherent(s.finalized()),
        coherent(s.accepted(r)),
        coherent(s.with_suggestions(seed)),
        coherent(s.toggled(now)),
        coherent(s.shown()),
        s.flushed().user.entries == s.user.entries ==> coherent(s.hidden()),
{
    if s.cache is Some {
        let run = s.cache->0.run;
        pinyin::law_only_picks_bear_on_conversion(s.dict, s.followed(word, now).user, s.user, run);
        if s.flushed().user.entries == s.user.entries {
            pinyin::law_only_picks_bear_on_conversion(s.dict, s.flushed().user, s.user, run);
        }
    }
}

/// A picked word is learned for the letters that it covers, and is the seed of
/// what follows; what is shown is analyzed anew.
pub proof fn law_a_pick_is_learned(s: AppV, pick: int, now: int)
    requires
        s.wf(),
        s.candidate(pick) is Some,
        !s.candidate(pick)->0.sentence,
        plain_word(s.candidate(pick)->0.text),
    ensures
        ({
            let c = s.candidate(pick)->0;
            let t = s.selected(pick, now);
            &&& t.user == remembered(s.user, text::lowered(s.run().take(c.consumed)), c.text, s.last_word)
            &&& t.last_word == Some(c.text)
            &&& t.cache is None
        }),
{
}

// ---------------------------------------------------------------------------
// What the keys do
// ---------------------------------------------------------------------------

/// What one typed text makes of the bar.
pub open spec fn typed(s: AppV, t: Seq<char>, now: int) -> AppV {
    s.intercepted(seq![PressV::Text(t)], now)
}

/// Whether a pick does not depend on the page that is shown.
proof fn lemma_selected_of_paged(s: AppV, pick: int, now: int)
    requires
        s.composing(),
        s.candidate(pick) is Some,
    ensures
        s.paged().selected(pick, now) == s.selected(pick, now),
{
    let p = s.paged();
    let a = s.analyzed();
    assert(p.run() == s.run() && p.head() == s.head());
    assert(p.analysis() == s.analysis());
    assert(p.analyzed() == p);
    let run = s.run();
    let path = s.analysis().path;
    lemma_learned_path(p, run, path);
    lemma_learned_path(a, run, path);
    lemma_learned_path_same(a, p, run, path);
    assert(p.selected(pick, now) =~= s.selected(pick, now));
}

/// Typing the digit that a label starts with picks the candidate with that
/// label: for every label on the page that is shown, the digit at its front
/// puts that candidate's text into the input.
pub proof fn law_a_digit_picks_its_label(s: AppV, d: int, now: int)
    requires
        s.wf(),
        s.composing(),
        0 <= d < page_labels(s.analysis().candidates, s.page_shown()).len(),
    ensures
        ({
            let c = s.analysis().candidates;
            let pg = s.page_shown();
            let digit = page_labels(c, pg)[d][0];
            let t = typed(s, seq![digit], now);
            &&& s.consumes(seq![PressV::Text(seq![digit])]) == Some(0int)
            &&& 0 <= pg * 5 + d < c.len()
            &&& t == s.selected(pg * 5 + d, now)
            &&& s.candidate(pg * 5 + d) == Some(c[pg * 5 + d])
            &&& digit as int == '1' as int + d
        }),
{
    let c = s.analysis().candidates;
    let pg = s.page_shown();
    law_digits_pick_what_labels_name(s, d);
    let n = (d + 1) as nat;
    assert(text::decimal(n) =~= seq![text::digit_char(n as int)]);
    let l = page_labels(c, pg)[d];
    assert(l == label(c[pg * PAGE_SIZE + d].text, pg, d));
    assert(l[0] == text::digit_char(d + 1));
    let digit = l[0];
    let es = seq![PressV::Text(seq![digit])];
    assert(es[0] == PressV::Text(seq![digit]));
    assert(act_of(es[0]) == Some(Act::Pick(d as usize)));
    assert(first_act(es, 0) == Some(0int));
    lemma_paged(s);
    lemma_selected_of_paged(s, pg * PAGE_SIZE + d, now);
}

/// The space bar picks the first candidate on the page that is shown.
pub proof fn law_space_picks_the_first(s: AppV, now: int)
    requires
        s.wf(),
        s.composing(),
    ensures
        s.consumes(seq![PressV::Text(seq![' '])]) == Some(0int),
        s.candidate(s.page_shown() * 5) is Some,
        typed(s, seq![' '], now) == s.selected(s.page_shown() * 5, now),
{
    let es = seq![PressV::Text(seq![' '])];
    assert(act_of(es[0]) == Some(Act::Pick(0)));
    assert(first_act(es, 0) == Some(0int));
    lemma_paged(s);
    assert(page_len(s.analysis().candidates.len() as int, s.page_shown()) > 0);
    law_digits_pick_what_labels_name(s, 0);
    lemma_selected_of_paged(s, s.page_shown() * PAGE_SIZE, now);
}

/// Digits past the labels pick nothing, and are kept from the input like every
/// digit: the text stays, and so does the page.
pub proof fn law_other_digits_are_swallowed(s: AppV, c: char, now: int)
    requires
        s.wf(),
        s.composing(),
        '6' <= c <= '9',
    ensures
        s.consumes(seq![PressV::Text(seq![c])]) == Some(0int),
        typed(s, seq![c], now).input == s.input,
        typed(s, seq![c], now).user == s.user,
        typed(s, seq![c], now).dirty == s.dirty,
        typed(s, seq![c], now).page == s.page_shown(),
{
    let es = seq![PressV::Text(seq![c])];
    assert(act_of(es[0]) == Some(Act::Swallow));
    assert(first_act(es, 0) == Some(0int));
}

/// Whether an event turns back, or forward.
pub open spec fn turns(p: PressV, forward: bool) -> bool {
    if forward {
        p == PressV::Text(seq!['=']) || p == PressV::Text(seq!['.']) || p == PressV::Key(NavKey::ArrowDown) || p
            == PressV::Key(NavKey::PageDown)
    } else {
        p == PressV::Text(seq!['-']) || p == PressV::Text(seq![',']) || p == PressV::Key(NavKey::ArrowUp) || p
            == PressV::Key(NavKey::PageUp)
    }
}

/// Minus, comma, arrow up and page up turn one page back; equals, full stop,
/// arrow down and page down turn one page on; the first and the last page stay.
/// Nothing else changes.
pub proof fn law_paging_keys_turn_pages(s: AppV, p: PressV, forward: bool, now: int)
    requires
        s.wf(),
        s.composing(),
        turns(p, forward),
    ensures
        ({
            let t = s.intercepted(seq![p], now);
            &&& s.consumes(seq![p]) == Some(0int)
            &&& t.input == s.input && t.user == s.user && t.dirty == s.dirty
            &&& t.analysis() == s.analysis()
            &&& forward && s.page_shown() + 1 < s.pages() ==> t.page == s.page_shown() + 1
            &&& forward && s.page_shown() + 1 == s.pages() ==> t.page == s.page_shown()
            &&& !forward && s.page_shown() > 0 ==> t.page == s.page_shown() - 1
            &&& !forward && s.page_shown() == 0 ==> t.page == 0
        }),
{
    let es = seq![p];
    assert(es[0] == p);
    lemma_paged(s);
    if let PressV::Text(t) = p {
        assert(t.len() == 1);
        assert(t[0] == '-' || t[0] == ',' || t[0] == '=' || t[0] == '.');
        assert(forward ==> (t[0] == '=' || t[0] == '.'));
        assert(!forward ==> (t[0] == '-' || t[0] == ','));
    }
    assert(act_of(es[0]) == Some(
        if forward {
            Act::Forward
        } else {
            Act::Back
        },
    ));
    assert(first_act(es, 0) == Some(0int));
    let t = s.intercepted(es, now);
    assert(t.run() == s.run());
}

/// Other texts reach the input: letters, more than one character at once, and
/// all marks but those that turn pages.
pub proof fn law_other_texts_reach_the_input(s: AppV, t: Seq<char>, now: int)
    requires
        t.len() != 1 || !(t[0] == ' ' || '1' <= t[0] <= '9' || t[0] == '-' || t[0] == ',' || t[0] == '=' || t[0] == '.'),
    ensures
        s.consumes(seq![PressV::Text(t)]) is None,
        typed(s, t, now).input == s.input,
        typed(s, t, now).user == s.user,
        typed(s, t, now).dirty == s.dirty,
{
    let es = seq![PressV::Text(t)];
    assert(es[0] == PressV::Text(t));
    assert(act_of(es[0]) is None);
    reveal_with_fuel(first_act, 2);
    assert(first_act(es, 0) is None);
}

/// A pick replaces the letters that it covers: what stands before the run stays,
/// then comes the picked text, then the letters behind those that it covers,
/// without apostrophes before them. The text counts as edited.
pub proof fn law_a_pick_replaces_its_letters(s: AppV, pick: int, now: int) -> (k: int)
    requires
        s.wf(),
        s.candidate(pick) is Some,
    ensures
        ({
            let c = s.candidate(pick)->0;
            let at = s.input.len() - s.run().len();
            let t = s.selected(pick, now);
            &&& 0 <= at <= at + c.consumed <= k <= s.input.len()
            &&& s.input.skip(at) == s.run()
            &&& forall|i: int| at + c.consumed <= i < k ==> #[trigger] s.input[i] == '\''
            &&& k < s.input.len() ==> s.input[k] != '\''
            &&& t.input == s.input.take(at) + c.text + s.input.skip(k)
            &&& t.dirty && t.last_edit == now && t.cache is None
            &&& t.rev == s.rev && t.shown_rev == s.shown_rev && t.last_sent == s.last_sent && t.output == s.output
        }),
{
    let c = s.candidate(pick)->0;
    let run = s.run();
    pinyin::law_run_is_the_trailing_letters(s.input);
    let at = s.run_at();
    assert(s.input.len() - run.len() == at);
    assert(pinyin::covers_some(s.analysis().candidates, run.len() as int)) by {
        if !(s.cache is Some && s.cache->0.run == run) {
            pinyin::law_candidates_cover_some_letters(s.dict, s.user, run);
        }
    }
    assert(1 <= s.analysis().candidates[pick].consumed <= run.len());
    let q = pinyin::law_leading_apostrophes_go(run.skip(c.consumed));
    let k = at + c.consumed + q;
    assert(run.skip(c.consumed).skip(q) =~= s.input.skip(k));
    assert forall|i: int| at + c.consumed <= i < k implies #[trigger] s.input[i] == '\'' by {
        assert(run.skip(c.consumed)[i - at - c.consumed] == s.input[i]);
    }
    if k < s.input.len() {
        assert(run.skip(c.consumed)[q] == s.input[k]);
    }
    lemma_learned_path(s.analyzed(), run, s.analysis().path);
    k
}

// ---------------------------------------------------------------------------
// What the bar does
// ---------------------------------------------------------------------------

/// A text rests for 120 milliseconds before it is sent: an edited text is sent
/// at the first tick that is that long behind the last edit, and until then the
/// wait that a tick asks for ends just there. A text that was not edited is not
/// sent.
pub proof fn law_texts_rest_before_they_are_sent(s: AppV, now: int)
    requires
        !s.ready(),
        s.last_edit <= now,
    ensures
        s.dirty && now - s.last_edit >= 120000000 ==> s.ticked(now) == s.sent(),
        s.dirty && now - s.last_edit < 120000000 ==> s.ticked(now) == s && s.rest(now) > 0 && now + s.rest(now)
            == s.last_edit + 120000000,
        !s.dirty ==> s.ticked(now) == s,
{
}

/// A changed text is sent once, under a revision of its own.
pub proof fn law_a_changed_text_is_sent(s: AppV)
    requires
        s.effective() != s.last_sent,
    ensures
        s.job() is Some,
        s.job()->0.text == s.effective(),
        s.job()->0.rev == s.rev + 1,
        s.sent().rev == s.job()->0.rev,
        s.sent().last_sent == s.effective(),
        !s.sent().dirty,
        s.sent().input == s.input,
        s.sent().shown_text() == s.shown_text(),
{
}

/// The text to translate is the input with its trailing pinyin converted: what
/// stands before the letters stays, and a text without letters at its end is
/// translated as it is.
pub proof fn law_trailing_pinyin_is_converted(s: AppV)
    requires
        coherent(s),
    ensures
        ({
            let n = s.input.len() as int;
            let at = n - s.run().len();
            &&& 0 <= at <= n
            &&& forall|i: int| at <= i < n ==> pinyin::is_run_char(#[trigger] s.input[i])
            &&& s.run().len() > 0 ==> s.effective() == s.input.take(at) + pinyin::analysis(
                s.dict,
                s.user,
                s.input.skip(at),
            ).best_line
            &&& s.run().len() == 0 ==> s.effective() == s.input
            &&& s.settings.pinyin && n > 0 && ('a' <= s.input[n - 1] <= 'z' || 'A' <= s.input[n - 1] <= 'Z')
                ==> s.run().len() > 0
        }),
{
    pinyin::law_run_is_the_trailing_letters(s.input);
    let n = s.input.len() as int;
    if s.settings.pinyin && n > 0 && ('a' <= s.input[n - 1] <= 'z' || 'A' <= s.input[n - 1] <= 'Z') {
        assert(pinyin::is_run_char(s.input[n - 1]));
    }
}

/// A translation that is not older than what is shown is shown, polished if
/// that is switched on and as it is if not; what is typed stays.
pub proof fn law_a_newer_translation_is_shown(s: AppV, r: TransResultV)
    requires
        r.error is None,
        r.rev >= s.shown_rev,
    ensures
        s.accepted(r).shown_rev == r.rev,
        s.settings.style ==> s.accepted(r).shown_text() == style::polished(r.text),
        !s.settings.style ==> s.accepted(r).shown_text() == r.text,
        s.accepted(r).input == s.input,
        s.accepted(r).dirty == s.dirty,
        s.accepted(r).rev == s.rev,
        s.accepted(r).commit_pending == s.commit_pending,
        s.accepted(r).user == s.user,
{
}

/// A hidden bar is empty and waits for nothing, and keeps the settings.
pub proof fn law_a_hidden_bar_is_empty(s: AppV)
    ensures
        ({
            let h = s.hidden();
            &&& !h.visible && !h.dirty && !h.commit_pending && !h.failed
            &&& h.input.len() == 0 && h.shown_text().len() == 0 && h.effective().len() == 0
            &&& h.last_word is None && h.job() is None && h.paste() is None
            &&& h.settings == s.settings && h.dict == s.dict && h.keeps_memory == s.keeps_memory
            &&& h.rev > s.rev && h.shown_rev == h.rev
        }),
{
    let h = s.hidden();
    pinyin::law_run_is_the_trailing_letters(h.input);
    assert(h.run() =~= Seq::<char>::empty());
    text::lemma_trimmed(h.output);
    assert(h.effective() =~= h.last_sent);
}

/// Showing the bar takes the focus, and changes nothing else.
pub proof fn law_showing_takes_the_focus(s: AppV)
    ensures
        s.shown().visible && s.shown().focus_next,
        s.shown() == (AppV { visible: true, focus_next: true, ..s }),
{
}

/// What is saved when the bar hides is what stays in memory, and only if
/// something was learned and there is a place for it.
pub proof fn law_hiding_saves_what_was_learned(s: AppV)
    requires
        s.wf(),
    ensures
        s.memory() is Some <==> s.keeps_memory && s.user.dirty,
        s.memory() is Some ==> s.memory() == Some(s.hidden().user.saved()),
        s.memory() is None ==> s.hidden().user == s.user,
        s.memory() is Some && s.user.entries.rows().len() <= 4000 && s.user.bigrams.rows().len() <= 4000
            ==> s.hidden().user == s.user,
{
    crate::picks::law_pruned(s.user.entries, 4000);
    crate::picks::law_pruned(s.user.bigrams, 4000);
}

/// Switching the built-in pinyin twice leaves the settings as they were; once,
/// it changes that one setting. The input stays.
pub proof fn law_switching_twice_is_not_switching(s: AppV, now: int)
    ensures
        s.toggled(now).settings.pinyin == !s.settings.pinyin,
        s.toggled(now).settings.style == s.settings.style,
        s.toggled(now).settings.autoupdate == s.settings.autoupdate,
        s.toggled(now).settings.hotkey == s.settings.hotkey,
        s.toggled(now).toggled(now).settings == s.settings,
        s.toggled(now).input == s.input,
        s.toggled(now).dirty,
        s.toggled(now).user == s.user,
{
}

/// Escape hides the bar, whatever is typed; Enter hides it where nothing but
/// white space is typed; without a key nothing happens; quitting comes before
/// switching, switching before hiding.
pub proof fn law_keys_hide_the_bar(s: AppV, esc: bool, enter: bool, now: int)
    ensures
        s.keyed(false, false, true, enter, now) == s.hidden(),
        (forall|i: int| 0 <= i < s.input.len() ==> text::is_space(#[trigger] s.input[i])) ==> s.keyed(
            false,
            false,
            false,
            true,
            now,
        ) == s.hidden(),
        s.keyed(false, false, false, false, now) == s,
        s.keyed(true, true, esc, enter, now) == s.keyed(true, false, false, false, now),
        s.keyed(true, true, esc, enter, now).input == s.input,
        s.keyed(false, true, esc, enter, now) == s.keyed(false, true, false, false, now),
        s.keyed(false, true, esc, enter, now).settings.pinyin != s.settings.pinyin,
{
    if forall|i: int| 0 <= i < s.input.len() ==> text::is_space(#[trigger] s.input[i]) {
        let (a, b) = text::law_trimming_takes_white_space_only(s.input);
        if a < b {
            assert(text::trimmed(s.input)[0] == s.input[a]);
        }
    }
}

/// Enter with a text that is not translated yet keeps the bar as it is and
/// waits; with one whose translation is shown it hides the bar.
pub proof fn law_enter_waits_or_commits(s: AppV, i: int, now: int)
    requires
        0 <= i < s.input.len(),
        !text::is_space(s.input[i]),
        s.run().len() == 0,
    ensures
        ({
            let t = s.keyed(false, false, false, true, now);
            &&& s.dirty || s.shown_rev < s.rev ==> t.commit_pending && t.visible == s.visible && t.input == s.input && !t.dirty
            &&& !s.dirty && s.shown_rev >= s.rev ==> t == s.hidden()
        }),
{
    let (a, b) = text::law_trimming_takes_white_space_only(s.input);
    if text::trimmed(s.input).len() == 0 {
        assert(a == b);
        assert(text::is_space(s.input[i]));
    }
    assert(s.entered() == s);
}

/// A picked suggestion is put behind the input, is the seed of the next ones,
/// and is remembered as having followed the word before it; without a word
/// before it nothing happens.
pub proof fn law_a_suggestion_is_appended(s: AppV, word: Seq<char>, now: int)
    ensures
        s.last_word is None ==> s.followed(word, now) == s,
        s.last_word is Some ==> {
            let t = s.followed(word, now);
            let prev = s.last_word->0;
            &&& t.input == s.input + word
            &&& t.last_word == Some(word)
            &&& t.dirty && t.last_edit == now
            &&& t.user.entries == s.user.entries
            &&& crate::picks::is_clean(prev) && crate::picks::is_clean(word) && s.user.bigrams.count(prev, word) < u32::MAX
                ==> t.user.bigrams.count(prev, word) == s.user.bigrams.count(prev, word) + 1
        },
{
    if s.last_word is Some {
        let prev = s.last_word->0;
        if crate::picks::is_clean(prev) && crate::picks::is_clean(word) {
            crate::userdict::law_a_follow_is_counted_once(s.user, prev, word, prev, word);
        }
    }
}

/// A label is the digit of its place, a space, and the text; a text of more than
/// eight characters is cut there and marked, the very first one at eighteen.
pub proof fn law_labels_show_texts(t: Seq<char>, pg: int, i: int)
    requires
        0 <= i < 5,
        0 <= pg,
    ensures
        ({
            let l = label(t, pg, i);
            let max = if pg == 0 && i == 0 {
                18int
            } else {
                8
            };
            &&& l.len() >= 2
            &&& l[0] as int == '1' as int + i
            &&& l[1] == ' '
            &&& t.len() <= max ==> l.skip(2) == t
            &&& t.len() > max ==> l.skip(2) == t.take(max).push('…')
        }),
{
    let n = (i + 1) as nat;
    assert(text::decimal(n) =~= seq![text::digit_char(n as int)]);
    let l = label(t, pg, i);
    assert(l.skip(2) =~= clipped(
        t,
        if pg == 0 && i == 0 {
            18
        } else {
            8
        },
    ));
}

/// The pages hold every candidate in order, five to a page: candidate `i` stands
/// at place `i % 5` of page `i / 5`, and there is no page without candidates.
pub proof fn law_pages_hold_every_candidate(c: Seq<CandidateV>, i: int)
    requires
        0 <= i < c.len(),
    ensures
        i / 5 < pages_of(c).len(),
        i % 5 < pages_of(c)[i / 5].len() <= 5,
        pages_of(c)[i / 5][i % 5] == label(c[i].text, i / 5, i % 5),
        (pages_of(c).len() - 1) * 5 < c.len() <= pages_of(c).len() * 5,
{
    assert(i / 5 * 5 + i % 5 == i);
}

/// The row under the input shows the candidates of the run on the page shown,
/// or else the words that followed the last word, as long as the input still
/// ends with it.
pub proof fn law_row_shows_candidates_or_suggestions(s: AppV)
    ensures
        s.run().len() > 0 ==> s.row() is Candidates,
        s.run().len() > 0 && s.analysis().candidates.len() > 0 && 0 <= s.page ==> s.row()->labels == pages_of(
            s.analysis().candidates,
        )[s.row()->page] && 0 <= s.row()->page < s.row()->pages && s.row()->pages == pages_of(
            s.analysis().candidates,
        ).len(),
        s.run().len() == 0 ==> !(s.row() is Candidates),
        s.row() is Suggestions ==> s.settings.pinyin && s.last_word is Some && s.input.len() >= s.last_word->0.len()
            && s.input.skip(s.input.len() - s.last_word->0.len()) == s.last_word->0,
        s.row() is Suggestions && (s.suggested is None || s.suggested->0.seed != s.last_word->0) ==> s.row()
            == RowV::Suggestions(s.user.suggestions(s.last_word->0)),
        s.row() is Suggestions && s.suggested is Some && s.suggested->0.seed == s.last_word->0 ==> s.row()
            == RowV::Suggestions(s.suggested->0.words),
        s.settings.pinyin && s.run().len() == 0 && s.last_word is Some && s.input.len() >= s.last_word->0.len()
            && s.input.skip(s.input.len() - s.last_word->0.len()) == s.last_word->0 && (s.suggested is None
            || s.suggested->0.seed != s.last_word->0) && s.user.suggestions(s.last_word->0).len() > 0 ==> s.row() is Suggestions,
{
    if s.run().len() > 0 && s.analysis().candidates.len() > 0 && 0 <= s.page {
        let c = s.analysis().candidates;
        assert(0 <= s.analyzed().page);
        assert(0 <= s.page_shown() < s.pages());
    }
}

/// What is shown while a commit waits, before the first translation, and
/// otherwise.
pub proof fn law_display_tells_what_is_awaited(s: AppV)
    ensures
        s.commit_pending ==> s.display() == Display::Committing,
        !s.commit_pending && s.shown_text().len() > 0 ==> s.display() == (Display::Output {
            pending: s.dirty || s.shown_rev < s.rev,
        }),
        !s.commit_pending && s.shown_text().len() == 0 && s.input.len() > 0 ==> s.display() == Display::Waiting,
{
}

/// The words of a path are learned one by one: after a line was picked or
/// converted, each of its words counts once more for its letters, and no count
/// falls.
pub proof fn law_a_line_is_learned_word_by_word(s: AppV, run: Seq<char>, path: Seq<Span>)
    requires
        s.user.wf(),
        forall|w: Seq<char>| #[trigger] s.user.count(w) + path.len() < u32::MAX,
        forall|k: Seq<char>, w: Seq<char>| #[trigger] s.user.bigrams.count(k, w) + path.len() < u32::MAX,
    ensures
        s.learned_path(run, path).user.wf(),
        forall|k: Seq<char>, w: Seq<char>| #[trigger]
            s.learned_path(run, path).user.entries.count(k, w) >= s.user.entries.count(k, w),
        forall|w: Seq<char>| #[trigger] s.learned_path(run, path).user.count(w) <= s.user.count(w) + path.len(),
        forall|k: Seq<char>, w: Seq<char>| #[trigger]
            s.learned_path(run, path).user.bigrams.count(k, w) <= s.user.bigrams.count(k, w) + path.len(),
        forall|i: int|
            0 <= i < path.len() && learnable(run, #[trigger] path[i]) ==> s.learned_path(run, path).user.entries.count(
                text::lowered(run.subrange(path[i].1, path[i].2)),
                path[i].0,
            ) > s.user.entries.count(text::lowered(run.subrange(path[i].1, path[i].2)), path[i].0),
    decreases path.len(),
{
    if path.len() > 0 {
        let head = path.drop_last();
        assert forall|w: Seq<char>| #[trigger] s.user.count(w) + head.len() < u32::MAX by {
            assert(s.user.count(w) + path.len() < u32::MAX);
        }
        assert forall|k: Seq<char>, w: Seq<char>| #[trigger] s.user.bigrams.count(k, w) + head.len() < u32::MAX by {
            assert(s.user.bigrams.count(k, w) + path.len() < u32::MAX);
        }
        law_a_line_is_learned_word_by_word(s, run, head);
        let t = s.learned_path(run, head);
        let (word, from, to) = path.last();
        let r = s.learned_path(run, path);
        let key = text::lowered(run.subrange(from, to));
        if plain_word(word) {
            assert(t.user.count(word) <= s.user.count(word) + head.len());
            assert(s.user.count(word) + path.len() < u32::MAX);
            if t.last_word is Some {
                let prev = t.last_word->0;
                assert(t.user.bigrams.count(prev, word) <= s.user.bigrams.count(prev, word) + head.len());
                assert(s.user.bigrams.count(prev, word) + path.len() < u32::MAX);
            }
            assert(t.user.room_for_pick(key, word, t.last_word));
            crate::userdict::lemma_picked_wf(t.user, key, word, t.last_word);
            assert(text::lowered(key) =~= key) by {
                assert forall|i: int| 0 <= i < key.len() implies #[trigger] text::lowered(key)[i] == key[i] by {
                    assert(key[i] == text::lower_char(run.subrange(from, to)[i]));
                }
            }
            if crate::picks::is_clean(key) && crate::picks::is_clean(word) {
                assert forall|k: Seq<char>, w: Seq<char>|
                    #![trigger r.user.entries.count(k, w)]
                    #![trigger r.user.bigrams.count(k, w)]
                    r.user.entries.count(k, w) >= t.user.entries.count(k, w) && r.user.bigrams.count(k, w)
                        <= t.user.bigrams.count(k, w) + 1 && (k == key && w == word ==> r.user.entries.count(k, w)
                        == t.user.entries.count(k, w) + 1) by {
                    crate::userdict::law_a_pick_is_counted_where_it_belongs(t.user, key, word, t.last_word, k, w);
                }
                assert forall|w: Seq<char>| #[trigger] r.user.count(w) <= t.user.count(w) + 1 by {
                    crate::userdict::law_a_pick_counts_once(t.user, key, word, t.last_word, w);
                }
            } else {
                assert(r.user == t.user);
            }
        } else {
            assert(r == t);
        }
        assert forall|k: Seq<char>, w: Seq<char>| #[trigger] r.user.entries.count(k, w) >= s.user.entries.count(k, w) by {
            assert(t.user.entries.count(k, w) >= s.user.entries.count(k, w));
        }
        assert forall|w: Seq<char>| #[trigger] r.user.count(w) <= s.user.count(w) + path.len() by {
            assert(t.user.count(w) <= s.user.count(w) + head.len());
        }
        assert forall|k: Seq<char>, w: Seq<char>| #[trigger]
            r.user.bigrams.count(k, w) <= s.user.bigrams.count(k, w) + path.len() by {
            assert(t.user.bigrams.count(k, w) <= s.user.bigrams.count(k, w) + head.len());
        }
        assert forall|i: int| 0 <= i < path.len() && learnable(run, #[trigger] path[i]) implies r.user.entries.count(
            text::lowered(run.subrange(path[i].1, path[i].2)),
            path[i].0,
        ) > s.user.entries.count(text::lowered(run.subrange(path[i].1, path[i].2)), path[i].0) by {
            let k = text::lowered(run.subrange(path[i].1, path[i].2));
            let w = path[i].0;
            if i < head.len() {
                assert(head[i] == path[i]);
                assert(r.user.entries.count(k, w) >= t.user.entries.count(k, w));
            } else {
                assert(path[i] == path.last());
                assert(r.user.entries.count(key, word) == t.user.entries.count(key, word) + 1);
                assert(t.user.entries.count(key, word) >= s.user.entries.count(key, word));
            }
        }
    }
}

/// Whether a step of a path can be learned: its word holds no ASCII letters and
/// digits, and neither it nor its letters would corrupt the records.
pub open spec fn learnable(run: Seq<char>, p: Span) -> bool {
    &&& crate::picks::is_clean(p.0)
    &&& crate::picks::is_clean(text::lowered(run.subrange(p.1, p.2)))
    &&& forall|i: int|
        0 <= i < p.0.len() ==> !('a' <= #[trigger] p.0[i] <= 'z') && !('A' <= p.0[i] <= 'Z') && !('0' <= p.0[i] <= '9')
}

/// A pick is remembered: the count of its text under its letters in lower case
/// grows by one, and so does its count behind the last word, unless a count has
/// reached its limit; a pick that still holds ASCII letters or digits is not
/// remembered.
pub proof fn law_a_pick_is_remembered(s: AppV, pick: int, now: int)
    requires
        s.wf(),
        s.candidate(pick) is Some,
    ensures
        ({
            let c = s.candidate(pick)->0;
            let t = s.selected(pick, now);
            let k = text::lowered(s.run().take(c.consumed));
            let clean = crate::picks::is_clean(k) && crate::picks::is_clean(c.text);
            let room = s.user.count(c.text) < u32::MAX && (s.last_word is Some ==> s.user.bigrams.count(
                s.last_word->0,
                c.text,
            ) < u32::MAX);
            let holds = exists|i: int|
                0 <= i < c.text.len() && ('a' <= #[trigger] c.text[i] <= 'z' || 'A' <= c.text[i] <= 'Z' || '0' <= c.text[i]
                    <= '9');
            &&& holds ==> t.user == s.user && t.last_word == s.last_word
            &&& !holds && !c.sentence ==> t.last_word == Some(c.text)
            &&& !holds && !c.sentence && clean && room ==> t.user.entries.count(k, c.text) == s.user.entries.count(
                k,
                c.text,
            ) + 1
            &&& !holds && !c.sentence && clean && room && s.last_word is Some && crate::picks::is_clean(s.last_word->0)
                ==> t.user.bigrams.count(s.last_word->0, c.text) == s.user.bigrams.count(s.last_word->0, c.text) + 1
            &&& !holds && c.sentence ==> t.user == s.analyzed().learned_path(s.run(), s.analysis().path).user
        }),
{
    let c = s.candidate(pick)->0;
    let k = text::lowered(s.run().take(c.consumed));
    let holds = exists|i: int|
        0 <= i < c.text.len() && ('a' <= #[trigger] c.text[i] <= 'z' || 'A' <= c.text[i] <= 'Z' || '0' <= c.text[i] <= '9');
    if holds {
        let i = choose|i: int|
            0 <= i < c.text.len() && ('a' <= #[trigger] c.text[i] <= 'z' || 'A' <= c.text[i] <= 'Z' || '0' <= c.text[i]
                <= '9');
        assert(text::is_letter(c.text[i]) || text::is_digit(c.text[i]));
        assert(!plain_word(c.text));
    } else {
        assert(plain_word(c.text)) by {
            assert forall|i: int| 0 <= i < c.text.len() implies !(text::is_letter(#[trigger] c.text[i]) || text::is_digit(
                c.text[i],
            )) by {
                assert(!('a' <= c.text[i] <= 'z') && !('A' <= c.text[i] <= 'Z') && !('0' <= c.text[i] <= '9'));
            }
        }
        assert(text::lowered(k) =~= k);
        if crate::picks::is_clean(k) && crate::picks::is_clean(c.text) {
            crate::userdict::law_a_pick_is_counted_where_it_belongs(s.user, k, c.text, s.last_word, k, c.text);
            if s.last_word is Some {
                crate::userdict::law_a_pick_is_counted_where_it_belongs(
                    s.user,
                    k,
                    c.text,
                    s.last_word,
                    s.last_word->0,
                    c.text,
                );
            }
        }
    }
}

/// An error is told, cancels a commit that waits, and changes nothing of what is
/// typed or counted as shown.
pub proof fn law_errors_are_told(s: AppV, r: TransResultV)
    requires
        r.error is Some,
    ensures
        s.accepted(r).shown_text() == "⚠ 翻译引擎错误: "@ + r.error->0,
        s.accepted(r).paste() is None,
        !s.accepted(r).commit_pending,
        s.accepted(r).input == s.input,
        s.accepted(r).rev == s.rev,
        s.accepted(r).shown_rev == s.shown_rev,
        s.accepted(r).dirty == s.dirty,
{
}

/// Switching the built-in pinyin is told, by which of the two it is now.
pub proof fn law_switching_is_told(s: AppV, now: int)
    ensures
        s.toggled(now).settings.pinyin ==> s.toggled(now).shown_text() == "内置拼音:开(无系统输入法时的兜底)"@,
        !s.toggled(now).settings.pinyin ==> s.toggled(now).shown_text() == "内置拼音:关(只用系统输入法)"@,
        s.toggled(now).page == 0,
        s.toggled(now).last_word is None,
        s.toggled(now).output == s.output,
        s.toggled(now).last_edit == now,
{
}

/// Converting a trailing run puts into the input what would be translated, and
/// nothing else: the text to translate stays the same.
pub proof fn law_conversion_keeps_the_text_to_translate(s: AppV)
    ensures
        s.finalized().input == s.effective(),
        s.finalized().settings == s.settings,
        s.finalized().last_sent == s.last_sent,
        s.finalized().rev == s.rev,
        s.finalized().output == s.output,
        s.run().len() == 0 ==> s.finalized() == s,
{
    if s.run().len() > 0 {
        lemma_learned_path(s.analyzed(), s.run(), s.analysis().path);
    }
}

/// New letters show their first page; as long as the letters stay, the page
/// stays, and a page behind the last one shows the last one.
pub proof fn law_new_letters_show_the_first_page(s: AppV)
    requires
        s.wf(),
        s.run().len() > 0,
    ensures
        s.cache is None || s.cache->0.run != s.run() ==> s.analyzed().page == 0 && s.page_shown() == 0,
        s.cache is Some && s.cache->0.run == s.run() ==> s.analyzed() == s && (s.page < s.pages() ==> s.page_shown()
            == s.page) && (s.page >= s.pages() ==> s.page_shown() == s.pages() - 1),
        s.analysis().candidates.len() > 0 ==> (s.pages() - 1) * 5 < s.analysis().candidates.len() <= s.pages() * 5,
{
}

/// Without pinyin nothing is composed: there is no run and no candidate, and
/// with it the run is what stands at the end of the input.
pub proof fn law_pinyin_is_a_switch(s: AppV)
    ensures
        !s.settings.pinyin ==> s.run().len() == 0 && !s.composing() && s.effective() == s.input && s.row() is Nothing,
        s.settings.pinyin ==> s.run() == s.input.skip(pinyin::run_index(s.input)),
{
}

/// What is shown while nothing is awaited and nothing was typed.
pub proof fn law_an_empty_bar_shows_its_output(s: AppV)
    requires
        !s.commit_pending,
        s.input.len() == 0,
    ensures
        s.display() == (Display::Output { pending: s.dirty || s.shown_rev < s.rev }),
{
}

/// What is kept when the bar hides: the dictionary, the settings, the hint, and
/// everything that was learned, within the caps.
pub proof fn law_hiding_keeps_the_rest(s: AppV)
    ensures
        s.hidden().hint == s.hint,
        s.hidden().cache == s.cache,
        s.hidden().suggested == s.suggested,
        s.hidden().focus_next == s.focus_next,
        s.hidden().last_edit == s.last_edit,
        s.hidden().page == 0,
        s.hidden().user == s.flushed().user,
        s.flushed() == (AppV { user: s.flushed().user, ..s }),
{
}

/// Switching the built-in pinyin throws away what was analyzed and suggested,
/// and nothing else.
pub proof fn law_switching_forgets_what_was_offered(s: AppV, now: int)
    ensures
        s.toggled(now).cache is None,
        s.toggled(now).suggested is None,
        s.toggled(now).hint == s.hint,
        s.toggled(now).dict == s.dict,
        s.toggled(now).visible == s.visible,
        s.toggled(now).rev == s.rev && s.toggled(now).shown_rev == s.shown_rev,
        s.toggled(now).last_sent == s.last_sent,
        s.toggled(now).failed == s.failed,
        s.toggled(now).commit_pending == s.commit_pending,
        s.toggled(now).keeps_memory == s.keeps_memory && s.toggled(now).focus_next == s.focus_next,
{
}

/// Picks, suggestions, sending and results leave alone what is none of their
/// business: whether the bar is shown, its settings, its hint, its dictionary,
/// and whether a commit waits.
pub proof fn law_the_rest_stays(s: AppV, pick: int, word: Seq<char>, r: TransResultV, now: int)
    ensures
        ({
            let t = s.selected(pick, now);
            let f = s.followed(word, now);
            let m = s.sent();
            let a = s.accepted(r);
            &&& t.visible == s.visible && f.visible == s.visible && m.visible == s.visible && a.visible == s.visible
            &&& t.settings == s.settings && f.settings == s.settings && m.settings == s.settings && a.settings == s.settings
            &&& t.hint == s.hint && f.hint == s.hint && m.hint == s.hint && a.hint == s.hint
            &&& t.dict == s.dict && f.dict == s.dict && m.dict == s.dict && a.dict == s.dict
            &&& t.commit_pending == s.commit_pending && f.commit_pending == s.commit_pending && m.commit_pending
                == s.commit_pending
            &&& t.suggested == s.suggested && f.suggested == s.suggested && m.suggested == s.suggested && a.suggested
                == s.suggested
            &&& t.notice == s.notice && f.notice == s.notice && m.notice == s.notice
            &&& t.focus_next == s.focus_next && f.focus_next == s.focus_next && m.focus_next == s.focus_next
            &&& f.cache == s.cache && f.page == s.page && a.cache == s.cache && a.page == s.page
            &&& m.user == s.user && m.last_word == s.last_word && a.last_word == s.last_word && m.last_edit == s.last_edit
            &&& s.candidate(pick) is Some ==> t.page == 0
            &&& s.candidate(pick) is None ==> t.input == s.input && t.user == s.user && t.dirty == s.dirty
        }),
{
    lemma_learned_path(s.analyzed(), s.run(), s.analysis().path);
}

/// Only the words of a line are learned, and only for their own letters: no
/// other count of a word under letters changes.
pub proof fn law_only_the_words_of_a_line_are_learned(
    s: AppV,
    run: Seq<char>,
    path: Seq<Span>,
    k: Seq<char>,
    w: Seq<char>,
)
    requires
        forall|i: int|
            0 <= i < path.len() ==> (#[trigger] path[i]).0 != w || text::lowered(run.subrange(path[i].1, path[i].2)) != k,
    ensures
        s.learned_path(run, path).user.entries.count(k, w) == s.user.entries.count(k, w),
    decreases path.len(),
{
    if path.len() > 0 {
        let head = path.drop_last();
        assert forall|i: int| 0 <= i < head.len() implies (#[trigger] head[i]).0 != w || text::lowered(
            run.subrange(head[i].1, head[i].2),
        ) != k by {
            assert(head[i] == path[i]);
        }
        law_only_the_words_of_a_line_are_learned(s, run, head, k, w);
        let t = s.learned_path(run, head);
        let (word, from, to) = path.last();
        let key = text::lowered(run.subrange(from, to));
        assert(path[path.len() - 1] == path.last());
        assert(text::lowered(key) =~= key);
        if crate::picks::is_clean(key) && crate::picks::is_clean(word) {
            crate::userdict::law_a_pick_is_counted_where_it_belongs(t.user, key, word, t.last_word, k, w);
        }
    }
}

/// The words of a line are learned as following each other: each counts once
/// more behind the one before it, where both can be learned.
pub proof fn law_words_of_a_line_follow_each_other(s: AppV, run: Seq<char>, path: Seq<Span>)
    requires
        s.user.wf(),
        forall|w: Seq<char>| #[trigger] s.user.count(w) + path.len() < u32::MAX,
        forall|k: Seq<char>, w: Seq<char>| #[trigger] s.user.bigrams.count(k, w) + path.len() < u32::MAX,
    ensures
        forall|k: Seq<char>, w: Seq<char>| #[trigger]
            s.learned_path(run, path).user.bigrams.count(k, w) >= s.user.bigrams.count(k, w),
        path.len() > 0 && learnable(run, path.last()) ==> s.learned_path(run, path).last_word == Some(path.last().0),
        forall|i: int|
            0 < i < path.len() && learnable(run, #[trigger] path[i]) && learnable(run, path[i - 1]) ==> s.learned_path(
                run,
                path,
            ).user.bigrams.count(path[i - 1].0, path[i].0) > s.user.bigrams.count(path[i - 1].0, path[i].0),
    decreases path.len(),
{
    if path.len() > 0 {
        let head = path.drop_last();
        assert forall|w: Seq<char>| #[trigger] s.user.count(w) + head.len() < u32::MAX by {
            assert(s.user.count(w) + path.len() < u32::MAX);
        }
        assert forall|k: Seq<char>, w: Seq<char>| #[trigger] s.user.bigrams.count(k, w) + head.len() < u32::MAX by {
            assert(s.user.bigrams.count(k, w) + path.len() < u32::MAX);
        }
        law_words_of_a_line_follow_each_other(s, run, head);
        law_a_line_is_learned_word_by_word(s, run, head);
        let t = s.learned_path(run, head);
        let (word, from, to) = path.last();
        let r = s.learned_path(run, path);
        let key = text::lowered(run.subrange(from, to));
        assert(text::lowered(key) =~= key);
        if learnable(run, path.last()) {
            assert(plain_word(word)) by {
                assert forall|i: int| 0 <= i < word.len() implies !(text::is_letter(#[trigger] word[i]) || text::is_digit(
                    word[i],
                )) by {
                    assert(!('a' <= path.last().0[i] <= 'z'));
                }
            }
        }
        if plain_word(word) {
            assert(t.user.count(word) <= s.user.count(word) + head.len());
            assert(s.user.count(word) + path.len() < u32::MAX);
            if t.last_word is Some {
                let prev = t.last_word->0;
                assert(t.user.bigrams.count(prev, word) <= s.user.bigrams.count(prev, word) + head.len());
                assert(s.user.bigrams.count(prev, word) + path.len() < u32::MAX);
            }
            assert(t.user.room_for_pick(key, word, t.last_word));
            if crate::picks::is_clean(key) && crate::picks::is_clean(word) {
                assert forall|k: Seq<char>, w: Seq<char>|
                    #![trigger r.user.bigrams.count(k, w)]
                    r.user.bigrams.count(k, w) >= t.user.bigrams.count(k, w) && (t.last_word == Some(k)
                        && crate::picks::is_clean(k) && w == word ==> r.user.bigrams.count(k, w) == t.user.bigrams.count(
                        k,
                        w,
                    ) + 1) by {
                    crate::userdict::law_a_pick_is_counted_where_it_belongs(t.user, key, word, t.last_word, k, w);
                }
            } else {
                assert(r.user == t.user);
            }
        } else {
            assert(r == t);
        }
        assert forall|k: Seq<char>, w: Seq<char>| #[trigger] r.user.bigrams.count(k, w) >= s.user.bigrams.count(k, w) by {
            assert(t.user.bigrams.count(k, w) >= s.user.bigrams.count(k, w));
            assert(r.user.bigrams.count(k, w) >= t.user.bigrams.count(k, w));
        }
        assert forall|i: int|
            0 < i < path.len() && learnable(run, #[trigger] path[i]) && learnable(
                run,
                path[i - 1],
            ) implies r.user.bigrams.count(path[i - 1].0, path[i].0) > s.user.bigrams.count(path[i - 1].0, path[i].0) by {
            let k = path[i - 1].0;
            let w = path[i].0;
            assert(head[i - 1] == path[i - 1]);
            if i < head.len() {
                assert(head[i] == path[i]);
                assert(t.user.bigrams.count(k, w) > s.user.bigrams.count(k, w));
                assert(r.user.bigrams.count(k, w) >= t.user.bigrams.count(k, w));
            } else {
                assert(path[i] == path.last());
                assert(head.last() == path[i - 1]);
                assert(t.last_word == Some(k));
                assert(t.user.bigrams.count(k, w) >= s.user.bigrams.count(k, w));
                assert(r.user.bigrams.count(k, w) == t.user.bigrams.count(k, w) + 1);
            }
        }
    }
}

} // verus!
