//! Local zh->en translation on a dedicated worker.
//!
//! The worker serves jobs one at a time. The queue is drained before and after
//! each translation, so fast typing never builds a backlog and stale results
//! are never published.

use vstd::prelude::*;

use crate::text;

verus! {

/// A text to translate, with the revision of the input that it stands for.
pub struct Job {
    pub rev: u64,
    pub text: String,
}

/// The model of a job.
#[verifier::ext_equal]
pub struct JobV {
    pub rev: int,
    pub text: Seq<char>,
}

impl View for Job {
    type V = JobV;

    open spec fn view(&self) -> JobV {
        JobV { rev: self.rev as int, text: self.text@ }
    }
}

/// A translation, or why there is none.
pub struct TransResult {
    pub rev: u64,
    pub text: String,
    /// Engine failure (model load or inference). The UI shows it and must not
    /// commit.
    pub error: Option<String>,
}

/// The model of a result.
#[verifier::ext_equal]
pub struct TransResultV {
    pub rev: int,
    pub text: Seq<char>,
    pub error: Option<Seq<char>>,
}

impl View for TransResult {
    type V = TransResultV;

    open spec fn view(&self) -> TransResultV {
        TransResultV {
            rev: self.rev as int,
            text: self.text@,
            error: match self.error {
                Some(e) => Some(e@),
                None => None,
            },
        }
    }
}

/// What a translation gave: a text, or an error.
pub type OutcomeV = Result<Seq<char>, Seq<char>>;

/// The model of an outcome.
pub open spec fn outcome_view(o: Result<String, String>) -> OutcomeV {
    match o {
        Ok(t) => Ok(t@),
        Err(e) => Err(e@),
    }
}

/// What the worker does next.
pub enum Stage {
    /// Waits for a job.
    Waiting,
    /// Has a job; looks for a newer one.
    Draining(Job),
    /// Translates the text of a job.
    Translating(Job),
    /// Has an outcome; looks for a newer job.
    Checking(Job, Result<String, String>),
    /// Publishes a result.
    Publishing(TransResult),
    /// Ends.
    Stopped,
}

/// The model of what the worker does next.
#[verifier::ext_equal]
pub enum StageV {
    Waiting,
    Draining(JobV),
    Translating(JobV),
    Checking(JobV, OutcomeV),
    Publishing(TransResultV),
    Stopped,
}

impl View for Stage {
    type V = StageV;

    open spec fn view(&self) -> StageV {
        match *self {
            Stage::Waiting => StageV::Waiting,
            Stage::Draining(j) => StageV::Draining(j@),
            Stage::Translating(j) => StageV::Translating(j@),
            Stage::Checking(j, o) => StageV::Checking(j@, outcome_view(o)),
            Stage::Publishing(r) => StageV::Publishing(r@),
            Stage::Stopped => StageV::Stopped,
        }
    }
}

/// What came of what the worker did.
pub enum Event {
    /// A job came.
    Job(Job),
    /// No job is there.
    Empty,
    /// No job will ever come.
    Closed,
    /// The translation ended.
    Translated(Result<String, String>),
    /// The result was sent.
    Published,
}

/// The model of an event.
#[verifier::ext_equal]
pub enum EventV {
    Job(JobV),
    Empty,
    Closed,
    Translated(OutcomeV),
    Published,
}

impl View for Event {
    type V = EventV;

    open spec fn view(&self) -> EventV {
        match *self {
            Event::Job(j) => EventV::Job(j@),
            Event::Empty => EventV::Empty,
            Event::Closed => EventV::Closed,
            Event::Translated(o) => EventV::Translated(outcome_view(o)),
            Event::Published => EventV::Published,
        }
    }
}

/// The result of a job.
pub open spec fn result_of(j: JobV, o: OutcomeV) -> TransResultV {
    match o {
        Ok(t) => TransResultV { rev: j.rev, text: t, error: None },
        Err(e) => TransResultV { rev: j.rev, text: Seq::empty(), error: Some(e) },
    }
}

/// What the worker does after an event. A blank text needs no translation. An
/// event that does not answer what the worker did changes nothing.
pub open spec fn stage_after(s: StageV, e: EventV) -> StageV {
    match s {
        StageV::Waiting => match e {
            EventV::Job(j) => StageV::Draining(j),
            EventV::Closed => StageV::Stopped,
            _ => s,
        },
        StageV::Draining(j) => match e {
            EventV::Job(newer) => StageV::Draining(newer),
            EventV::Closed => StageV::Stopped,
            EventV::Empty => if text::trimmed(j.text).len() == 0 {
                StageV::Checking(j, Ok(Seq::empty()))
            } else {
                StageV::Translating(j)
            },
            _ => s,
        },
        StageV::Translating(j) => match e {
            EventV::Translated(o) => StageV::Checking(j, o),
            _ => s,
        },
        StageV::Checking(j, o) => match e {
            EventV::Job(newer) => StageV::Draining(newer),
            EventV::Closed => StageV::Stopped,
            EventV::Empty => StageV::Publishing(result_of(j, o)),
            _ => s,
        },
        StageV::Publishing(r) => match e {
            EventV::Published => StageV::Waiting,
            _ => s,
        },
        StageV::Stopped => s,
    }
}

/// What the worker does after an event.
pub fn step(s: Stage, e: Event) -> (r: Stage)
    ensures
        r@ == stage_after(s@, e@),
{
    match (s, e) {
        (Stage::Waiting, Event::Job(j)) => Stage::Draining(j),
        (Stage::Waiting, Event::Closed) => Stage::Stopped,
        (Stage::Draining(_), Event::Job(newer)) => Stage::Draining(newer),
        (Stage::Draining(_), Event::Closed) => Stage::Stopped,
        (Stage::Draining(j), Event::Empty) => {
            let t = text::trim(j.text.as_str());
            if t.as_str().is_empty() {
                let none = String::new();
                assert(none@ =~= Seq::<char>::empty());
                Stage::Checking(j, Ok(none))
            } else {
                Stage::Translating(j)
            }
        },
        (Stage::Translating(j), Event::Translated(o)) => Stage::Checking(j, o),
        (Stage::Checking(_, _), Event::Job(newer)) => Stage::Draining(newer),
        (Stage::Checking(_, _), Event::Closed) => Stage::Stopped,
        (Stage::Checking(j, o), Event::Empty) => {
            match o {
                Ok(text) => Stage::Publishing(TransResult { rev: j.rev, text, error: None }),
                Err(e) => {
                    let text = String::new();
                    assert(text@ =~= Seq::<char>::empty());
                    Stage::Publishing(TransResult { rev: j.rev, text, error: Some(e) })
                },
            }
        },
        (Stage::Publishing(_), Event::Published) => Stage::Waiting,
        (s, _) => s,
    }
}

/// The result that tells that the model could not be loaded.
pub fn load_failure(error: String) -> (r: TransResult)
    ensures
        r@ == (TransResultV { rev: 0, text: Seq::empty(), error: Some(error@) }),
{
    let text = String::new();
    assert(text@ =~= Seq::<char>::empty());
    TransResult { rev: 0, text, error: Some(error) }
}

/// Whether an event answers what the worker did.
pub open spec fn answers(s: StageV, e: EventV) -> bool {
    match s {
        StageV::Waiting => e is Job || e is Closed,
        StageV::Draining(_) => e is Job || e is Closed || e is Empty,
        StageV::Translating(_) => e is Translated,
        StageV::Checking(_, _) => e is Job || e is Closed || e is Empty,
        StageV::Publishing(_) => e is Published,
        StageV::Stopped => false,
    }
}

/// What the worker does after events.
pub open spec fn stage_of(es: Seq<EventV>) -> StageV
    decreases es.len(),
{
    if es.len() == 0 {
        StageV::Waiting
    } else {
        stage_after(stage_of(es.drop_last()), es.last())
    }
}

/// Whether each event answers what the worker did before it.
pub open spec fn is_history(es: Seq<EventV>) -> bool
    decreases es.len(),
{
    es.len() == 0 || (is_history(es.drop_last()) && answers(stage_of(es.drop_last()), es.last()))
}

/// The job that came last.
pub open spec fn newest_job(es: Seq<EventV>) -> Option<JobV>
    decreases es.len(),
{
    if es.len() == 0 {
        None
    } else {
        match es.last() {
            EventV::Job(j) => Some(j),
            _ => newest_job(es.drop_last()),
        }
    }
}

/// Stale results are never published: whatever happened, the worker translates
/// and publishes for the job that came last.
pub proof fn law_only_the_newest_job_is_published(es: Seq<EventV>)
    requires
        is_history(es),
    ensures
        match stage_of(es) {
            StageV::Draining(j) => newest_job(es) == Some(j),
            StageV::Translating(j) => newest_job(es) == Some(j) && text::trimmed(j.text).len() > 0,
            StageV::Checking(j, _) => newest_job(es) == Some(j),
            StageV::Publishing(r) => newest_job(es) is Some && r.rev == newest_job(es)->0.rev,
            _ => true,
        },
    decreases es.len(),
{
    if es.len() > 0 {
        law_only_the_newest_job_is_published(es.drop_last());
    }
}

/// The worker ends exactly when no job will ever come: a history leads to the
/// end only by a last event that says so.
pub proof fn law_worker_ends_when_closed(es: Seq<EventV>)
    requires
        is_history(es),
    ensures
        stage_of(es) is Stopped ==> es.len() > 0 && es.last() is Closed,
        es.len() > 0 && es.last() is Closed ==> stage_of(es) is Stopped,
    decreases es.len(),
{
    if es.len() > 0 {
        law_worker_ends_when_closed(es.drop_last());
    }
}

// ---------------------------------------------------------------------------
// Settings of the engine
// ---------------------------------------------------------------------------

/// The thread count that the environment asks for; 0, the engine's own choice,
/// if it asks for none.
pub fn threads(var: Option<&str>) -> (r: usize)
    ensures
        r == match var {
            Some(s) => match text::number_in(s@, usize::MAX as int) {
                Some(n) => n,
                None => 0,
            },
            None => 0,
        },
{
    match var {
        Some(s) => {
            match text::parse_number(s, usize::MAX as u64) {
                Some(n) => n as usize,
                None => 0,
            }
        },
        None => 0,
    }
}

/// The translation of a batch of one text: the first one, or nothing.
pub fn first_translation(batch: Vec<String>) -> (r: String)
    ensures
        r@ == if batch@.len() > 0 {
            batch@[0]@
        } else {
            Seq::empty()
        },
{
    if batch.len() > 0 {
        batch[0].clone()
    } else {
        let r = String::new();
        assert(r@ =~= Seq::<char>::empty());
        r
    }
}

/// Where the model is.
#[derive(Clone, Copy, PartialEq, Eq, Structural)]
pub enum ModelPlace {
    /// Where the environment says.
    Named,
    /// Next to the executable.
    BesideProgram,
    /// In the current directory.
    Here,
}

/// The first place that holds a model; a place that is not known is `None`.
pub fn model_place(named: Option<bool>, beside: Option<bool>, here: bool) -> (r: Option<ModelPlace>)
    ensures
        r == if named == Some(true) {
            Some(ModelPlace::Named)
        } else if beside == Some(true) {
            Some(ModelPlace::BesideProgram)
        } else if here {
            Some(ModelPlace::Here)
        } else {
            None
        },
{
    match named {
        Some(true) => {
            return Some(ModelPlace::Named);
        },
        _ => {},
    }
    match beside {
        Some(true) => {
            return Some(ModelPlace::BesideProgram);
        },
        _ => {},
    }
    if here {
        Some(ModelPlace::Here)
    } else {
        None
    }
}

// ---------------------------------------------------------------------------
// What the worker serves
// ---------------------------------------------------------------------------

/// What the translator gave since the newest job came.
pub open spec fn outcome_since(es: Seq<EventV>) -> Option<OutcomeV>
    decreases es.len(),
{
    if es.len() == 0 {
        None
    } else {
        match es.last() {
            EventV::Job(_) => None,
            EventV::Translated(o) => Some(o),
            _ => outcome_since(es.drop_last()),
        }
    }
}

/// Every text is translated, but for blank ones: whatever happened, an outcome
/// at hand is what the translator gave for the newest job, and what is
/// published is that job's revision with that text or that error. A blank text
/// gives an empty translation.
pub proof fn law_what_is_published_was_translated(es: Seq<EventV>)
    requires
        is_history(es),
    ensures
        match stage_of(es) {
            StageV::Draining(j) => newest_job(es) == Some(j) && outcome_since(es) is None,
            StageV::Translating(j) => newest_job(es) == Some(j) && outcome_since(es) is None && text::trimmed(j.text).len()
                > 0,
            StageV::Checking(j, o) => {
                &&& newest_job(es) == Some(j)
                &&& text::trimmed(j.text).len() > 0 ==> outcome_since(es) == Some(o)
                &&& text::trimmed(j.text).len() == 0 ==> outcome_since(es) is None && o is Ok && o->Ok_0.len() == 0
            },
            StageV::Publishing(r) => {
                &&& newest_job(es) is Some
                &&& r.rev == newest_job(es)->0.rev
                &&& text::trimmed(newest_job(es)->0.text).len() > 0 ==> match outcome_since(es) {
                    Some(Ok(t)) => r.text == t && r.error is None,
                    Some(Err(e)) => r.text.len() == 0 && r.error == Some(e),
                    None => false,
                }
                &&& text::trimmed(newest_job(es)->0.text).len() == 0 ==> r.text.len() == 0 && r.error is None
            },
            _ => true,
        },
    decreases es.len(),
{
    if es.len() > 0 {
        law_what_is_published_was_translated(es.drop_last());
    }
}

proof fn lemma_stage_push(es: Seq<EventV>, e: EventV)
    ensures
        stage_of(es.push(e)) == stage_after(stage_of(es), e),
{
    assert(es.push(e).drop_last() =~= es);
}

/// A job is served to its end: a worker that waits takes it, translates its
/// text if that is not blank, publishes what the translator gave, and waits
/// again.
pub proof fn law_a_job_is_served(es: Seq<EventV>, j: JobV, o: OutcomeV)
    requires
        stage_of(es) is Waiting,
        text::trimmed(j.text).len() > 0,
    ensures
        ({
            let asked = es.push(EventV::Job(j)).push(EventV::Empty);
            let done = asked.push(EventV::Translated(o)).push(EventV::Empty);
            &&& stage_of(asked) == StageV::Translating(j)
            &&& stage_of(done) is Publishing
            &&& stage_of(done)->Publishing_0.rev == j.rev
            &&& o is Ok ==> stage_of(done)->Publishing_0.text == o->Ok_0 && stage_of(done)->Publishing_0.error is None
            &&& o is Err ==> stage_of(done)->Publishing_0.error == Some(o->Err_0)
            &&& stage_of(done.push(EventV::Published)) is Waiting
        }),
{
    let a = es.push(EventV::Job(j));
    let b = a.push(EventV::Empty);
    let c = b.push(EventV::Translated(o));
    let d = c.push(EventV::Empty);
    lemma_stage_push(es, EventV::Job(j));
    lemma_stage_push(a, EventV::Empty);
    lemma_stage_push(b, EventV::Translated(o));
    lemma_stage_push(c, EventV::Empty);
    lemma_stage_push(d, EventV::Published);
}

/// A blank text is answered without the translator, with an empty translation.
pub proof fn law_a_blank_text_needs_no_translation(es: Seq<EventV>, j: JobV)
    requires
        stage_of(es) is Waiting,
        text::trimmed(j.text).len() == 0,
    ensures
        ({
            let done = es.push(EventV::Job(j)).push(EventV::Empty).push(EventV::Empty);
            &&& stage_of(done) is Publishing
            &&& stage_of(done)->Publishing_0.rev == j.rev
            &&& stage_of(done)->Publishing_0.text.len() == 0
            &&& stage_of(done)->Publishing_0.error is None
        }),
{
    let a = es.push(EventV::Job(j));
    let b = a.push(EventV::Empty);
    lemma_stage_push(es, EventV::Job(j));
    lemma_stage_push(a, EventV::Empty);
    lemma_stage_push(b, EventV::Empty);
}

/// A newer job makes an older one void: whether the worker waits, has drained a
/// job, or has its outcome at hand, after a newer job it stands where it would
/// if that had been the only one.
pub proof fn law_a_newer_job_takes_over(es: Seq<EventV>, fs: Seq<EventV>, j: JobV)
    requires
        stage_of(es) is Waiting || stage_of(es) is Draining || stage_of(es) is Checking,
        stage_of(fs) is Waiting,
    ensures
        stage_of(es.push(EventV::Job(j))) == stage_of(fs.push(EventV::Job(j))),
{
    lemma_stage_push(es, EventV::Job(j));
    lemma_stage_push(fs, EventV::Job(j));
}

/// An event that does not answer what the worker did changes nothing: what is
/// translated is not disturbed by jobs that come, and what was not asked for is
/// not taken.
pub proof fn law_other_events_change_nothing(es: Seq<EventV>, e: EventV)
    ensures
        stage_of(es) is Translating && !(e is Translated) ==> stage_of(es.push(e)) == stage_of(es),
        stage_of(es) is Publishing && !(e is Published) ==> stage_of(es.push(e)) == stage_of(es),
        stage_of(es) is Waiting && !(e is Job) && !(e is Closed) ==> stage_of(es.push(e)) == stage_of(es),
        stage_of(es) is Stopped ==> stage_of(es.push(e)) is Stopped,
        e is Translated && !(stage_of(es) is Translating) ==> stage_of(es.push(e)) == stage_of(es),
{
    lemma_stage_push(es, e);
}

} // verus!
