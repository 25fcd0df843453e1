//! The translation worker.

use fastrans::engine::{
    first_translation, load_failure, model_place, step, threads, Event, Job, ModelPlace, Stage,
};

fn job(rev: u64, text: &str) -> Event {
    Event::Job(Job { rev, text: text.to_string() })
}

#[test]
fn a_job_is_translated_and_published() {
    let s = step(Stage::Waiting, job(1, "你好"));
    assert!(matches!(&s, Stage::Draining(j) if j.rev == 1));
    let s = step(s, Event::Empty);
    assert!(matches!(&s, Stage::Translating(j) if j.text == "你好"));
    let s = step(s, Event::Translated(Ok("Hello".to_string())));
    let s = step(s, Event::Empty);
    match &s {
        Stage::Publishing(r) => {
            assert_eq!(r.rev, 1);
            assert_eq!(r.text, "Hello");
            assert!(r.error.is_none());
        }
        _ => panic!("a result"),
    }
    assert!(matches!(step(s, Event::Published), Stage::Waiting));
}

#[test]
fn only_the_newest_job_counts() {
    let s = step(Stage::Waiting, job(1, "一"));
    let s = step(s, job(2, "二"));
    let s = step(s, Event::Empty);
    assert!(matches!(&s, Stage::Translating(j) if j.rev == 2));
    let s = step(s, Event::Translated(Ok("two".to_string())));
    // A newer job came during the translation: its result is not published.
    let s = step(s, job(3, "三"));
    assert!(matches!(&s, Stage::Draining(j) if j.rev == 3));
    let s = step(s, Event::Empty);
    let s = step(s, Event::Translated(Err("broken".to_string())));
    let s = step(s, Event::Empty);
    match s {
        Stage::Publishing(r) => {
            assert_eq!(r.rev, 3);
            assert_eq!(r.text, "");
            assert_eq!(r.error.as_deref(), Some("broken"));
        }
        _ => panic!("a result"),
    }
}

#[test]
fn blank_texts_need_no_translation() {
    let s = step(step(Stage::Waiting, job(4, " \u{3000}\n")), Event::Empty);
    assert!(matches!(&s, Stage::Checking(j, Ok(t)) if j.rev == 4 && t.is_empty()));
}

#[test]
fn the_worker_ends_when_the_queue_closes() {
    assert!(matches!(step(Stage::Waiting, Event::Closed), Stage::Stopped));
    assert!(matches!(step(step(Stage::Waiting, job(1, "一")), Event::Closed), Stage::Stopped));
    assert!(matches!(step(Stage::Stopped, job(1, "一")), Stage::Stopped));
    assert!(matches!(step(Stage::Waiting, Event::Empty), Stage::Waiting));
}

#[test]
fn load_failures_are_results() {
    let r = load_failure("no model".to_string());
    assert_eq!((r.rev, r.text.as_str(), r.error.as_deref()), (0, "", Some("no model")));
}

#[test]
fn settings_of_the_engine() {
    assert_eq!(threads(None), 0);
    assert_eq!(threads(Some("6")), 6);
    assert_eq!(threads(Some("+6")), 6);
    assert_eq!(threads(Some(" 6")), 0);
    assert_eq!(threads(Some("-1")), 0);
    assert_eq!(threads(Some("99999999999999999999999")), 0);
    assert_eq!(first_translation(vec!["a".to_string(), "b".to_string()]), "a");
    assert_eq!(first_translation(Vec::new()), "");
}

#[test]
fn places_of_the_model() {
    assert!(model_place(Some(true), Some(true), true) == Some(ModelPlace::Named));
    assert!(model_place(Some(false), Some(true), true) == Some(ModelPlace::BesideProgram));
    assert!(model_place(None, Some(false), true) == Some(ModelPlace::Here));
    assert!(model_place(None, None, false).is_none());
}
