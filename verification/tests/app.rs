//! The input bar.

use fastrans::app::{Display, FastransApp, KeyStep, Keys, NavKey, Press, Row, Tick, DEBOUNCE_NS};
use fastrans::config::Settings;
use fastrans::engine::TransResult;
use fastrans::lexicon::{parse_dict, Entry};
use fastrans::pinyin::PinyinDict;
use fastrans::userdict::UserDict;

const DICT: &str = "你好\t800\tni'hao\n你\t900\tni\n好\t700\thao\n泥\t90\tni\n拟\t80\tni\n尼\t70\tni\n妮\t60\tni\n\
    腻\t50\tni\n今天\t3000\tjin'tian\n进\t500\tjin\n天\t500\ttian\n卡拉OK\t5\tka'la'o'kei\n";

fn bar_with(settings: Settings, keeps: bool) -> FastransApp {
    let mut entries = Vec::new();
    for l in parse_dict(DICT) {
        let freq: f64 = l.freq.parse().unwrap();
        let score = ((freq / 10000.0).ln() * 4503599627370496.0) as i64;
        entries.push(Entry { word: l.word, score, syls: l.syls });
    }
    FastransApp::new("ctrl+alt+space", "0.1.0", PinyinDict::load(&entries), UserDict::default(), settings, keeps)
}

fn bar() -> FastransApp {
    bar_with(Settings::default(), true)
}

fn typed(text: &str) -> FastransApp {
    let mut b = bar();
    b.set_visible(true);
    b.edit(text.to_string(), 1);
    b
}

fn keys(enter: bool, esc: bool, quit: bool, toggle_pinyin: bool) -> Keys {
    Keys { enter, esc, quit, toggle_pinyin }
}

fn result(rev: u64, text: &str) -> TransResult {
    TransResult { rev, text: text.to_string(), error: None }
}

fn text(t: &str) -> Press {
    Press::Text(t.to_string())
}

#[test]
fn a_new_bar() {
    let mut b = bar();
    assert_eq!(b.hint(), "输入中文,回车上屏英文 · ctrl+alt+space · ^Q退出 ^P拼音 · v0.1.0");
    assert_eq!(b.input(), "");
    assert_eq!(b.output(), "");
    assert!(!b.is_visible());
    assert!(b.has_revisions_left());
    assert!(b.set_visible(true).is_none());
    assert!(b.is_visible());
    assert!(b.take_focus());
    assert!(!b.take_focus());
    assert!(matches!(b.row(), Row::Nothing));
    assert!(b.display() == Display::Output { pending: false });
}

#[test]
fn texts_rest_before_they_are_sent() {
    let mut b = typed("你好");
    assert!(b.display() == Display::Waiting);
    assert!(matches!(b.tick(1), Tick::Wait(n) if n == DEBOUNCE_NS));
    assert!(matches!(b.tick(DEBOUNCE_NS), Tick::Wait(1)));
    match b.tick(DEBOUNCE_NS + 1) {
        Tick::Send(j) => {
            assert_eq!(j.rev, 1);
            assert_eq!(j.text, "你好");
        }
        _ => panic!("a job"),
    }
    assert!(matches!(b.tick(DEBOUNCE_NS + 2), Tick::Idle));
    // The same text is not sent again.
    b.edit("你好".to_string(), 5);
    assert!(matches!(b.tick(DEBOUNCE_NS + 5), Tick::Idle));
    assert!(b.send_job().is_none());
}

#[test]
fn trailing_pinyin_is_converted_for_the_translator() {
    let mut b = typed("我说nihao");
    assert_eq!(b.effective_input(), "我说你好");
    assert_eq!(b.input(), "我说nihao");
    assert_eq!(b.send_job().unwrap().text, "我说你好");
}

#[test]
fn results_are_shown_and_polished() {
    let mut b = typed("你好");
    b.send_job();
    assert!(b.accept(result(1, "I am  here .")));
    assert_eq!(b.output(), "I'm here.");
    assert!(b.display() == Display::Output { pending: false });
    b.edit("你好吗".to_string(), 2);
    assert!(b.display() == Display::Output { pending: true });
    b.send_job();
    assert!(b.accept(result(2, "How are you")));
    // Older than what is shown: dropped.
    assert!(!b.accept(result(1, "old")));
    assert_eq!(b.output(), "How are you");
    let mut plain = bar_with(Settings { style: false, ..Settings::default() }, true);
    assert!(plain.accept(result(0, "I am  here .")));
    assert_eq!(plain.output(), "I am  here .");
}

#[test]
fn hiding_drops_what_is_on_its_way() {
    let mut b = typed("你好");
    b.send_job();
    assert!(b.set_visible(false).is_none());
    assert_eq!(b.input(), "");
    b.set_visible(true);
    assert!(!b.accept(result(1, "late")));
    assert_eq!(b.output(), "");
}

#[test]
fn enter_waits_for_the_translation() {
    let mut b = typed("nihao");
    match b.keys(&keys(true, false, false, false), 2) {
        KeyStep::Await(Some(j)) => assert_eq!(j.text, "你好"),
        _ => panic!("a job"),
    }
    assert_eq!(b.input(), "你好");
    assert!(b.display() == Display::Committing);
    assert!(matches!(b.tick(3), Tick::Idle));
    assert!(b.accept(result(1, " Hello ")));
    match b.tick(4) {
        Tick::Commit(c) => assert_eq!(c.paste.as_deref(), Some("Hello")),
        _ => panic!("a commit"),
    }
    assert!(!b.is_visible());
    assert_eq!(b.input(), "");
}

#[test]
fn enter_after_the_preview_sends_nothing() {
    let mut b = typed("我说nihao");
    assert_eq!(b.send_job().unwrap().text, "我说你好");
    // The preview is on its way: Enter waits for it.
    assert!(matches!(b.keys(&keys(true, false, false, false), 2), KeyStep::Await(None)));
    assert_eq!(b.input(), "我说你好");
    assert!(b.accept(result(1, "I said hello")));
    match b.tick(3) {
        Tick::Commit(c) => assert_eq!(c.paste.as_deref(), Some("I said hello")),
        _ => panic!("a commit"),
    }
}

#[test]
fn enter_commits_what_is_translated() {
    let mut b = typed("你好");
    b.send_job();
    b.accept(result(1, "Hello"));
    match b.keys(&keys(true, false, false, false), 2) {
        KeyStep::Commit(c) => {
            assert_eq!(c.paste.as_deref(), Some("Hello"));
            assert!(c.memory.is_none());
        }
        _ => panic!("a commit"),
    }
    // Blank output is not pasted.
    let mut b = typed("你好");
    b.send_job();
    b.accept(result(1, "  "));
    assert!(matches!(b.keys(&keys(true, false, false, false), 2), KeyStep::Commit(c) if c.paste.is_none()));
    // While the translation is on its way there is nothing to send again.
    let mut b = typed("你好");
    b.send_job();
    assert!(matches!(b.keys(&keys(true, false, false, false), 2), KeyStep::Await(None)));
}

#[test]
fn errors_are_shown_and_never_committed() {
    let mut b = typed("你好");
    b.keys(&keys(true, false, false, false), 2);
    let fresh = b.accept(TransResult { rev: 1, text: String::new(), error: Some("boom".to_string()) });
    assert!(!fresh);
    assert_eq!(b.output(), "⚠ 翻译引擎错误: boom");
    assert!(matches!(b.tick(3), Tick::Idle));
    assert!(b.is_visible());
    // Not even when the translation of the text had arrived before.
    let mut b = typed("你好");
    b.send_job();
    b.accept(result(1, "Hello"));
    b.accept(TransResult { rev: 0, text: String::new(), error: Some("boom".to_string()) });
    match b.keys(&keys(true, false, false, false), 2) {
        KeyStep::Commit(c) => assert!(c.paste.is_none()),
        _ => panic!("a commit"),
    }
}

#[test]
fn rankings_are_made_anew_after_a_pick() {
    let mut b = typed("ni");
    assert!(matches!(b.row(), Row::Candidates { labels, .. } if labels[0] == "1 你"));
    assert!(b.intercept(&vec![text("3")], 2).rewritten);
    assert_eq!(b.input(), "拟");
    b.edit("ni".to_string(), 3);
    assert!(matches!(b.row(), Row::Candidates { labels, .. } if labels[0] == "1 拟"));
}

#[test]
fn escape_and_empty_enter_hide() {
    let mut b = typed("你好");
    assert!(matches!(b.keys(&keys(false, true, false, false), 2), KeyStep::Hide { memory: None }));
    assert!(!b.is_visible());
    let mut b = typed(" \u{3000}");
    assert!(matches!(b.keys(&keys(true, false, false, false), 2), KeyStep::Hide { .. }));
    assert!(!b.is_visible());
    assert!(matches!(b.keys(&keys(false, false, false, false), 2), KeyStep::Nothing));
}

#[test]
fn labels_and_pages() {
    let mut b = typed("ni");
    match b.row() {
        Row::Candidates { page, pages, labels } => {
            assert_eq!((page, pages), (0, 2));
            assert_eq!(labels, vec!["1 你", "2 泥", "3 拟", "4 尼", "5 妮"]);
        }
        _ => panic!("candidates"),
    }
    let r = b.intercept(&vec![text("x"), text("="), text("-")], 2);
    assert_eq!(r.consumed, Some(1));
    assert!(!r.rewritten);
    match b.row() {
        Row::Candidates { page, labels, .. } => {
            assert_eq!(page, 1);
            assert_eq!(labels[0], "1 腻");
        }
        _ => panic!("candidates"),
    }
    // Pages do not run out of range.
    b.intercept(&vec![Press::Key(NavKey::PageDown)], 2);
    assert!(matches!(b.row(), Row::Candidates { page: 1, .. }));
    b.intercept(&vec![Press::Key(NavKey::ArrowUp)], 2);
    b.intercept(&vec![text(",")], 2);
    assert!(matches!(b.row(), Row::Candidates { page: 0, .. }));
    // Digits past the page are swallowed.
    let r = b.intercept(&vec![text("9")], 2);
    assert_eq!(r.consumed, Some(0));
    assert!(!r.rewritten);
    assert_eq!(b.input(), "ni");
}

#[test]
fn long_labels_are_clipped() {
    let mut b = typed("nihaonihaonihaonihaonihaonihaonihaonihaonihaonihao");
    match b.row() {
        Row::Candidates { labels, .. } => {
            assert_eq!(labels[0], format!("1 {}…", "你好".repeat(9)));
            assert_eq!(labels[1], "2 你好");
        }
        _ => panic!("candidates"),
    }
}

#[test]
fn digits_pick_candidates() {
    let mut b = typed("在ni'hao");
    let r = b.intercept(&vec![Press::Other, text("2"), text("1")], 7);
    assert_eq!(r.consumed, Some(1));
    assert!(r.rewritten);
    // 你 covers two letters; the apostrophe behind it goes.
    assert_eq!(b.input(), "在你hao");
    let r = b.intercept(&vec![text(" ")], 8);
    assert!(r.rewritten);
    assert_eq!(b.input(), "在你好");
    // Both picks were learned, one after the other.
    match b.keys(&keys(false, false, true, false), 9) {
        KeyStep::Quit { memory: Some(m) } => {
            assert_eq!(m, "e\tni\t你\t1\ne\thao\t好\t1\nb\t你\t好\t1\n")
        }
        _ => panic!("a memory"),
    }
    b.memory_saved();
    assert!(b.flush().is_none());
}

#[test]
fn a_picked_line_is_learned_word_by_word() {
    let mut b = typed("jintiannihao");
    let r = b.intercept(&vec![text("1")], 2);
    assert!(r.rewritten);
    assert_eq!(b.input(), "今天你好");
    let m = b.flush().unwrap();
    assert_eq!(m, "e\tjintian\t今天\t1\ne\tnihao\t你好\t1\nb\t今天\t你好\t1\n");
}

#[test]
fn enter_learns_the_words_of_the_line() {
    let mut b = typed("JinTiannihao");
    b.keys(&keys(true, false, false, false), 2);
    assert_eq!(b.input(), "今天你好");
    let m = b.flush().unwrap();
    assert_eq!(m, "e\tjintian\t今天\t1\ne\tnihao\t你好\t1\nb\t今天\t你好\t1\n");
}

#[test]
fn words_with_letters_are_not_learned() {
    let mut b = typed("kalaokei");
    let r = b.intercept(&vec![text(" ")], 2);
    assert!(r.rewritten);
    assert_eq!(b.input(), "卡拉OK");
    assert!(b.flush().is_none());
}

#[test]
fn memory_without_a_place_is_not_saved() {
    let mut b = bar_with(Settings::default(), false);
    b.set_visible(true);
    b.edit("ni".to_string(), 1);
    assert!(b.apply_selection(0, 2));
    assert!(b.set_visible(false).is_none());
}

#[test]
fn plain_english_keeps_its_keys() {
    let mut b = typed("GPT");
    let r = b.intercept(&vec![text("-"), text("4")], 2);
    assert!(r.consumed.is_none());
    assert_eq!(b.input(), "GPT");
    let mut b = typed("");
    assert!(b.intercept(&vec![text("1")], 2).consumed.is_none());
}

#[test]
fn no_such_candidate() {
    let mut b = typed("nihao");
    assert!(!b.apply_selection(99, 2));
    assert_eq!(b.input(), "nihao");
    let mut b = typed("好");
    assert!(!b.apply_selection(0, 2));
    assert!(!b.click_candidate(0, 2));
}

#[test]
fn clicks_pick_from_the_page_shown() {
    let mut b = typed("ni");
    b.intercept(&vec![text("=")], 2);
    assert!(b.click_candidate(0, 3));
    assert_eq!(b.input(), "腻");
}

#[test]
fn suggestions_follow_the_last_word() {
    let mut b = typed("ni");
    b.apply_selection(0, 2);
    assert!(matches!(b.row(), Row::Nothing));
    b.edit("你hao".to_string(), 3);
    b.apply_selection(0, 4);
    assert_eq!(b.input(), "你好");
    assert!(matches!(b.row(), Row::Nothing));
    // Back at 你, 好 is suggested.
    b.edit("ni".to_string(), 5);
    b.apply_selection(0, 6);
    match b.row() {
        Row::Suggestions(w) => assert_eq!(w, vec!["好"]),
        _ => panic!("suggestions"),
    }
    b.apply_suggestion("好", 7);
    assert_eq!(b.input(), "你好");
    // The row hides on other edits, and comes back.
    b.edit("你".to_string(), 8);
    assert!(matches!(b.row(), Row::Nothing));
}

#[test]
fn pinyin_can_be_switched_off() {
    let mut b = typed("nihao");
    assert!(matches!(b.keys(&keys(false, false, false, true), 2), KeyStep::Toggled));
    assert!(!b.settings().pinyin);
    assert_eq!(b.output(), "内置拼音:关(只用系统输入法)");
    assert_eq!(b.effective_input(), "nihao");
    assert!(b.intercept(&vec![text("1")], 3).consumed.is_none());
    assert!(matches!(b.row(), Row::Nothing));
    assert!(!b.finalize_pinyin());
    b.keys(&keys(false, false, false, true), 4);
    assert!(b.settings().pinyin);
    assert_eq!(b.output(), "内置拼音:开(无系统输入法时的兜底)");
    assert!(b.finalize_pinyin());
    assert_eq!(b.input(), "你好");
}

#[test]
fn messages_are_never_pasted() {
    let mut b = typed("你好");
    b.send_job();
    b.accept(result(1, "Hello"));
    b.keys(&keys(false, false, false, true), 2);
    b.keys(&keys(false, false, false, true), 3);
    assert_eq!(b.output(), "内置拼音:开(无系统输入法时的兜底)");
    // The text is translated already, so nothing is sent.
    assert!(matches!(b.tick(DEBOUNCE_NS + 3), Tick::Idle));
    match b.keys(&keys(true, false, false, false), DEBOUNCE_NS + 4) {
        KeyStep::Commit(c) => assert_eq!(c.paste.as_deref(), Some("Hello")),
        _ => panic!("a commit"),
    }
    assert_eq!(b.output(), "");
    // A translation takes the place of the message.
    let mut b = typed("你好");
    b.keys(&keys(false, false, false, true), 2);
    b.send_job();
    assert!(b.accept(result(1, "Hello")));
    assert_eq!(b.output(), "Hello");
    // An error stays one behind the message.
    b.accept(TransResult { rev: 1, text: String::new(), error: Some("boom".to_string()) });
    b.keys(&keys(false, false, false, true), 3);
    assert_eq!(b.output(), "内置拼音:开(无系统输入法时的兜底)");
    assert!(b.send_job().is_none());
    assert!(matches!(b.keys(&keys(true, false, false, false), 4), KeyStep::Commit(c) if c.paste.is_none()));
}

#[test]
fn enter_commits_a_preview_with_pinyin() {
    let mut b = typed("nihao");
    b.send_job();
    b.accept(result(1, "Hello"));
    // Enter converts the run; its translation is there already.
    assert!(matches!(b.keys(&keys(true, false, false, false), 2), KeyStep::Await(None)));
    match b.tick(3) {
        Tick::Commit(c) => assert_eq!(c.paste.as_deref(), Some("Hello")),
        _ => panic!("a commit"),
    }
}

#[test]
fn settings_keep_the_hotkey() {
    let b = bar_with(Settings { hotkey: Some("win+e".to_string()), ..Settings::default() }, true);
    assert_eq!(b.settings().hotkey.as_deref(), Some("win+e"));
}
