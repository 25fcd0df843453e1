//! The memory of picks.

use fastrans::userdict::{clean, UserDict, MAX_ENTRIES};

#[test]
fn records_and_ranks() {
    let mut d = UserDict::default();
    d.record_pick("nihao", "你号", None);
    d.record_pick("nihao", "你好", None);
    d.record_pick("nihao", "你好", Some("在吗"));
    let m = d.prefix_matches("nihao");
    assert_eq!((m[0].0, m[0].1), (5, "你好"));
    assert_eq!(d.count("你好"), 2);
    assert_eq!(d.suggestions("在吗"), vec!["你好".to_string()]);
    assert!(d.suggestions("没有").is_empty());
    // Follow picks influence bigrams only, not conversion counts.
    d.record_follow("你好", "世界");
    assert_eq!(d.count("世界"), 0);
    assert_eq!(d.suggestions("你好"), vec!["世界".to_string()]);
    // Malformed input is rejected.
    d.record_pick("a\tb", "x", None);
    d.record_pick("ab", "", None);
    assert!(d.prefix_matches("a\tb").is_empty());
}

#[test]
fn prefix_matches_probes_prefixes() {
    let mut d = UserDict::default();
    d.record_pick("ni", "你", None);
    d.record_pick("nihao", "你好", None);
    let m = d.prefix_matches("nihaoma");
    assert_eq!((m[0].0, m[0].1), (5, "你好"));
    assert_eq!((m[1].0, m[1].1), (2, "你"));
    assert!(d.prefix_matches("hao").is_empty());
}

#[test]
fn prefix_matches_are_bounded() {
    let mut d = UserDict::default();
    for (py, w) in [("n", "一"), ("n", "二"), ("n", "三"), ("ni", "四"), ("nih", "五"), ("niha", "六")] {
        d.record_pick(py, w, None);
    }
    d.record_pick("N", "三", None);
    let m = d.prefix_matches("nihao");
    // Two per prefix, four in all, the longest prefixes first.
    assert_eq!(m.iter().map(|x| (x.0, x.1, x.2)).collect::<Vec<_>>(), vec![
        (4, "六", 1),
        (3, "五", 1),
        (2, "四", 1),
        (1, "三", 2),
    ]);
    assert!(d.prefix_matches("nǐ").is_empty());
}

#[test]
fn untrained_until_a_pick() {
    let mut d = UserDict::default();
    assert!(d.is_untrained());
    d.record_follow("你", "好");
    assert!(d.is_untrained());
    d.record_pick("ni", "你", None);
    assert!(!d.is_untrained());
}

#[test]
fn saved_text_is_loaded() {
    let mut d = UserDict::default();
    assert!(d.save_if_dirty().is_none());
    d.record_pick("NiHao", "你好", None);
    d.record_pick("nihao", "你号", Some("在吗"));
    d.record_pick("nihao", "你好", Some("在吗"));
    d.record_pick("ma", "吗", None);
    let text = d.save_if_dirty().unwrap();
    assert_eq!(
        text,
        "e\tnihao\t你好\t2\ne\tnihao\t你号\t1\ne\tma\t吗\t1\nb\t在吗\t你号\t1\nb\t在吗\t你好\t1\n"
    );
    // It stays to be saved until it was saved.
    assert_eq!(d.save_if_dirty().unwrap(), text);
    d.mark_saved();
    assert!(d.save_if_dirty().is_none());
    let mut e = UserDict::load(&text).unwrap();
    assert!(e.save_if_dirty().is_none());
    assert_eq!(e.count("你好"), 2);
    assert_eq!(e.suggestions("在吗"), vec!["你号".to_string(), "你好".to_string()]);
    e.record_pick("nihao", "你号", None);
    e.record_pick("nihao", "你号", None);
    assert_eq!(e.prefix_matches("nihao")[0].1, "你号");
}

#[test]
fn loading_skips_malformed_lines() {
    let d = UserDict::load("e\tni\t你\t3\ne\tni\t你\nx\ta\tb\t1\ne\t\tb\t1\ne\ta\t\t1\ne\ta\tb\tmany\ne\tni\t你\t2\textra\r\nb\t你\t好\t1")
        .unwrap();
    assert_eq!(d.count("你"), 5);
    assert_eq!(d.count("b"), 0);
    assert_eq!(d.suggestions("你"), vec!["好".to_string()]);
}

#[test]
fn sums_that_do_not_fit_are_refused() {
    assert!(UserDict::load("e\ta\tb\t4294967295\n").is_some());
    assert!(UserDict::load("e\ta\tb\t4294967295\ne\tc\tb\t1\n").is_none());
    assert!(UserDict::load("b\ta\tb\t4294967295\nb\ta\tb\t1\n").is_none());
    assert!(UserDict::load("b\ta\tb\t4294967295\nb\tc\tb\t1\n").is_some());
    let d = UserDict::load("e\ta\tb\t4294967295\n").unwrap();
    assert!(!d.has_room_for_pick("z", "b", None));
    assert!(d.has_room_for_pick("a", "c", None));
    assert!(d.has_room_for_follow("a", "b"));
}

#[test]
fn pruning_drops_the_lowest_counts() {
    let mut text = String::new();
    for i in 0..MAX_ENTRIES {
        text.push_str(&format!("e\tk{i}\t词{i}\t1\n"));
    }
    text.push_str("e\tlast\t末\t7\n");
    let mut d = UserDict::load(&text).unwrap();
    d.record_follow("a", "b");
    let saved = d.save_if_dirty().unwrap();
    assert_eq!(saved.lines().filter(|l| l.starts_with("e\t")).count(), MAX_ENTRIES);
    assert_eq!(d.count("末"), 7);
    assert_eq!(d.count("词0"), 1);
    assert_eq!(d.count(&format!("词{}", MAX_ENTRIES - 1)), 0);
    // What is in memory is what the next load sees.
    let e = UserDict::load(&saved).unwrap();
    assert_eq!(e.count("末"), 7);
    assert_eq!(e.count("词0"), 1);
}

#[test]
fn suggestions_are_bounded_and_ranked() {
    let mut d = UserDict::default();
    for w in ["一", "二", "三", "四", "五", "六", "七"] {
        d.record_follow("零", w);
    }
    d.record_follow("零", "七");
    let s = d.suggestions("零");
    assert_eq!(s, vec!["七", "一", "二", "三", "四", "五"]);
}

#[test]
fn clean_texts() {
    assert!(clean("你好"));
    assert!(!clean(""));
    assert!(!clean("a\tb"));
    assert!(!clean("a\nb"));
    assert!(!clean("a\rb"));
}
