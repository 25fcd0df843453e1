//! Settings.

use fastrans::config::{last_position, load, save, Settings};

#[test]
fn first_launch() {
    let (s, pos) = load("");
    assert!(s.pinyin && s.autoupdate && s.style);
    assert!(s.hotkey.is_none());
    assert!(pos.is_empty());
}

#[test]
fn reads_settings() {
    let (s, pos) = load("  pinyin= 0 \r\nautoupdate=no\nstyle=0\nhotkey= ctrl+e \npos= 10 , -20.5\nnonsense\nother=1\npinyin =1\n");
    assert!(!s.pinyin);
    assert!(s.autoupdate);
    assert!(!s.style);
    assert_eq!(s.hotkey.as_deref(), Some("ctrl+e"));
    assert_eq!(pos, vec![("10".to_string(), "-20.5".to_string())]);
}

#[test]
fn later_lines_win() {
    let (s, pos) = load("pinyin=0\npinyin=1\nhotkey=a\nhotkey=\npos=1,2\npos=3\npos=x,y\n");
    assert!(s.pinyin);
    assert_eq!(s.hotkey.as_deref(), Some("a"));
    assert_eq!(pos.len(), 2);
    let ok: Vec<bool> = pos
        .iter()
        .map(|(x, y)| x.parse::<f32>().is_ok() && y.parse::<f32>().is_ok())
        .collect();
    assert_eq!(last_position(&ok), Some(0));
    assert_eq!(last_position(&vec![false]), None);
    assert_eq!(last_position(&vec![true, false, true]), Some(2));
}

#[test]
fn saved_settings_are_loaded() {
    let s = Settings { pinyin: false, autoupdate: true, style: false, hotkey: Some("win+`".to_string()) };
    let text = save(&s, Some(("-7", "12")));
    assert_eq!(text, "pinyin=0\nautoupdate=1\nstyle=0\nhotkey=win+`\npos=-7,12\n");
    let (t, pos) = load(&text);
    assert!(!t.pinyin && t.autoupdate && !t.style);
    assert_eq!(t.hotkey, s.hotkey);
    assert_eq!(pos, vec![("-7".to_string(), "12".to_string())]);
    // Positions are written in whole numbers, those just below zero as -0.
    let (_, pos) = load(&save(&s, Some(("-0", "340282346638528859811704183484516925440"))));
    assert_eq!(pos, vec![("-0".to_string(), "340282346638528859811704183484516925440".to_string())]);
    assert_eq!(save(&Settings::default(), None), "pinyin=1\nautoupdate=1\nstyle=1\n");
}
