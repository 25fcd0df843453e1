//! Hotkey specs and registration.

use fastrans::hotkey::{fallback_specs, key_code, parse, single_char_code, HotKeyError, Refusal, Registration};
use global_hotkey::hotkey::{Code, HotKey, Modifiers};

#[test]
fn parses_common_specs() {
    for spec in fallback_specs() {
        assert!(parse(spec).is_ok());
    }
    assert!(parse("ctrl+shift+f9").is_ok());
    assert!(parse("win+`").is_ok());
    assert!(parse("ctrl+alt").is_err());
    assert!(parse("ctrl+q+w").is_err());
    assert!(parse("ctrl+kp0").is_err());
}

#[test]
fn parts_of_specs() {
    let Ok(h) = parse(" Control + ALT+Space") else {
        panic!("a hotkey");
    };
    assert!(h.ctrl && h.alt && !h.shift && !h.meta);
    assert_eq!(h.code, "Space");
    let Ok(h) = parse("cmd+shift+return") else {
        panic!("a hotkey");
    };
    assert!(!h.ctrl && !h.alt && h.shift && h.meta);
    assert_eq!(h.code, "Enter");
    let Ok(h) = parse("f12") else {
        panic!("a hotkey");
    };
    assert!(!h.ctrl && !h.alt && !h.shift && !h.meta);
    assert_eq!(h.code, "F12");
}

#[test]
fn errors_of_specs() {
    assert!(matches!(parse("ctrl+alt"), Err(HotKeyError::NoKey)));
    assert!(matches!(parse("q+w+kp0"), Err(HotKeyError::ManyKeys)));
    match parse("ctrl+KP0") {
        Err(HotKeyError::UnknownKey(k)) => assert_eq!(k, "kp0"),
        _ => panic!("an unknown key"),
    }
    match parse("") {
        Err(HotKeyError::UnknownKey(k)) => assert_eq!(k, ""),
        _ => panic!("an unknown key"),
    }
}

#[test]
fn codes_of_keys() {
    assert_eq!(single_char_code("a").as_deref(), Some("KeyA"));
    assert_eq!(single_char_code("z").as_deref(), Some("KeyZ"));
    assert_eq!(single_char_code("7").as_deref(), Some("Digit7"));
    assert_eq!(single_char_code("`").as_deref(), Some("Backquote"));
    assert_eq!(single_char_code("A"), None);
    assert_eq!(single_char_code("ab"), None);
    assert_eq!(single_char_code(""), None);
    for (name, code) in [("space", "Space"), ("enter", "Enter"), ("tab", "Tab"), ("grave", "Backquote"), ("f1", "F1")] {
        assert_eq!(key_code(name).ok().as_deref(), Some(code));
    }
    assert!(key_code("f13").is_err());
}

#[test]
fn numbers_of_hotkeys() {
    let Ok(h) = parse("ctrl+alt+space") else {
        panic!("a hotkey");
    };
    assert_eq!(h.id, HotKey::new(Some(Modifiers::CONTROL | Modifiers::ALT), Code::Space).id());
    let Ok(h) = parse("shift+win+e") else {
        panic!("a hotkey");
    };
    assert_eq!(h.id, HotKey::new(Some(Modifiers::SHIFT | Modifiers::META), Code::KeyE).id());
    let Ok(h) = parse("f9") else {
        panic!("a hotkey");
    };
    assert_eq!(h.id, HotKey::new(None, Code::F9).id());
}

#[test]
fn registration_walks_the_specs() {
    let mut r = Registration::new(Some("Ctrl+Nothing"));
    let (h, s) = r.next().unwrap();
    assert_eq!(s, "ctrl+alt+space");
    assert_eq!(h.code, "Space");
    r.refused("taken");
    let (_, s) = r.next().unwrap();
    assert_eq!(s, "ctrl+shift+space");
    r.refused("taken too");
    let (h, s) = r.next().unwrap();
    assert_eq!(s, "ctrl+alt+e");
    assert_eq!(h.code, "KeyE");
    r.refused("gone");
    assert!(r.next().is_none());
    let f = r.into_failures();
    assert_eq!(f.len(), 4);
    assert_eq!(f[0].0, "ctrl+nothing");
    assert!(matches!(&f[0].1, Refusal::Spec(HotKeyError::UnknownKey(k)) if k == "nothing"));
    assert_eq!(f[3].0, "ctrl+alt+e");
    assert!(matches!(&f[3].1, Refusal::System(w) if w == "gone"));
}

#[test]
fn preferred_hotkey_comes_first() {
    let mut r = Registration::new(Some("Win+F5"));
    let (h, s) = r.next().unwrap();
    assert_eq!(s, "win+f5");
    assert_eq!(h.code, "F5");
    assert!(h.meta);
    let mut r = Registration::new(None);
    assert_eq!(r.next().unwrap().1, "ctrl+alt+space");
}
