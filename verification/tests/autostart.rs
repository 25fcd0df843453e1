//! Launching at login.

use fastrans::autostart::{
    exe_command, from_wide, is_enabled, run_key, stored_bytes, value_name, wide, REG_SZ,
};

#[test]
fn wide_texts() {
    assert_eq!(wide(""), vec![0]);
    assert_eq!(wide("aé"), vec![0x61, 0xe9, 0]);
    let s = "a中😀";
    let mut w: Vec<u16> = s.encode_utf16().collect();
    assert_eq!(from_wide(&w), s);
    w.push(0);
    assert_eq!(wide(s), w);
}

#[test]
fn broken_pairs_are_replaced() {
    for u in [
        vec![0xd800],
        vec![0xdc00, 0x41],
        vec![0xd83d, 0xd83d, 0xde00],
        vec![0xd83d, 0x41],
        vec![0xffff, 0xe000],
    ] {
        assert_eq!(from_wide(&u), String::from_utf16_lossy(&u));
    }
}

#[test]
fn stored_command_is_found() {
    let cmd = exe_command("C:\\程序\\fastrans.exe");
    assert_eq!(cmd, "\"C:\\程序\\fastrans.exe\"");
    let bytes = stored_bytes(&cmd);
    assert_eq!(&bytes[..4], &[0x22, 0, 0x43, 0]);
    assert_eq!(bytes.len(), 2 * (cmd.chars().count() + 1));
    assert!(is_enabled(Some((REG_SZ, &bytes)), Some(&cmd)));
    assert!(is_enabled(Some((REG_SZ, &bytes)), Some(&cmd.to_uppercase())));
    // What stands behind the zero does not count.
    let mut more = bytes.clone();
    more.extend_from_slice(&[0x41, 0, 0x42]);
    assert!(is_enabled(Some((REG_SZ, &more)), Some(&cmd)));
    assert!(!is_enabled(Some((3, &bytes)), Some(&cmd)));
    assert!(!is_enabled(Some((REG_SZ, &bytes)), Some("other")));
    assert!(!is_enabled(Some((REG_SZ, &bytes)), None));
    assert!(!is_enabled(None, Some(&cmd)));
}

#[test]
fn a_zero_character_ends_the_command() {
    let cmd = exe_command("C:\\fast\0rans.exe");
    let bytes = stored_bytes(&cmd);
    assert!(!is_enabled(Some((REG_SZ, &bytes)), Some(&cmd)));
    assert!(is_enabled(Some((REG_SZ, &bytes)), Some("\"C:\\fast")));
}

#[test]
fn switching() {
    assert!(fastrans::autostart::set(true, Some(0)));
    assert!(!fastrans::autostart::set(true, Some(2)));
    assert!(fastrans::autostart::set(false, Some(0)));
    assert!(fastrans::autostart::set(false, Some(2)));
    assert!(!fastrans::autostart::set(false, Some(5)));
    assert!(!fastrans::autostart::set(true, None));
    assert!(!fastrans::autostart::set(false, None));
    assert_eq!(run_key(), "Software\\Microsoft\\Windows\\CurrentVersion\\Run");
    assert_eq!(value_name(), "fastrans");
}
