//! Deciding about updates.

use std::io::Write;

use fastrans::update::{
    accept, check, extract_tag, latest_url, next_swap, parse_ver, unpack, Swap, UpdateError, MAX_DOWNLOAD, MIN_PROGRAM,
};

#[test]
fn parses_release_json() {
    assert_eq!(
        extract_tag(r#"{"url":"x","tag_name":"v0.1.1","name":"y"}"#).as_deref(),
        Some("v0.1.1")
    );
    assert_eq!(
        extract_tag("{\n  \"tag_name\": \"v1.2.3\",\n}").as_deref(),
        Some("v1.2.3")
    );
    assert_eq!(extract_tag("{}"), None);
}

#[test]
fn compares_versions() {
    assert_eq!(parse_ver("0.1.0"), Some((0, 1, 0)));
    assert!(parse_ver("0.10.2") > parse_ver("0.9.9"));
    assert_eq!(parse_ver("1.2"), None);
    assert_eq!(parse_ver("1.2.3.4"), None);
}

#[test]
fn odd_versions_and_tags() {
    assert_eq!(parse_ver("1.2.x"), None);
    assert_eq!(parse_ver("1..3"), None);
    assert_eq!(parse_ver("4294967295.0.0"), Some((4294967295, 0, 0)));
    assert_eq!(parse_ver("4294967296.0.0"), None);
    assert_eq!(extract_tag("\"tag_name\""), None);
    assert_eq!(extract_tag("\"tag_name\":"), None);
    assert_eq!(extract_tag("\"tag_name\":\"v1"), None);
    assert_eq!(extract_tag("\"tag_name\":\"\"").as_deref(), Some(""));
}

#[test]
fn newer_releases_are_fetched() {
    let r = check(r#"{"tag_name":"v0.2.0"}"#, "0.1.9");
    match r {
        Ok(Some(rel)) => {
            assert_eq!(rel.tag, "v0.2.0");
            assert_eq!(
                rel.url,
                "https://github.com/YSKM523/fastrans/releases/download/v0.2.0/fastrans.exe.gz"
            );
        }
        _ => panic!("a newer release"),
    }
    assert!(matches!(check(r#"{"tag_name":"v0.1.9"}"#, "0.1.9"), Ok(None)));
    assert!(matches!(check(r#"{"tag_name":"v0.1.8"}"#, "0.1.9"), Ok(None)));
    assert!(matches!(check(r#"{"tag_name":"vv1.0.0"}"#, "0.1.9"), Ok(Some(_))));
    assert!(matches!(check("{}", "0.1.9"), Err(UpdateError::NoTag)));
    match check(r#"{"tag_name":"nightly"}"#, "0.1.9") {
        Err(UpdateError::BadTag(t)) => assert_eq!(t, "nightly"),
        _ => panic!("a bad tag"),
    }
    assert_eq!(latest_url(), "https://api.github.com/repos/YSKM523/fastrans/releases/latest");
}

fn gzip(bytes: &[u8]) -> Vec<u8> {
    let mut e = flate2::write::GzEncoder::new(Vec::new(), flate2::Compression::fast());
    e.write_all(bytes).unwrap();
    e.finish().unwrap()
}

#[test]
fn downloads_are_unpacked_and_checked() {
    let mut program = vec![0u8; MIN_PROGRAM];
    program[0] = b'M';
    program[1] = b'Z';
    let gz = gzip(&program);
    assert!(gz.len() < program.len());
    match unpack(&gz) {
        Ok(p) => assert!(p == program),
        Err(_) => panic!("the program"),
    }
    let mut other = program.clone();
    other[1] = b'A';
    assert!(matches!(unpack(&gzip(&other)), Err(UpdateError::WrongPayload)));
    assert!(matches!(unpack(&gzip(b"MZ")), Err(UpdateError::WrongPayload)));
    assert!(matches!(unpack(b"MZ"), Err(UpdateError::BadArchive(_))));
    assert!(matches!(unpack(&gz[..gz.len() - 1]), Err(UpdateError::BadArchive(_))));
    // Trailing bytes do not matter, as long as the download is not too large.
    let mut padded = gz.clone();
    padded.resize(MAX_DOWNLOAD as usize, 0);
    match unpack(&padded) {
        Ok(p) => assert!(p == program),
        Err(_) => panic!("the program"),
    }
    padded.push(0);
    assert!(matches!(unpack(&padded), Err(UpdateError::TooLarge)));
}

#[test]
fn only_programs_are_accepted() {
    let mut p = vec![7u8; MIN_PROGRAM];
    p[0] = 77;
    p[1] = 90;
    assert!(accept(p.clone()).is_ok());
    p.pop();
    assert!(matches!(accept(p), Err(UpdateError::WrongPayload)));
    assert!(matches!(accept(vec![0u8; MIN_PROGRAM]), Err(UpdateError::WrongPayload)));
}

#[test]
fn a_failed_swap_is_rolled_back() {
    let mut s = Swap::Stage;
    for _ in 0..4 {
        s = next_swap(s, true);
    }
    assert!(s == Swap::Updated);
    // The old leftover need not be there.
    assert!(next_swap(Swap::Clear, false) == Swap::SetAside);
    assert!(next_swap(Swap::Stage, false) == Swap::Failed);
    assert!(next_swap(Swap::SetAside, false) == Swap::Failed);
    assert!(next_swap(Swap::MoveIn, false) == Swap::RollBack);
    assert!(next_swap(Swap::RollBack, true) == Swap::Failed);
    assert!(next_swap(Swap::RollBack, false) == Swap::Failed);
    assert!(next_swap(Swap::Updated, false) == Swap::Updated);
}
