use blocklist_merge::host::Host;
use blocklist_merge::parser::{resolve_all, scan_blocklist, IpKind, Line, ParseError};

fn entry(l: &Line) -> (Option<String>, String) {
    match l {
        Line::Entry { ip, host } => (ip.clone(), host.clone()),
        Line::Unmatched { text } => panic!("unmatched line {}", text),
    }
}

fn one(text: &str) -> Line {
    let mut v = scan_blocklist(text);
    assert_eq!(v.len(), 1);
    v.pop().unwrap()
}

fn ok_name(r: Option<Result<Host, ParseError>>) -> String {
    r.unwrap().unwrap().as_str().to_owned()
}

#[test]
fn comment_and_blank_lines_yield_nothing() {
    assert!(scan_blocklist("# comment").is_empty());
    assert!(scan_blocklist("   \t ").is_empty());
    assert!(scan_blocklist("").is_empty());
    assert!(scan_blocklist("\n\n  # x\n\r\n").is_empty());
}

#[test]
fn loopback_line_is_skipped() {
    let l = one("127.0.0.1 tracker.example");
    assert_eq!(entry(&l), (Some("127.0.0.1".to_owned()), "tracker.example".to_owned()));
    assert_eq!(l.ip(), Some("127.0.0.1"));
    assert!(l.resolve(IpKind::Loopback).is_none());
}

#[test]
fn unspecified_line_gives_host() {
    let l = one("0.0.0.0 tracker.example");
    assert_eq!(ok_name(l.resolve(IpKind::Unspecified)), "tracker.example");
}

#[test]
fn other_ip_is_suspicious() {
    let l = one("10.0.0.1 tracker.example");
    match l.resolve(IpKind::Other) {
        Some(Err(ParseError::SuspiciousIp { ip })) => assert_eq!(ip, "10.0.0.1"),
        other => panic!("{:?}", other),
    }
}

#[test]
fn malformed_ip_is_an_error() {
    let l = one("999.1 tracker.example");
    let e = l.resolve(IpKind::Malformed).unwrap().unwrap_err();
    assert_eq!(e.message(), "Malformed ip: 999.1");
}

#[test]
fn bare_host_line() {
    let l = one("tracker.example");
    assert_eq!(l.ip(), None);
    assert_eq!(ok_name(l.resolve(IpKind::Other)), "tracker.example");
}

#[test]
fn unmatched_line_keeps_text() {
    let l = one("not a valid@line");
    match &l {
        Line::Unmatched { text } => assert_eq!(text, "not a valid@line"),
        _ => panic!("expected an unmatched line"),
    }
    let e = l.resolve(IpKind::Unspecified).unwrap().unwrap_err();
    assert_eq!(e.message(), "Failed parsing blocklist entry \"not a valid@line\"");
}

#[test]
fn unmatched_line_loses_comment_only() {
    let l = one("  a b c  # trailing");
    match &l {
        Line::Unmatched { text } => assert_eq!(text, "  a b c  "),
        _ => panic!("expected an unmatched line"),
    }
}

#[test]
fn invalid_host_word() {
    let l = one("0.0.0.0 \"quoted\"");
    match l.resolve(IpKind::Unspecified) {
        Some(Err(ParseError::InvalidHost { error })) => {
            assert_eq!(error.value, "\"quoted\"");
        }
        other => panic!("{:?}", other),
    }
    let e = one("a/b").resolve(IpKind::Unspecified).unwrap().unwrap_err();
    assert_eq!(e.message(), "a/b is not a valid domain name");
}

#[test]
fn lines_comments_and_crlf() {
    let v = scan_blocklist("a.example\r\n  0.0.0.0\tb.example  # c\n#x\n\nc.example");
    let got: Vec<(Option<String>, String)> = v.iter().map(entry).collect();
    assert_eq!(
        got,
        vec![
            (None, "a.example".to_owned()),
            (Some("0.0.0.0".to_owned()), "b.example".to_owned()),
            (None, "c.example".to_owned()),
        ]
    );
}

#[test]
fn resolve_all_keeps_order_and_drops_loopback() {
    let lines = scan_blocklist("127.0.0.1 x\n0.0.0.0 a\nb c d\n::1 y\nz\n");
    let kinds = vec![IpKind::Loopback, IpKind::Unspecified, IpKind::Other, IpKind::Loopback, IpKind::Other];
    let r = resolve_all(&lines, &kinds);
    assert_eq!(r.len(), 3);
    assert_eq!(r[0].as_ref().unwrap().as_str(), "a");
    assert!(matches!(&r[1], Err(ParseError::Unmatched { line }) if line == "b c d"));
    assert_eq!(r[2].as_ref().unwrap().as_str(), "z");
}
