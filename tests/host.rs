use blocklist_merge::host::Host;
use blocklist_merge::hostset::HostSet;
use std::cmp::Ordering;

fn host(s: &str) -> Host {
    Host::try_from(s.to_owned()).unwrap()
}

fn names(set: &HostSet) -> Vec<String> {
    set.hosts().iter().map(|h| h.as_str().to_owned()).collect()
}

#[test]
fn host_try_from() {
    Host::try_from("fish.com".to_owned()).unwrap();
    assert!(Host::try_from("  fish".to_owned()).is_err());
    assert!(Host::try_from("fish ".to_owned()).is_err());
    assert!(Host::try_from("fi sh".to_owned()).is_err());
    assert!(Host::try_from("".to_owned()).is_err());
}

#[test]
fn valid_host_keeps_its_text() {
    for s in ["fish.com", "a", "xn--bcher-kva.example", "UPPER.Example", "bücher.de", "a@b"] {
        assert_eq!(Host::try_from(s.to_owned()).unwrap().as_str(), s);
    }
}

#[test]
fn invalid_host_characters() {
    for s in ["a/b", "a\"b", "tab\there", "line\nfeed", "wide\u{3000}space", "nb\u{a0}sp", "/"] {
        let e = Host::try_from(s.to_owned()).unwrap_err();
        assert_eq!(e.value, s);
    }
}

#[test]
fn host_error_message() {
    let e = Host::try_from("fi sh".to_owned()).unwrap_err();
    assert_eq!(e.message(), "fi sh is not a valid domain name");
}

#[test]
fn host_compare_is_str_order() {
    let pairs = [("a", "b"), ("a", "ab"), ("b", "ab"), ("Z", "a"), ("z", "é"), ("same", "same")];
    for (x, y) in pairs {
        assert_eq!(host(x).compare(&host(y)), x.cmp(y));
    }
    assert_eq!(host("b").compare(&host("a")), Ordering::Greater);
}

#[test]
fn host_set_sorts_and_dedups() {
    let set = HostSet::from_hosts(vec![host("c.example"), host("a.example"), host("c.example"), host("b.example"), host("a.example")]);
    assert_eq!(names(&set), vec!["a.example", "b.example", "c.example"]);
    assert_eq!(set.len(), 3);
    assert!(set.contains(&host("b.example")));
    assert!(!set.contains(&host("d.example")));
}

#[test]
fn host_set_empty() {
    let set = HostSet::new();
    assert_eq!(set.len(), 0);
    assert!(!set.contains(&host("a")));
    assert!(names(&HostSet::from_hosts(Vec::new())).is_empty());
}

#[test]
fn host_set_union() {
    let a = HostSet::from_hosts(vec![host("a"), host("c"), host("e")]);
    let b = HostSet::from_hosts(vec![host("b"), host("c"), host("f")]);
    assert_eq!(names(&a.union(&b)), vec!["a", "b", "c", "e", "f"]);
    assert_eq!(names(&a.union(&HostSet::new())), vec!["a", "c", "e"]);
}

#[test]
fn host_set_many() {
    let v: Vec<Host> = (0..500).rev().map(|i| host(&format!("h{:04}.example", i % 250))).collect();
    let set = HostSet::from_hosts(v);
    assert_eq!(set.len(), 250);
    let n = names(&set);
    assert_eq!(n[0], "h0000.example");
    assert_eq!(n[249], "h0249.example");
}

#[test]
fn host_equality_is_name_equality() {
    assert!(host("a.example") == host("a.example"));
    assert!(host("a.example") != host("A.example"));
    assert!(host("a.example").copy() == host("a.example"));
}
