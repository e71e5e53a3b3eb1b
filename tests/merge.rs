use blocklist_merge::cache::Cache;
use blocklist_merge::host::Host;
use blocklist_merge::hostset::HostSet;
use blocklist_merge::merge::{Action, Event, Merger};
use blocklist_merge::output::BlocklistOutput;
use blocklist_merge::parser::{resolve_all, scan_blocklist, IpKind, ParseError};

fn host(s: &str) -> Host {
    Host::try_from(s.to_owned()).unwrap()
}

fn set(v: &[&str]) -> HostSet {
    HostSet::from_hosts(v.iter().map(|s| host(s)).collect())
}

fn names(set: &HostSet) -> Vec<String> {
    set.hosts().iter().map(|h| h.as_str().to_owned()).collect()
}

fn parse(text: &str) -> Vec<Result<Host, ParseError>> {
    let lines = scan_blocklist(text);
    let kinds: Vec<IpKind> = lines
        .iter()
        .map(|l| match l.ip() {
            Some("127.0.0.1") => IpKind::Loopback,
            Some("0.0.0.0") => IpKind::Unspecified,
            Some(_) => IpKind::Other,
            None => IpKind::Unspecified,
        })
        .collect();
    resolve_all(&lines, &kinds)
}

#[test]
fn merging_twice_is_merging_once() {
    let results = parse("a.example\nb.example\n");
    let mut once = Merger::new(set(&["z.example"]), set(&[]));
    once.absorb(&results);
    let mut twice = Merger::new(set(&["z.example"]), set(&[]));
    twice.absorb(&results);
    twice.absorb(&results);
    assert_eq!(names(once.merged()), names(twice.merged()));
    assert_eq!(names(twice.merged()), vec!["a.example", "b.example", "z.example"]);
}

#[test]
fn whitelist_wins_over_sources_blacklist_always_kept() {
    let mut m = Merger::new(set(&["bad.example"]), set(&["good.example"]));
    m.absorb(&parse("good.example\nother.example\n"));
    m.absorb(&parse("0.0.0.0 good.example\n"));
    assert_eq!(names(m.merged()), vec!["bad.example", "other.example"]);
    assert!(!m.failed());
}

#[test]
fn parse_errors_mark_failure_and_keep_the_rest() {
    let mut m = Merger::new(set(&[]), set(&[]));
    m.absorb(&parse("10.0.0.1 x.example\ny.example\nnot a valid@line\n"));
    assert!(m.failed());
    assert_eq!(names(m.merged()), vec!["y.example"]);
}

#[test]
fn event_steps() {
    let mut m = Merger::new(set(&[]), set(&[]));
    assert!(matches!(m.on_event(Event::Fetched("t".to_owned())), Action::StoreAndParse(t) if t == "t"));
    assert!(!m.failed());
    assert!(matches!(m.on_event(Event::CacheMiss), Action::Skip));
    assert!(!m.failed());
    assert!(matches!(m.on_event(Event::FetchFailed), Action::ReadCache));
    assert!(m.failed());
}

#[test]
fn cache_fallback_uses_cached_text_and_fails() {
    let mut m = Merger::new(set(&["bad.example"]), set(&[]));
    assert!(matches!(m.on_event(Event::FetchFailed), Action::ReadCache));
    let text = match m.on_event(Event::CacheHit("cached.example\n".to_owned())) {
        Action::Parse(t) => t,
        other => panic!("{:?}", other),
    };
    m.absorb(&parse(&text));
    assert!(m.failed());
    assert_eq!(names(m.merged()), vec!["bad.example", "cached.example"]);
}

#[test]
fn end_to_end_hosts_output() {
    let mut m = Merger::new(set(&["bad.example"]), set(&["good.example"]));
    let text = match m.on_event(Event::Fetched("good.example\nevil.example\n".to_owned())) {
        Action::StoreAndParse(t) => t,
        other => panic!("{:?}", other),
    };
    m.absorb(&parse(&text));
    let mut out = String::new();
    BlocklistOutput::Hosts.write_to(m.merged(), &mut out);
    assert_eq!(out, "0.0.0.0 bad.example\n0.0.0.0 evil.example\n");
    assert!(!m.failed());
}

#[test]
fn output_formats() {
    let s = set(&["b.example", "a.example"]);
    let mut out = String::new();
    BlocklistOutput::Unbound.write_to(&s, &mut out);
    assert_eq!(out, "local-zone: \"a.example\" always_nxdomain\nlocal-zone: \"b.example\" always_nxdomain\n");
    let mut out = String::from("head\n");
    BlocklistOutput::Dnsmasq.write_to(&s, &mut out);
    assert_eq!(out, "head\naddress=/a.example/\naddress=/b.example/\n");
    let mut out = String::new();
    BlocklistOutput::Hosts.write_to(&HostSet::new(), &mut out);
    assert_eq!(out, "");
}

#[test]
fn format_names() {
    assert_eq!(BlocklistOutput::from_name("unbound").unwrap(), BlocklistOutput::Unbound);
    assert_eq!(BlocklistOutput::from_name("dnsmasq").unwrap(), BlocklistOutput::Dnsmasq);
    assert_eq!(BlocklistOutput::from_name("hosts").unwrap(), BlocklistOutput::Hosts);
    let e = BlocklistOutput::from_name("Hosts").unwrap_err();
    assert_eq!(e.name, "Hosts");
    assert_eq!(e.message(), "Unknown format: Hosts, valid formats are: unbound, dnsmasq, hosts");
    assert!(BlocklistOutput::from_name("").is_err());
}

#[test]
fn cache_entry_names() {
    let c = Cache::new("/var/cache/blocklists".to_owned());
    assert_eq!(c.dir, "/var/cache/blocklists");
    assert_eq!(
        c.entry_name("https://example.com/lists/hosts.txt"),
        "https:%2F%2Fexample.com%2Flists%2Fhosts.txt"
    );
    assert_eq!(c.entry_name("http://a.com/q?x=100%"), "http:%2F%2Fa.com%2Fq?x=100%25");
    assert_eq!(c.entry_name(""), "");
}

#[test]
fn cache_entry_names_do_not_collide() {
    let c = Cache::new("cache".to_owned());
    assert_ne!(c.entry_name("http://a.com/x/y"), c.entry_name("http://a.com/x_y"));
    assert_ne!(c.entry_name("a/b"), c.entry_name("a%2Fb"));
    assert!(!c.entry_name("a/b/c").contains('/'));
}

#[test]
fn written_output_honours_lists_and_cache() {
    let mut m = Merger::new(set(&["only.black"]), set(&["white.example", "only.black"]));
    m.absorb(&parse("white.example\nkept.example\n"));
    assert!(matches!(m.on_event(Event::FetchFailed), Action::ReadCache));
    let text = match m.on_event(Event::CacheHit("0.0.0.0 cached.example\n".to_owned())) {
        Action::Parse(t) => t,
        other => panic!("{:?}", other),
    };
    m.absorb(&parse(&text));
    let mut out = String::new();
    BlocklistOutput::Dnsmasq.write_to(m.merged(), &mut out);
    assert_eq!(out, "address=/cached.example/\naddress=/kept.example/\naddress=/only.black/\n");
    assert!(m.failed());
}
