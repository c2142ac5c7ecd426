use crawlify::frontier::Frontier;
use crawlify::models::CrawlMethod;
use crawlify::models::Scope;
use crawlify::urls::parse_url_parts;

fn scope_with_pattern(pattern: &str) -> Scope {
    Scope {
        id: 1,
        pattern: pattern.to_string(),
        method: CrawlMethod::DEFAULT,
        keywords: None,
        is_active: true,
        last_crawled_at: None,
        created_at: 0,
    }
}

#[test]
fn add_marks_seen_and_readd_is_noop() {
    let mut f = Frontier::new();
    let scope = scope_with_pattern("https://h1.example/*");
    let u = parse_url_parts("https://h1.example/a").unwrap();
    f.add_url(&u, &scope, false);
    assert_eq!(f.size(), 1);
    f.add_url(&u, &scope, false);
    assert_eq!(f.size(), 1);
    let got = f.get_next_url(0).unwrap();
    assert_eq!(got, "https://h1.example/a");
    // the URL stays seen: adding it again stays a no-op
    f.add_url(&u, &scope, false);
    assert_eq!(f.size(), 0);
    assert!(f.get_next_url(10_000).is_none());
}

#[test]
fn politeness_at_most_one_pop_per_host_within_delay() {
    let mut f = Frontier::new();
    let scope = scope_with_pattern("https://h1/*");
    let a = parse_url_parts("https://h1/a").unwrap();
    let b = parse_url_parts("https://h1/b").unwrap();
    let c = parse_url_parts("https://h2/c").unwrap();
    f.add_url(&a, &scope, false);
    f.add_url(&b, &scope, false);
    f.add_url(&c, &scope, false);
    assert_eq!(f.size(), 3);

    let mut h1_pops_in_window = 0;
    for _ in 0..3 {
        if let Some(u) = f.get_next_url(0) {
            if u.starts_with("https://h1/") {
                h1_pops_in_window += 1;
            }
        }
    }
    assert_eq!(h1_pops_in_window, 1);
    // once the delay has elapsed, the second h1 URL comes out
    let u = f.get_next_url(1000).unwrap();
    assert!(u.starts_with("https://h1/"));
    assert_eq!(f.size(), 0);
}

#[test]
fn priority_ordering_internal_short_path_first() {
    let mut f = Frontier::new();
    let scope = scope_with_pattern("https://h/*");
    let internal = parse_url_parts("https://h/x").unwrap();
    let external = parse_url_parts("https://other/y/very/long/path/segment").unwrap();
    f.add_url(&external, &scope, false);
    f.add_url(&internal, &scope, false);
    let first = f.get_next_url(0).unwrap();
    assert_eq!(first, "https://h/x");
}

#[test]
fn pop_on_empty_and_gated_frontier_returns_none() {
    let mut f = Frontier::new();
    assert!(f.get_next_url(0).is_none());
    let scope = scope_with_pattern("https://h/*");
    let u = parse_url_parts("https://h/x").unwrap();
    f.add_url(&u, &scope, false);
    assert!(f.get_next_url(5).is_some());
    // the same host is now within the politeness delay
    let v = parse_url_parts("https://h/y").unwrap();
    f.add_url(&v, &scope, false);
    assert!(f.get_next_url(900).is_none());
    assert!(f.get_next_url(1005).is_some());
}

#[test]
fn sitemap_bonus_orders_ahead_of_plain_external() {
    let mut f = Frontier::new();
    let scope = scope_with_pattern("https://h/*");
    let plain = parse_url_parts("https://a/something/rather/longish/path/x").unwrap();
    let site = parse_url_parts("https://b/something/rather/longish/path/y").unwrap();
    f.add_url(&plain, &scope, false);
    f.add_url(&site, &scope, true);
    assert_eq!(f.get_next_url(0).unwrap(), "https://b/something/rather/longish/path/y");
}

#[test]
fn snapshot_roundtrip_restores_seen_size_and_queues() {
    let mut f = Frontier::new();
    let scope = scope_with_pattern("https://h1/*");
    let a = parse_url_parts("https://h1/a").unwrap();
    let b = parse_url_parts("https://h1/longer/path/than/twenty/chars").unwrap();
    let c = parse_url_parts("https://h2/c").unwrap();
    f.add_url(&a, &scope, false);
    f.add_url(&b, &scope, false);
    f.add_url(&c, &scope, true);
    // pop one so the seen-set is larger than the queues
    let popped = f.get_next_url(0).unwrap();
    assert_eq!(f.size(), 2);

    let snap = f.snapshot();
    let mut g = Frontier::from_snapshot(&snap).expect("snapshot must load");
    assert_eq!(g.size(), 2);
    // the popped URL is still seen: adding it again is a no-op
    let popped_parts = parse_url_parts(&popped).unwrap();
    g.add_url(&popped_parts, &scope, false);
    assert_eq!(g.size(), 2);
    // the queues hold the same URLs; politeness timers are reset
    let mut remaining = Vec::new();
    while let Some(u) = g.get_next_url(u64::MAX - 2000) {
        remaining.push(u);
    }
    remaining.sort();
    let mut expected = Vec::new();
    while let Some(u) = f.get_next_url(u64::MAX - 2000) {
        expected.push(u);
    }
    expected.sort();
    assert_eq!(remaining, expected);
}

#[test]
fn byte_blob_roundtrip_restores_the_frontier() {
    let mut f = Frontier::new();
    let scope = scope_with_pattern("https://h1/*");
    for u in ["https://h1/a", "https://h1/b", "https://h2/c?x=%C3%A9"] {
        let p = parse_url_parts(u).unwrap();
        f.add_url(&p, &scope, false);
    }
    let blob = f.save_state();
    let mut g = Frontier::load_state(&blob).expect("a saved blob must load");
    assert_eq!(g.size(), 3);
    let mut a = Vec::new();
    while let Some(u) = f.get_next_url(u64::MAX - 2000) {
        a.push(u);
    }
    let mut b = Vec::new();
    while let Some(u) = g.get_next_url(u64::MAX - 2000) {
        b.push(u);
    }
    a.sort();
    b.sort();
    assert_eq!(a, b);
    // garbage bytes are rejected
    assert!(Frontier::load_state(&vec![1u8, 2, 3]).is_none());
}

#[test]
fn corrupt_snapshot_is_rejected() {
    let mut f = Frontier::new();
    let scope = scope_with_pattern("https://h1/*");
    let a = parse_url_parts("https://h1/a").unwrap();
    f.add_url(&a, &scope, false);
    let mut snap = f.snapshot();
    // a queued URL missing from the seen list must be rejected
    snap.seen.clear();
    assert!(Frontier::from_snapshot(&snap).is_none());

    let snap2 = f.snapshot();
    let mut snap3 = f.snapshot();
    snap3.hosts.extend(snap2.hosts);
    // a repeated host name must be rejected
    assert!(Frontier::from_snapshot(&snap3).is_none());
}

#[test]
fn capacity_cap_makes_additions_silent_noops() {
    // a miniature of the hard cap: the millionth-and-first add is
    // dropped with the size unchanged
    let mut f = Frontier::new();
    let scope = scope_with_pattern("https://h/*");
    let mut i: u64 = 0;
    while f.size() < crawlify::frontier::MAX_QUEUE_SIZE {
        let u = parse_url_parts(&format!("https://h/{}", i)).unwrap();
        f.add_url(&u, &scope, false);
        i += 1;
    }
    assert_eq!(f.size(), crawlify::frontier::MAX_QUEUE_SIZE);
    let over = parse_url_parts("https://h/overflow").unwrap();
    f.add_url(&over, &scope, false);
    assert_eq!(f.size(), crawlify::frontier::MAX_QUEUE_SIZE);
    // and the dropped URL was not recorded as seen: after a pop it
    // can be admitted
    assert!(f.get_next_url(0).is_some());
    assert_eq!(f.size(), crawlify::frontier::MAX_QUEUE_SIZE - 1);
    f.add_url(&over, &scope, false);
    assert_eq!(f.size(), crawlify::frontier::MAX_QUEUE_SIZE);
}
