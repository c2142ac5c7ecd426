use crawlify::deduplication::find_near;
use crawlify::deduplication::hamming_distance;
use crawlify::deduplication::is_near_duplicate;
use crawlify::deduplication::sim_hash;
use crawlify::deduplication::text_hash;
use crawlify::strutil::u64_to_dec;
use crawlify::strutil::u64_to_hex;
use crawlify::urls::canonicalize_url;
use crawlify::urls::parse_url_parts;
use crawlify::urls::join_url;

#[test]
fn canonical_form_of_mixed_case_url() {
    let p = parse_url_parts("HTTP://Example.COM/a?b=2&a=1#frag").unwrap();
    let c = canonicalize_url(&p);
    assert_eq!(c.serialized, "http://example.com/a?a=1&b=2");
    assert_eq!(c.host, "example.com");
    assert!(c.fragment.is_none());
    assert_eq!(c.query.as_deref(), Some("a=1&b=2"));
}

#[test]
fn canonicalize_is_idempotent_at_runtime() {
    let p = parse_url_parts("https://EXAMPLE.org/path?z=9&a=1&m=5#x").unwrap();
    let once = canonicalize_url(&p);
    let twice = canonicalize_url(&once);
    assert_eq!(once.serialized, twice.serialized);
    assert_eq!(once.host, twice.host);
    assert_eq!(once.query, twice.query);
}

#[test]
fn canonicalize_drops_empty_query() {
    let p = parse_url_parts("https://example.org/path?#frag").unwrap();
    let c = canonicalize_url(&p);
    assert!(c.query.is_none());
    assert_eq!(c.serialized, "https://example.org/path");
}

#[test]
fn canonicalize_renders_valueless_keys() {
    let p = parse_url_parts("https://example.org/p?flag&b=1").unwrap();
    let c = canonicalize_url(&p);
    assert_eq!(c.query.as_deref(), Some("b=1&flag="));
}

#[test]
fn canonicalize_keeps_port() {
    let p = parse_url_parts("https://example.org:8443/a?b=1").unwrap();
    let c = canonicalize_url(&p);
    assert_eq!(c.serialized, "https://example.org:8443/a?b=1");
}

#[test]
fn join_resolves_relative_reference() {
    let abs = join_url("https://h.example/dir/page", "../x?q=1").unwrap();
    assert_eq!(abs, "https://h.example/x?q=1");
    assert!(join_url("not a url", "x").is_none());
}

#[test]
fn parse_extracts_components() {
    let p = parse_url_parts("https://user.example:81/a/b?x=1#f").unwrap();
    assert_eq!(p.scheme, "https");
    assert_eq!(p.host, "user.example");
    assert_eq!(p.port, Some(81));
    assert_eq!(p.path, "/a/b");
    assert_eq!(p.query.as_deref(), Some("x=1"));
    assert_eq!(p.fragment.as_deref(), Some("f"));
    assert!(parse_url_parts("::not-a-url::").is_none());
}

#[test]
fn sim_hash_is_deterministic() {
    let text = "The quick brown crawler jumps over the lazy firewall.";
    assert_eq!(sim_hash(text), sim_hash(text));
    let other = "Entirely different words make an entirely different digest.";
    assert_eq!(sim_hash(other), sim_hash(other));
}

#[test]
fn sim_hash_of_empty_and_single_token() {
    // no tokens: every column sum is zero, so every bit is clear
    assert_eq!(sim_hash(""), 0);
    assert_eq!(sim_hash("  ,,  "), 0);
    // one token: the hash's set bits each get +1, clear bits -1,
    // so the SimHash equals the token hash itself
    let one = sim_hash("a");
    let also = sim_hash(" a ");
    assert_eq!(one, also);
    assert_ne!(one, 0);
}

#[test]
fn text_hash_matches_the_digest_and_is_deterministic() {
    let canonical = "http://example.com/a?a=1&b=2";
    assert_eq!(text_hash(canonical), text_hash(canonical));
    assert_eq!(text_hash("hello"), xxhash_rust::xxh3::xxh3_64(b"hello"));
    assert_ne!(text_hash("hello"), text_hash("hello!"));
}

#[test]
fn hamming_distance_counts_differing_bits() {
    assert_eq!(hamming_distance(0, 0), 0);
    assert_eq!(hamming_distance(0, 7), 3);
    assert_eq!(hamming_distance(0, 15), 4);
    assert_eq!(hamming_distance(u64::MAX, 0), 64);
    assert!(is_near_duplicate(0b1011, 0b1010));
    assert!(!is_near_duplicate(0, 15));
}

#[test]
fn near_duplicate_scan_over_candidates() {
    let candidates = vec![0xffff_0000_0000_0000u64, 0x0000_0000_0000_00f0u64];
    assert!(find_near(0x0000_0000_0000_00f1, &candidates));
    assert!(!find_near(0x0f0f_0f0f_0f0f_0f0f, &candidates));
    assert!(!find_near(1, &Vec::new()));
}

#[test]
fn number_rendering() {
    assert_eq!(u64_to_dec(0), "0");
    assert_eq!(u64_to_dec(90210), "90210");
    assert_eq!(u64_to_hex(255), "ff");
    assert_eq!(u64_to_hex(0xdead_beef), "deadbeef");
    assert_eq!(crawlify::strutil::i64_to_dec(-42), "-42");
}
