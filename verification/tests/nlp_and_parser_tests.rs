use crawlify::config::NlpConfig;
use crawlify::exporter::filter_matched_outlinks;
use crawlify::nlp::NlpProcessor;
use crawlify::parser::extract_page_data;
use crawlify::parser::HtmlToken;
use crawlify::sitemap::parse_sitemap_events;
use crawlify::sitemap::sitemap_urls_from_robots;
use crawlify::sitemap::seed_priority;
use crawlify::sitemap::XmlEvent;

fn start(name: &str, attrs: &[(&str, &str)]) -> HtmlToken {
    HtmlToken::StartTag {
        name: name.to_string(),
        attrs: attrs.iter().map(|(k, v)| (k.to_string(), v.to_string())).collect(),
    }
}

fn end(name: &str) -> HtmlToken {
    HtmlToken::EndTag { name: name.to_string() }
}

fn text(t: &str) -> HtmlToken {
    HtmlToken::Text { text: t.to_string() }
}

#[test]
fn disabled_matcher_matches_everything() {
    let p = NlpProcessor::new(&NlpConfig { enabled: false, keywords: vec![] }).unwrap();
    assert!(p.is_match("anything at all"));
    assert!(p.is_match(""));
    assert!(!p.is_enabled());
    assert_eq!(p.score_outlink("anything"), None);
}

#[test]
fn enabled_matcher_gates_by_keyword_case_insensitively() {
    let cfg = NlpConfig { enabled: true, keywords: vec!["crawler".to_string()] };
    let p = NlpProcessor::new(&cfg).unwrap();
    assert!(p.is_enabled());
    assert!(p.is_match("a polite web CRAWLER indeed"));
    assert!(!p.is_match("nothing relevant here"));
    assert_eq!(p.score_outlink("https://h/web-crawler-news"), Some(1));
    assert_eq!(p.score_outlink("https://h/cooking"), Some(0));
}

#[test]
fn keywords_are_trimmed_before_building() {
    let cfg = NlpConfig { enabled: true, keywords: vec!["  crawler  ".to_string()] };
    let p = NlpProcessor::new(&cfg).unwrap();
    assert!(p.is_match("the crawler works"));
}

#[test]
fn score_outlinks_scores_in_place_and_filter_restricts() {
    let cfg = NlpConfig { enabled: true, keywords: vec!["crawler".to_string()] };
    let p = NlpProcessor::new(&cfg).unwrap();
    let tokens = vec![
        start("a", &[("href", "/crawler-page")]),
        start("a", &[("href", "/other-page")]),
    ];
    let mut page = extract_page_data(&tokens, "https://h.example/", "");
    assert_eq!(page.outlinks.len(), 2);
    p.score_outlinks(&mut page.outlinks_with_scores);
    let exported = filter_matched_outlinks(&page.outlinks_with_scores);
    assert_eq!(exported, vec!["https://h.example/crawler-page".to_string()]);
}

#[test]
fn extraction_takes_first_title_canonical_and_dedups_links() {
    let tokens = vec![
        start("title", &[]),
        text("First "),
        text("Title"),
        end("title"),
        start("title", &[]),
        text("Second"),
        end("title"),
        start("link", &[("rel", "canonical"), ("href", "/canon")]),
        start("link", &[("rel", "canonical"), ("href", "/other-canon")]),
        start("a", &[("href", "x")]),
        start("a", &[("href", "x")]),
        start("meta", &[("property", "og:type"), ("content", "article")]),
        start("script", &[("type", "application/ld+json")]),
        text("{\"a\": 1}"),
        end("script"),
        start("script", &[("type", "application/ld+json")]),
        text("{malformed"),
        end("script"),
    ];
    let page = extract_page_data(&tokens, "https://h.example/dir/", "ignored");
    assert_eq!(page.title.as_deref(), Some("First Title"));
    assert_eq!(page.canonical_url.as_deref(), Some("https://h.example/canon"));
    assert_eq!(page.outlinks, vec!["https://h.example/dir/x".to_string()]);
    assert_eq!(page.meta, vec![("og:type".to_string(), "article".to_string())]);
    assert_eq!(page.json_ld, vec!["{\"a\":1}".to_string()]);
    assert_eq!(page.outlinks_with_scores.len(), 1);
    assert!(page.outlinks_with_scores[0].nlp_score.is_none());
}

#[test]
fn meta_json_groups_properties_and_escapes() {
    let meta = vec![
        ("og:type".to_string(), "article".to_string()),
        ("og:image".to_string(), "a.png".to_string()),
        ("og:type".to_string(), "website".to_string()),
    ];
    let json_ld = vec!["{\"a\":1}".to_string()];
    let s = crawlify::exporter::build_meta_json(&meta, &json_ld);
    assert_eq!(
        s,
        "{\"og:type\":[\"article\",\"website\"],\"og:image\":[\"a.png\"],\"json-ld\":[\"{\\\"a\\\":1}\"]}"
    );
    // the text is real JSON with the expected shape
    let v: serde_json::Value = serde_json::from_str(&s).unwrap();
    assert_eq!(v["og:type"][1], "website");
    assert_eq!(v["json-ld"][0], "{\"a\":1}");
    assert_eq!(crawlify::exporter::build_meta_json(&Vec::new(), &Vec::new()), "{}");
    // control characters become \u00XX escapes
    let meta2 = vec![("k".to_string(), "a\nb".to_string())];
    let s2 = crawlify::exporter::build_meta_json(&meta2, &Vec::new());
    assert_eq!(s2, "{\"k\":[\"a\\u000ab\"]}");
    let v2: serde_json::Value = serde_json::from_str(&s2).unwrap();
    assert_eq!(v2["k"][0], "a\nb");
}

#[test]
fn sitemap_events_yield_entries_and_skip_malformed() {
    let ev = vec![
        XmlEvent::Start { name: "urlset".to_string() },
        XmlEvent::Start { name: "url".to_string() },
        XmlEvent::Start { name: "loc".to_string() },
        XmlEvent::Text { text: "https://h.example/page1".to_string() },
        XmlEvent::Start { name: "lastmod".to_string() },
        XmlEvent::Text { text: "2024-05-01T00:00:00Z".to_string() },
        XmlEvent::End { name: "url".to_string() },
        XmlEvent::Start { name: "url".to_string() },
        XmlEvent::Start { name: "loc".to_string() },
        XmlEvent::Text { text: "not a url".to_string() },
        XmlEvent::End { name: "url".to_string() },
        XmlEvent::End { name: "urlset".to_string() },
    ];
    let entries = parse_sitemap_events(&ev);
    assert_eq!(entries.len(), 1);
    assert_eq!(entries[0].loc, "https://h.example/page1");
    assert_eq!(entries[0].lastmod.as_deref(), Some("2024-05-01T00:00:00Z"));
}

#[test]
fn robots_lines_announce_sitemaps_case_insensitively() {
    let body = "User-agent: *\nSiTeMap:  https://h.example/sitemap.xml \nDisallow: /x\nsitemap: not a url\n";
    let found = sitemap_urls_from_robots(body);
    assert_eq!(found, vec!["https://h.example/sitemap.xml".to_string()]);
}

#[test]
fn seeding_priority_prefers_recent_lastmod() {
    let now = 1_700_000_000i64;
    let recent = Some("2023-11-14T00:00:00Z".to_string());
    let old = Some("2019-01-01T00:00:00Z".to_string());
    let junk = Some("yesterday-ish".to_string());
    assert_eq!(seed_priority(&recent, now), 2);
    assert_eq!(seed_priority(&old, now), 1);
    assert_eq!(seed_priority(&junk, now), 1);
    assert_eq!(seed_priority(&None, now), 1);
}
