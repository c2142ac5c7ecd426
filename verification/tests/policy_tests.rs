use crawlify::commands::crawl_precheck;
use crawlify::commands::validate_method_value;
use crawlify::commands::no_scope_message;
use crawlify::config::Config;
use crawlify::config::HttpConfig;
use crawlify::config::NlpConfig;
use crawlify::crawler::dedup_urls;
use crawlify::crawler::same_host_outlinks;
use crawlify::crawler::should_export;
use crawlify::crawler::should_stop_discovery;
use crawlify::crawler::strip_wildcard;
use crawlify::deduplication::Deduplicator;
use crawlify::exporter::ExportPage;
use crawlify::http::conditional_headers;
use crawlify::http::ewma_update;
use crawlify::http::get_random_user_agent;
use crawlify::http::post_request_update;
use crawlify::http::pre_request_delay_ms;
use crawlify::http::retry_decision;
use crawlify::http::HostState;
use crawlify::http::RetryDecision;
use crawlify::models::CrawlMethod;
use crawlify::models::EventLevel;
use crawlify::models::Page;
use crawlify::models::StagedUrlStatus;
use crawlify::monitoring::Metrics;
use crawlify::monitoring::Monitor;
use crawlify::pdf_exporter::PdfExporter;

fn sample_page(etag: Option<&str>, last_modified: Option<&str>) -> Page {
    Page {
        id: 7,
        url: "https://h.example/u".to_string(),
        canonical_url: None,
        title: None,
        text_hash: Some("abc".to_string()),
        sim_hash: Some("def".to_string()),
        fetched_at: "2024-01-01T00:00:00Z".to_string(),
        status_code: Some(200),
        content_length: None,
        meta_json: None,
        etag: etag.map(|s| s.to_string()),
        last_modified: last_modified.map(|s| s.to_string()),
        created_at: "2024-01-01T00:00:00Z".to_string(),
    }
}

#[test]
fn empty_scopes_yield_the_exact_message() {
    let msg = crawl_precheck(&Vec::new()).unwrap();
    assert_eq!(msg, "No active scopes found. Please add a scope first.");
}

#[test]
fn conditional_get_attaches_if_none_match() {
    let page = sample_page(Some("W/\"v1\""), None);
    let headers = conditional_headers(&Some(page));
    assert_eq!(headers.len(), 1);
    assert_eq!(headers[0].0, "If-None-Match");
    assert_eq!(headers[0].1, "W/\"v1\"");

    let page2 = sample_page(Some("W/\"v1\""), Some("Tue, 01 Jan 2024 00:00:00 GMT"));
    let headers2 = conditional_headers(&Some(page2));
    assert_eq!(headers2.len(), 2);
    assert_eq!(headers2[1].0, "If-Modified-Since");
    assert!(conditional_headers(&None).is_empty());
}

#[test]
fn export_gate_rejects_duplicates_and_mismatches() {
    let d = Deduplicator::new();
    let page = sample_page(None, None);
    // the same text hash already stored: duplicate, never exported
    let dup = d.is_duplicate(&page, &vec![sample_page(None, None)], &Vec::new());
    assert!(dup);
    assert!(!should_export(true, true, dup));
    // nothing stored: exported when fetched and matched
    let fresh = d.is_duplicate(&page, &Vec::new(), &Vec::new());
    assert!(!fresh);
    assert!(should_export(true, true, fresh));
    assert!(!should_export(false, true, fresh));
    assert!(!should_export(true, false, fresh));
}

#[test]
fn retry_policy_follows_status_and_attempts() {
    assert_eq!(retry_decision(1, Some(200)), RetryDecision::ReturnResponse);
    assert_eq!(retry_decision(1, Some(404)), RetryDecision::ReturnResponse);
    assert_eq!(retry_decision(1, Some(503)), RetryDecision::RetryAfterMs(10));
    assert_eq!(retry_decision(2, None), RetryDecision::RetryAfterMs(100));
    assert_eq!(retry_decision(3, None), RetryDecision::GiveUp);
}

#[test]
fn ewma_and_pacing() {
    // alpha = 1/8: (7 * 800 + 1600) / 8 = 900
    assert_eq!(ewma_update(800, 1600), 900);
    let st = post_request_update(&None, 2000, 5000);
    assert_eq!(st.last_request_at_ms, 5000);
    assert_eq!(st.ewma_rtt_micros, 2000);
    // a first request to a host waits the host-dependent baseline
    let d0 = pre_request_delay_ms(&None, 7, 0);
    assert_eq!(d0, 3000);
    // required gap: 2 * 2000 us + (500 + 7) ms; nothing elapsed
    let d1 = pre_request_delay_ms(&Some(HostState { last_request_at_ms: 5000, ewma_rtt_micros: 2000 }), 7, 5000);
    assert_eq!(d1, 511);
    // long since the last request: no delay
    let d2 = pre_request_delay_ms(&Some(HostState { last_request_at_ms: 0, ewma_rtt_micros: 2000 }), 7, 60_000);
    assert_eq!(d2, 0);
}

#[test]
fn user_agent_pool_rotates_over_five() {
    let mut agents = Vec::new();
    for seed in 0..5u64 {
        let ua = get_random_user_agent(seed);
        assert!(ua.starts_with("Mozilla/5.0"));
        agents.push(ua);
    }
    agents.dedup();
    assert_eq!(agents.len(), 5);
    assert_eq!(get_random_user_agent(5), get_random_user_agent(0));
}

#[test]
fn wildcard_stripping_and_discovery_helpers() {
    assert_eq!(strip_wildcard("https://h/*"), "https://h");
    assert_eq!(strip_wildcard("https://h*"), "https://h");
    assert_eq!(strip_wildcard("https://h/a"), "https://h/a");
    assert!(should_stop_discovery(3));
    assert!(!should_stop_discovery(2));

    let outlinks = vec![
        "https://h/a".to_string(),
        "https://other/b".to_string(),
        "not a url".to_string(),
        "https://h/c".to_string(),
    ];
    let same = same_host_outlinks(&outlinks, "h");
    let urls: Vec<String> = same.iter().map(|u| u.serialized.clone()).collect();
    assert_eq!(urls, vec!["https://h/a".to_string(), "https://h/c".to_string()]);

    let dups = vec!["a".to_string(), "b".to_string(), "a".to_string()];
    assert_eq!(dedup_urls(&dups), vec!["a".to_string(), "b".to_string()]);
}

#[test]
fn config_concurrency_and_enums() {
    let cfg = Config {
        db_path: "db".to_string(),
        export_path: "out.jsonl".to_string(),
        http: HttpConfig {
            connect_timeout_ms: 5000,
            request_timeout_ms: 10000,
            pool_max_idle_per_host: 4,
            proxy: None,
        },
        nlp: NlpConfig { enabled: false, keywords: vec![] },
    };
    assert_eq!(cfg.get_concurrency(), (32, 1));
    assert_eq!(CrawlMethod::NLP.as_str(), "NLP");
    assert_eq!(CrawlMethod::from_name("HEADERS"), CrawlMethod::HEADERS);
    assert_eq!(CrawlMethod::from_name("bogus"), CrawlMethod::DEFAULT);
    assert_eq!(StagedUrlStatus::Processed.as_str(), "processed");
    assert_eq!(EventLevel::Error.as_str(), "ERROR");
}

#[test]
fn command_messages_and_validation() {
    assert_eq!(validate_method_value("nlp").as_deref(), Some("NLP"));
    assert_eq!(validate_method_value("Changed").as_deref(), Some("CHANGED"));
    assert!(validate_method_value("bogus").is_none());
    assert_eq!(no_scope_message(12), "No scope found with ID: 12");
}

#[test]
fn metrics_accumulate_and_render() {
    let mut m = Metrics::new();
    m.inc_requests();
    m.inc_requests();
    m.add_bytes_in(1024);
    m.set_frontier_depth(9);
    let line = Monitor::new(m).log_metrics();
    assert_eq!(
        line,
        "Crawl Stats: requests=2 bytes_in=1024 host_backoffs=0 frontier_depth=9 mem_rss_mb=0"
    );
}

#[test]
fn export_record_mirrors_the_page() {
    let page = sample_page(Some("e".into()), None);
    let rec = ExportPage::from_page(page.clone());
    assert_eq!(rec.url, page.url);
    assert_eq!(rec.text_hash, page.text_hash);
    assert!(rec.outlinks_with_scores.is_empty());
}

#[test]
fn page_rows_render_hashes_in_hex() {
    let page = Page::make(
        3,
        "https://h/u",
        Some(255),
        Some(16),
        Some("T".to_string()),
        None,
        "2024-01-01T00:00:00Z",
        Some(200),
        Some("{}".to_string()),
    );
    assert_eq!(page.meta_json.as_deref(), Some("{}"));
    assert_eq!(page.text_hash.as_deref(), Some("ff"));
    assert_eq!(page.sim_hash.as_deref(), Some("10"));
    let row = crawlify::commands::page_row(&page);
    assert_eq!(row[0], "3");
    assert_eq!(row[4], "200");
}

#[test]
fn error_messages_carry_their_kind() {
    assert_eq!(
        crawlify::error::CrawlifyError::Config("missing file".to_string()).message(),
        "Configuration error: missing file"
    );
    assert_eq!(
        crawlify::error::CrawlifyError::SitemapNotFound("h.example".to_string()).message(),
        "Sitemap not found for domain: h.example"
    );
    assert_eq!(crawlify::error::CrawlifyError::Unknown.message(), "An unknown error has occurred");
}

#[test]
fn pdf_filenames_are_safe() {
    let ex = PdfExporter::new("outdir");
    assert_eq!(ex.output_dir, "outdir");
    assert_eq!(ex.generate_filename("https://h.example/a/b.html", 4), "a_b_html_4.pdf");
    assert_eq!(ex.generate_filename("https://h.example/", 9), "homepage_9.pdf");
    assert_eq!(
        ex.generate_filename("https://h.example/doc#sec-two", 1),
        "doc_sec-two_1.pdf"
    );
    assert_eq!(ex.generate_filename("not a url", 2), "page_2.pdf");
}
