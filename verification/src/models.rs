//! Data model of the store: crawl scopes, fetched pages, staged sitemap
//! URLs and audit events. Instants are carried as RFC 3339 strings and
//! hashes as hexadecimal strings; the storage layer outside the library
//! maps rows to and from these values.

use vstd::prelude::*;

verus! {

#[derive(Debug)]
pub enum StorageError {
    NotFound,
    QueryError(String),
}

#[derive(Debug, Clone, Copy, PartialEq, Eq, Structural)]
pub enum CrawlMethod {
    DEFAULT,
    NLP,
    HEADERS,
    CHANGED,
}

impl CrawlMethod {
    pub fn as_str(&self) -> (r: &'static str)
        ensures
            r@ == match self {
                CrawlMethod::DEFAULT => "DEFAULT"@,
                CrawlMethod::NLP => "NLP"@,
                CrawlMethod::HEADERS => "HEADERS"@,
                CrawlMethod::CHANGED => "CHANGED"@,
            },
    {
        match self {
            CrawlMethod::DEFAULT => "DEFAULT",
            CrawlMethod::NLP => "NLP",
            CrawlMethod::HEADERS => "HEADERS",
            CrawlMethod::CHANGED => "CHANGED",
        }
    }

    /// The method named by `s`; anything unrecognized is DEFAULT.
    pub fn from_name(s: &str) -> (r: CrawlMethod)
        ensures
            r == (if s@ == "NLP"@ {
                CrawlMethod::NLP
            } else if s@ == "HEADERS"@ {
                CrawlMethod::HEADERS
            } else if s@ == "CHANGED"@ {
                CrawlMethod::CHANGED
            } else {
                CrawlMethod::DEFAULT
            }),
    {
        if crate::strutil::str_eq(s, "NLP") {
            CrawlMethod::NLP
        } else if crate::strutil::str_eq(s, "HEADERS") {
            CrawlMethod::HEADERS
        } else if crate::strutil::str_eq(s, "CHANGED") {
            CrawlMethod::CHANGED
        } else {
            CrawlMethod::DEFAULT
        }
    }
}

/// A crawling rule: URL prefix pattern, filtering method, activation bit.
#[derive(Debug, Clone)]
pub struct Scope {
    pub id: i64,
    pub pattern: String,
    pub method: CrawlMethod,
    pub keywords: Option<String>,
    pub is_active: bool,
    pub last_crawled_at: Option<i64>,
    pub created_at: i64,
}

/// One fetched page as persisted; the `url` column is unique in the store.
#[derive(Debug, Clone)]
pub struct Page {
    pub id: i64,
    pub url: String,
    pub canonical_url: Option<String>,
    pub title: Option<String>,
    pub text_hash: Option<String>,
    pub sim_hash: Option<String>,
    pub fetched_at: String,
    pub status_code: Option<i32>,
    pub content_length: Option<i64>,
    pub meta_json: Option<String>,
    pub etag: Option<String>,
    pub last_modified: Option<String>,
    pub created_at: String,
}

impl Page {
    /// Builds the row for a freshly accepted page; the hashes are
    /// rendered as lower-case hexadecimal strings.
    pub fn make(
        id: i64,
        url: &str,
        text_hash: Option<u64>,
        sim_hash: Option<u64>,
        title: Option<String>,
        canonical_url: Option<String>,
        fetched_at: &str,
        status_code: Option<i32>,
        meta_json: Option<String>,
    ) -> (r: Page)
        ensures
            r.id == id,
            r.url@ == url@,
            (match (r.text_hash, text_hash) {
                (Some(ref h), Some(v)) => h@ == crate::strutil::digits_in_base(v as int, 16),
                (None, None) => true,
                _ => false,
            }),
            (match (r.sim_hash, sim_hash) {
                (Some(ref h), Some(v)) => h@ == crate::strutil::digits_in_base(v as int, 16),
                (None, None) => true,
                _ => false,
            }),
            r.title == title,
            r.canonical_url == canonical_url,
            r.fetched_at@ == fetched_at@,
            r.status_code == status_code,
            r.content_length is None,
            r.meta_json == meta_json,
            r.etag is None,
            r.last_modified is None,
            r.created_at@ == fetched_at@,
    {
        Page {
            id,
            url: String::from_str(url),
            canonical_url,
            title,
            text_hash: match text_hash {
                Some(v) => Some(crate::strutil::u64_to_hex(v)),
                None => None,
            },
            sim_hash: match sim_hash {
                Some(v) => Some(crate::strutil::u64_to_hex(v)),
                None => None,
            },
            fetched_at: String::from_str(fetched_at),
            status_code,
            content_length: None,
            meta_json,
            etag: None,
            last_modified: None,
            created_at: String::from_str(fetched_at),
        }
    }
}

#[derive(Debug, Clone, Copy, PartialEq, Eq, Structural)]
pub enum StagedUrlStatus {
    Pending,
    Included,
    Excluded,
    Processed,
}

impl StagedUrlStatus {
    pub fn as_str(&self) -> (r: &'static str)
        ensures
            r@ == match self {
                StagedUrlStatus::Pending => "pending"@,
                StagedUrlStatus::Included => "included"@,
                StagedUrlStatus::Excluded => "excluded"@,
                StagedUrlStatus::Processed => "processed"@,
            },
    {
        match self {
            StagedUrlStatus::Pending => "pending",
            StagedUrlStatus::Included => "included",
            StagedUrlStatus::Excluded => "excluded",
            StagedUrlStatus::Processed => "processed",
        }
    }
}

/// A URL discovered during sitemap ingestion, awaiting admission to the
/// frontier. The seeding priority is in whole points (see the sitemap
/// module).
#[derive(Debug, Clone)]
pub struct StagedUrl {
    pub id: Option<i64>,
    pub scope_id: i64,
    pub url: String,
    pub status: String,
    pub lastmod: Option<String>,
    pub priority: Option<u8>,
    pub discovered_at: String,
}

#[derive(Debug, Clone, Copy, PartialEq, Eq, Structural)]
pub enum EventLevel {
    Info,
    Warn,
    Error,
    Debug,
}

impl EventLevel {
    pub fn as_str(&self) -> (r: &'static str)
        ensures
            r@ == match self {
                EventLevel::Info => "INFO"@,
                EventLevel::Warn => "WARN"@,
                EventLevel::Error => "ERROR"@,
                EventLevel::Debug => "DEBUG"@,
            },
    {
        match self {
            EventLevel::Info => "INFO",
            EventLevel::Warn => "WARN",
            EventLevel::Error => "ERROR",
            EventLevel::Debug => "DEBUG",
        }
    }

    /// The level named by `s`; anything unrecognized is Info.
    pub fn from_name(s: &str) -> (r: EventLevel)
        ensures
            r == (if s@ == "WARN"@ {
                EventLevel::Warn
            } else if s@ == "ERROR"@ {
                EventLevel::Error
            } else if s@ == "DEBUG"@ {
                EventLevel::Debug
            } else {
                EventLevel::Info
            }),
    {
        if crate::strutil::str_eq(s, "WARN") {
            EventLevel::Warn
        } else if crate::strutil::str_eq(s, "ERROR") {
            EventLevel::Error
        } else if crate::strutil::str_eq(s, "DEBUG") {
            EventLevel::Debug
        } else {
            EventLevel::Info
        }
    }
}

/// One structured log row.
#[derive(Debug, Clone)]
pub struct Event {
    pub id: i64,
    pub timestamp: String,
    pub level: EventLevel,
    pub message: String,
    pub context: Option<String>,
}

} // verus!
