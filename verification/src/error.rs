//! The crate's error type. Each variant carries a plain-text cause; the
//! outer layers that talk to databases, sockets and files convert their
//! own failures into these variants at the boundary.

use vstd::prelude::*;

verus! {

#[derive(Debug, Clone)]
pub enum CrawlifyError {
    Config(String),
    Database(String),
    Http(String),
    Url(String),
    Io(String),
    Xml(String),
    SitemapNotFound(String),
    Unknown,
}

impl CrawlifyError {
    /// A one-line human-readable description, prefix per error kind.
    pub fn message(&self) -> (r: String)
        ensures
            r@ == match self {
                CrawlifyError::Config(s) => "Configuration error: "@ + s@,
                CrawlifyError::Database(s) => "Database error: "@ + s@,
                CrawlifyError::Http(s) => "HTTP request error: "@ + s@,
                CrawlifyError::Url(s) => "URL parsing error: "@ + s@,
                CrawlifyError::Io(s) => "I/O error: "@ + s@,
                CrawlifyError::Xml(s) => "XML parsing error: "@ + s@,
                CrawlifyError::SitemapNotFound(s) => "Sitemap not found for domain: "@ + s@,
                CrawlifyError::Unknown => "An unknown error has occurred"@,
            },
    {
        match self {
            CrawlifyError::Config(s) => String::from_str("Configuration error: ").concat(
                s.as_str(),
            ),
            CrawlifyError::Database(s) => String::from_str("Database error: ").concat(s.as_str()),
            CrawlifyError::Http(s) => String::from_str("HTTP request error: ").concat(s.as_str()),
            CrawlifyError::Url(s) => String::from_str("URL parsing error: ").concat(s.as_str()),
            CrawlifyError::Io(s) => String::from_str("I/O error: ").concat(s.as_str()),
            CrawlifyError::Xml(s) => String::from_str("XML parsing error: ").concat(s.as_str()),
            CrawlifyError::SitemapNotFound(s) => String::from_str(
                "Sitemap not found for domain: ",
            ).concat(s.as_str()),
            CrawlifyError::Unknown => String::from_str("An unknown error has occurred"),
        }
    }
}

} // verus!
