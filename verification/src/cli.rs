//! The command surface as plain data. The binary around the library
//! parses the command line into these values.

use vstd::prelude::*;

verus! {

#[derive(Debug, Clone)]
pub struct Cli {
    pub command: Commands,
}

#[derive(Debug, Clone)]
pub enum Commands {
    /// Initializes the database.
    Init,
    /// Starts the crawler.
    Crawl,
    /// Lists all crawl scopes.
    Scopes,
    /// Adds a new crawl scope.
    Add { pattern: String },
    /// Removes a crawl scope by ID.
    Remove { id: i64 },
    /// Sets a property of a crawl scope.
    SetProperty { id: i64, property: String, value: String },
}

} // verus!
