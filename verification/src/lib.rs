//! Core of a polite, scope-bounded web crawler: URL canonicalization,
//! content hashing and near-duplicate detection, a per-host priority
//! frontier with politeness gating and persistent snapshots, keyword
//! gating, HTML metadata extraction over a token stream, sitemap staging,
//! HTTP pacing and retry policy, and the export record pipeline.

pub mod cli;
pub mod config;
pub mod crawler;
pub mod deduplication;
pub mod exporter;
pub mod codec;
pub mod commands;
pub mod error;
pub mod pdf_exporter;
pub mod http;
pub mod models;
pub mod monitoring;
pub mod nlp;
pub mod parser;
pub mod frontier;
pub mod sitemap;
pub mod strutil;
pub mod urls;
