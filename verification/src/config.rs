//! Job configuration records: what an indexing or webgraph-building run
//! is told about its inputs and its workers. Loading these from files and
//! serializing them for the wire happens outside the library.

use vstd::prelude::*;

verus! {

/// Where a batch of WARC archives is fetched from.
#[derive(Debug)]
pub enum WarcSource {
    S3(S3Config),
    HTTP(HttpConfig),
}

#[derive(Debug)]
pub struct S3Config {
    pub name: String,
    pub endpoint: String,
    pub bucket: String,
}

#[derive(Debug)]
pub struct HttpConfig {
    pub base_url: String,
}

/// An indexing run: its WARC source and the file naming the archives.
#[derive(Debug)]
pub struct IndexingConfig {
    pub warc_source: WarcSource,
    pub warc_paths_file: String,
}

/// A webgraph build run by the coordinating master.
#[derive(Debug)]
pub struct WebgraphMasterConfig {
    pub warc_source: WarcSource,
    pub warc_paths_file: String,
    pub workers: Vec<String>,
}

/// A webgraph build worker: where it listens.
#[derive(Debug)]
pub struct WebgraphWorkerConfig {
    pub addr: String,
}

/// The two roles of a webgraph build.
#[derive(Debug)]
pub enum WebgraphConfig {
    Master(WebgraphMasterConfig),
    Worker(WebgraphWorkerConfig),
}

/// What a job runs as.
#[derive(Debug)]
pub enum Config {
    Indexer(IndexingConfig),
    Webgraph(WebgraphConfig),
}

impl Config {
    /// Whether this configuration drives an indexing run.
    pub fn is_indexer(&self) -> (r: bool)
        ensures
            r == (self is Indexer),
    {
        match self {
            Config::Indexer(_) => true,
            Config::Webgraph(_) => false,
        }
    }
}

} // verus!
