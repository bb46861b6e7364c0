//! RAGgy: local search over documents, notes and code, with the entities
//! in them linked. This crate is the verified core: reading files into
//! document/section/chunk graphs, finding and resolving entities, reading
//! queries into plans, the graph search between entities, and the
//! decisions of the servers. Each function states its result in its
//! contract; storage, indexes, models and I/O live in the program around it.
pub mod text;
pub mod graph;
pub mod entity;
pub mod extractors;
pub mod ingest;
pub mod index;
pub mod query;
pub mod config;
pub mod serve;
pub mod workspace;
pub mod mcp;
pub mod watch;
