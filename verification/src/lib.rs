//! Resolution, locking and materialization of Protocol Buffers dependencies
//! that live in independent git repositories.
//!
//! A module declares dependencies: repositories, each at a revision. The
//! resolver ([`fetch::lock`]) walks the graph that these declarations span,
//! depth first and through a [`cache::RepositoryCache`], keeps for each
//! repository the first revision requested of it, and pins each repository to
//! one commit in a [`model::LockFile`]. The materializer ([`fetch::fetch`])
//! writes the pinned commits out.
//!
//! [`resolution`] says in mathematical terms what a walk is and which lock
//! file belongs to it; the contracts of the resolver speak in these terms.
//! [`theorems`] proves what follows for every resolution: no repository is
//! pinned twice, the first request wins, and repositories in a fixed state
//! give one outcome.
//!
//! [`model`] holds the value types, with the documents that manifests and
//! lock files are read from and written to; [`coordinate_map`] the map that
//! keeps repositories in the order in which they were first named; [`cli`]
//! what the command line asks for; [`foreign`] the error types of other
//! crates that the library's errors carry.

pub mod cache;
pub mod cli;
pub mod coordinate_map;
pub mod fetch;
pub mod foreign;
pub mod model;
pub mod proto_repository;
pub mod resolution;
pub mod theorems;
