//! Verified engine for resolving textual merge conflicts with the help of
//! text-completion endpoints: parsing diff3-style conflict blocks with
//! variable-width markers, building the delimited prompt protocol, a
//! retry/backoff policy, validation and deduplication of candidate
//! resolutions, and write-back with attribution markers.

pub mod api_client;
pub mod config;
pub mod conflict_resolver;
pub mod git_utils;
pub mod json;
pub mod strutil;
