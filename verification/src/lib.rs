//! A verified change-extraction engine for a file-based package registry kept
//! in a git repository: a revision walk filtered to the registry automation's
//! commits, diff line classification, a canonical JSON codec for
//! package-version records, and the routing and framing decisions of the
//! streaming HTTP delivery layer.

pub mod support;
pub mod record;
pub mod codec;
pub mod parse;
pub mod classify;
pub mod gitio;
pub mod index;
pub mod http;
