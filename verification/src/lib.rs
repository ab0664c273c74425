//! A DNS sinkhole: the wire-format handling of DNS queries and answers, the
//! blocklist with its user overrides, and the decisions behind the HTTP
//! control interface and the query statistics.

pub mod analytics;
pub mod blocklist;
pub mod dns;
pub mod dns_laws;
pub mod domain_set;
pub mod list_text;
pub mod resolver;
pub mod server;
pub mod text;
