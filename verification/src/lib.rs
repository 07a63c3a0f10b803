//! In-memory TV guide service core: a streaming XMLTV guide parser with
//! timezone-aware datetime decoding, a lazily refreshed channel directory,
//! a per-channel schedule cache with now/next queries, and the resolution
//! flow that ties them together.
pub mod chain;
pub mod epg;
pub mod epg_flow;
pub mod epg_parser;
pub mod iptv_org;
pub mod kvmap;
pub mod m3u_parser;
pub mod models;
pub mod strutil;
pub mod timeutil;
pub mod xml;

pub use timeutil::is_leap_year;
