//! Verified core of a clipboard-history manager: a content-addressed,
//! deduplicating store of clipboard payloads with a separate recency ledger,
//! multi-mode querying (recent pages, favorites, substring search), and the
//! text, escaping and presentation helpers around it.

pub mod clock;
pub mod config;
pub mod display;
pub mod escape;
pub mod hashing;
pub mod laws;
pub mod store;
pub mod text;
