//! Memories that machines share: reading and rewriting them, the links and the
//! index between them, version reservations, and what is sent to whom.
pub mod analysis;
pub mod analysis_laws;
pub mod catalog_laws;
pub mod cli;
pub mod cli_laws;
pub mod config;
pub mod counts;
pub mod dashboard;
pub mod dashboard_laws;
pub mod frontmatter;
pub mod frontmatter_laws;
pub mod index;
pub mod index_laws;
pub mod line_laws;
pub mod link;
pub mod link_laws;
pub mod links;
pub mod listing;
pub mod memory;
pub mod memory_laws;
pub mod naming;
pub mod number;
pub mod order;
pub mod order_laws;
pub mod related;
pub mod related_laws;
pub mod repair;
pub mod repair_laws;
pub mod report;
pub mod report_laws;
pub mod reservation;
pub mod reservation_laws;
pub mod reserve;
pub mod reserve_laws;
pub mod scope;
pub mod search;
pub mod search_laws;
pub mod server;
pub mod server_laws;
pub mod shape_laws;
pub mod sync;
pub mod text;
pub mod text_laws;
pub mod told_laws;
pub mod version;
pub mod version_laws;
