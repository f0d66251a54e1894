//! Queries over the public dataset that maps Autonomous System numbers to
//! the organizations operating them: per-AS enrichment, sibling discovery,
//! and same-organization tests, over an in-memory index built from a
//! newline-delimited JSON snapshot.

pub mod date;
pub mod errors;
pub mod index;
pub mod io;
pub mod json;
pub mod listing;
pub mod records;
pub mod repair;
pub mod text;

pub use date::SnapshotDate;
pub use errors::As2orgError;
pub use index::{As2org, As2orgAsInfo};
pub use listing::{files_with_dates_from_listing, get_most_recent_data, latest_of};
pub use records::{parse_record_line, AsRecord, OrgRecord, Record};
pub use repair::fix_latin1_misinterpretation;
