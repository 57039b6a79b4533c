//! What each command computes from the schema and session it reads: results,
//! texts to print, and the errors it reports.
pub mod dump;
pub mod error;
pub mod eval;
pub mod explain;
pub mod init;
pub mod layout;
pub mod reset;
pub mod resume;
pub mod set;
