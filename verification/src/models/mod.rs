//! The schema of named condition bits and masks, and the session state.
pub mod decode;
pub mod fault;
pub mod schema;
pub mod session;
pub mod table;
