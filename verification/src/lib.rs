//! Verified core of a key/description catalog application.
//!
//! The library covers the persistent data layer of the application:
//! an inline markup language for rich descriptions (`markup`),
//! a line-oriented record format with escaped delimiters (`record`),
//! the in-memory catalog store (`catalog`), a fuzzy search ranker
//! (`search`), the modal window stack (`modal`), and the
//! confirmation flow that ties the stack to the store (`flow`).

pub mod catalog;
pub(crate) mod chars;
pub mod flow;
pub mod markup;
pub mod modal;
pub mod record;
pub mod search;
