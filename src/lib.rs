//! Transactional text-editing core: change sets, transactions, undo history
//! and the document that ties them together.
pub mod changeset;
pub mod text;
pub mod selection;
pub mod transaction;
pub mod history;
pub mod lsp;
pub mod document;
