//! Per-method translation of LSP payloads, one module per message family.

pub mod code_action;
pub mod diagnostics;
pub mod document_highlight;
pub mod document_symbol;
pub mod document_sync;
pub mod goto;
pub mod inlay_hint;
