pub mod text;
pub mod formatter;
pub mod format_laws;
pub mod colon_laws;
pub mod refold;
pub mod json;
pub mod documents;
pub mod lsp;
pub mod lsp_laws;
pub mod transport;
pub mod extension;
pub mod literal_laws;
