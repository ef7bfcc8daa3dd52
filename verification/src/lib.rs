//! Path-based reverse proxy core: route resolution, header acquisition and
//! request-line rewriting, with their contracts.

pub mod text;
pub mod header;
pub mod rewrite;
pub mod route;
pub mod handler;
