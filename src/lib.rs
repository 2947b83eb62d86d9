//! Extraction of aligned reads into flat, positioned element tables, and the
//! bookkeeping that stages and caches such tables per genomic locus.

pub mod alignment;
pub mod layout;
pub mod extract;
pub mod locus;
pub mod staged;
pub mod stage;
pub mod cache;
pub mod text;
pub mod session;
pub mod storage;
pub mod variants;
