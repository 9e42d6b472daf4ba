//! Stream filter implementations (ISO 32000-1, 7.4).

pub mod dct;
pub mod jbig2;
pub mod ccitt;
