pub mod encoding;
pub mod escape;
pub mod filter;
