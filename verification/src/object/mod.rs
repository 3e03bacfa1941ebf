pub mod direct;
pub mod error;
pub mod indirect;
