pub mod aarch64;
pub mod error;
pub mod frame;
