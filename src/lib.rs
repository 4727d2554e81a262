pub mod codec;
pub mod error;
pub mod index;
pub mod engine;
pub mod naming;
