pub mod app;
pub mod codec;
pub mod handler;
