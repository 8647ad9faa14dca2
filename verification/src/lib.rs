pub mod codec;
pub mod session;
pub mod store;
