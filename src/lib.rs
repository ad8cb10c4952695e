pub mod com;
pub mod frame;
pub mod codec_laws;
pub mod route;
pub mod session;
pub mod connection;
pub mod proxy;
