pub mod headers;
pub mod query;
pub mod request;
pub mod response;
pub mod server;
pub mod status;
