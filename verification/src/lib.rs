pub mod api;
pub mod errors;
pub mod http;
pub mod lifecycle;
pub mod model;
pub mod persistence;
pub mod plan;
pub mod request;
pub mod segment;
pub mod sink;
pub mod store;
pub mod transport;
pub mod util;
pub mod worker;
