//! A store of timestamped network log entries, the queries that read it by
//! timestamp, and the encodings in which a result leaves the service.

pub mod config;
pub mod decimal;
pub mod decode;
pub mod encode;
pub mod entry;
pub mod error;
pub mod index;
pub mod query;
pub mod response;
pub mod route;
pub mod store;
pub mod text;

pub use config::{AppConfig, Config, DiaryConfig, ServerConfig, SomeToolsAppConfig};
pub use entry::LogEntry;
pub use error::LogError;
pub use query::{Input, Mode};
pub use response::{Reply, ResponseJson};
pub use route::Outcome;
pub use store::{LogStore, StoreInfo};
