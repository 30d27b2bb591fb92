//! A small record-keeping library for countdown timers, their todo items and
//! timestamped progress marks, persisted through a verified delimited-text
//! codec and a deterministic record store.

pub mod codec;
pub mod command;
pub mod error;
pub mod laws;
pub mod model;
pub mod repository;
pub mod service;
pub mod tables;
pub mod text;

pub use command::CommandApi;
pub use command::CommandError;
pub use command::Envelope;
pub use error::AppError;
pub use error::AppResult;
pub use model::EpochMinutes;
pub use model::Mark;
pub use model::Timer;
pub use model::Todo;
pub use model::TodoStatus;
pub use repository::CsvStore;
pub use repository::InMemoryStore;
pub use repository::Store;
pub use service::AppService;
