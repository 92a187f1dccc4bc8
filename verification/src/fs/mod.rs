pub mod lock;
pub mod operations;
pub mod path;
pub mod watcher;
