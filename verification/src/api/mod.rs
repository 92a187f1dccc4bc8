pub mod fs;
pub mod watch;
pub mod upload;
