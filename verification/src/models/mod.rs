pub mod mount;
