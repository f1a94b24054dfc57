pub mod chunks;
pub mod layout;
pub mod manager;
pub mod query;
pub mod downloader;
pub mod state;
pub mod tracker;
pub mod util;

