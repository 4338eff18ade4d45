//! Security log ingestion: parsers for web access and authentication lines, a sliding-window
//! brute-force detector, an in-memory row store, and the pipeline that joins them.
pub mod db;
pub mod failed_login;
pub mod log;
pub mod pipeline;
pub mod text;
pub mod time;
