//! A Ragnarok Online server stack's mod system and asset rules: which mods
//! apply and in what order, how their tables combine, and what the server's
//! log says about them.

pub mod text;
pub mod order;
pub mod precedence;
pub mod tables;
pub mod table_laws;
pub mod report;
pub mod json;
pub mod manifest;
pub mod versions;
pub mod packetver;
pub mod assets;
pub mod config;
pub mod groups;
pub mod conf;
pub mod mods;
pub mod saved;
pub mod round_trip;
