//! Verified core of a TeX Live installer: the `texlive.tlpdb` package
//! database parser and writer, the post-installation directive parsers,
//! the dependency resolver and the helpers of the download pipeline.

pub mod arch;
pub mod text;
pub mod package;
pub mod pipeline;
pub mod chars;
pub mod addformat;
pub mod addhyphen;
pub mod database;
pub mod collections;
pub mod codec;
pub mod bootstrap;
pub mod signature;
pub mod order;
pub mod tree;
pub mod location;
pub mod command;
pub mod laws;
pub mod record_laws;
pub mod usage_laws;
