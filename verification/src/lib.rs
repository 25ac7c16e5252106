//! Offline IPv4 -> country lookup over a compact binary range database,
//! together with the pure decision logic of the traffic monitor that uses it.
//!
//! The binary format, the range search, the dotted-quad and CIDR text
//! formats and the builder's country resolution are all verified here; file
//! access, memory mapping, CSV reading and the kernel probes live in `app/`.

pub mod error;
pub mod models;
pub mod lookup;
pub mod text;
pub mod ipv4;
pub mod codec;
pub mod database;
pub mod writer;
pub mod laws;
pub mod cidr;
pub mod builder;
pub mod monitor;
pub mod cli;

pub use database::GeoDatabase;
pub use error::GeoError;
pub use models::IpRange;
pub use writer::encode_database;
