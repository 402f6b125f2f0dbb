//! Verified core of an NMEA 0183 capture tool: splitting received datagrams
//! into sentence lines, labelling lines by talker and mnemonic, cutting a
//! sentence into its comma-separated fields, and reading the RMC and GGA
//! sentences into typed records.

pub mod cli;
pub mod dds_types;
pub mod nmea;
pub mod records;
pub mod sentence;
pub mod text;
