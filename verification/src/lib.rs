//! A DNS wire-format codec and iterative resolver core.
//!
//! The library decodes and encodes DNS messages from and to a fixed
//! 512-byte buffer, including compressed domain names, and decides each
//! step of an iterative resolution by following NS referral chains.

pub mod byte_packet_buffer;
pub mod dns_header;
pub mod dns_packet;
pub mod dns_question;
pub mod dns_records;
pub mod dns_server;
pub mod errors;
pub mod query_type;
pub mod result_code;
