//! A codec for DNS messages in wire format, with the reply policy of a small
//! UDP name server.
//!
//! [`message`] maps between datagram bytes and [`message::Message`] values:
//! the fixed header with its packed flag octets, names as label sequences
//! (compression pointers are expanded on decoding, never produced on
//! encoding), and question and answer records. [`response`] builds the reply
//! to a decoded query, either from fixed answers or by relaying each question
//! to an upstream resolver.

pub mod message;
pub mod response;
