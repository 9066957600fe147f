//! A small DNS message codec and the decisions of a forwarding resolver.
//!
//! [`common`] holds the byte cursor and the bit fields, [`dns`] the header,
//! names, questions, answers and whole messages with their wire forms, and
//! what a server answers; [`config`] reads the command line. Every function
//! states what it returns over a mathematical model of its arguments, and
//! the round trip between encoding and decoding is proved for each part.
//! Nothing here touches a socket: the caller sends and receives.

pub mod common;
pub mod config;
pub mod dns;
