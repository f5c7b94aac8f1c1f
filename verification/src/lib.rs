//! A bencode decoder driven one character at a time, with the decoded value
//! rendered as a JSON value, and the command-line vocabulary around it.
pub mod bencode;
pub mod cli;
pub mod torrent;
