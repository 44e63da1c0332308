//! A passphrase generator: uniform word draws from a wordlist, joined by a
//! separator, with a strength report rendered from the wordlist size and the
//! word count alone.

pub mod cli;
pub mod gen;
pub mod report;
