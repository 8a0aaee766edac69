//! An append-only, delimiter-framed log of feedback entries: the framing
//! of one entry, the parser that rebuilds entries from a day's file, the
//! index of the days on record, and the service that admits a submission.

pub mod text;
pub mod framer;
pub mod parser;
pub mod laws;
pub mod index;
pub mod clock;
pub mod service;
