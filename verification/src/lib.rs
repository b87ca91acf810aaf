//! The filesystem channel of a terminal assistant session: the decisions that
//! turn inbound envelope files into submitted turns and receipts, and turn
//! finished turns into terminal reply envelopes, with the naming, ordering and
//! de-duplication rules that producers and consumers share.

pub mod text;
pub mod format;
pub mod envelope;
pub mod inbound;
pub mod filename;
mod outside;
pub mod listing;
pub mod watch;
pub mod outbound;
