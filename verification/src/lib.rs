//! Roster scheduling from poll responses.
//!
//! A poll asks who can take which slot. `data` holds the answers as an
//! ordered sequence of columns, one per slot, and `doodle`, `framadate` and
//! `nextcloud` read them from the records of an export, with `records` for
//! what the three share. `scheduling` searches the assignments of one
//! person per slot and keeps the best two in a tracker (`tracker`), by a
//! cost (`cost`) that rewards even, well-spaced and willing assignments of
//! the entries of a schedule (`schedule`). `report` turns a result into
//! lines of text, and `service` holds what the web service says of itself.

pub mod cost;
pub mod data;
pub mod doodle;
pub mod framadate;
pub mod nextcloud;
pub mod records;
pub mod report;
pub mod schedule;
pub mod scheduling;
pub mod service;
pub mod tracker;
