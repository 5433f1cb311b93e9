//! Verified core of the Tokyo daily-high temperature market tools: reading
//! bucket questions, the calendar arithmetic of paper entries, and the
//! integer decisions taken on markets and resolved events.

pub mod text;
pub mod bucket;
pub mod calendar;
pub mod markets;
pub mod events;
pub mod ledger;
pub mod observations;
