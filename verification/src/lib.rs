//! Turn-order bookkeeping for tabletop encounters: combatant entries with
//! hit-point tracking, initiative sorting with tie detection and resolution,
//! round counting, and a small view-switching shell around the tools.

pub mod entry;
pub mod initiative_tracker;
pub mod shell;
pub mod turn_order;
