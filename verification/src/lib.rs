//! Distributes a fixed pool of native units to a list of recipients
//! according to a bid schedule, while guaranteeing that re-running the
//! process after a partial failure never double-pays a recipient.
//!
//! The core is the reconciliation engine: it converts currency-denominated
//! bids into native-unit allocations, replays a durable append-only
//! transaction ledger to subtract amounts already disbursed, and produces
//! the exact remaining work list together with the rows to append to the
//! ledger after the new transfers are confirmed.
//!
//! All money is held in fixed-point integers ([`amounts::AMOUNT_SCALE`]
//! base units per whole unit), so reconciliation is exact arithmetic and
//! the properties proved here hold with equality rather than tolerance.
//! File I/O, transfer dispatch and console output live outside this
//! library; it works on plain byte buffers and typed records.

pub mod table;

pub mod amounts;

pub mod records;

pub mod reconcile;

pub mod allocate;

pub mod schedule;

pub mod ledger;

pub mod orchestrate;
