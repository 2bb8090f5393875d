//! Sequential Phragmén multi-winner elections over fixed-point arithmetic.
//!
//! Voters hand in ballots: an identifier, a budget, and the identifiers of
//! the candidates they approve.  The method elects a requested number of
//! candidates one round at a time, always picking the candidate whose
//! election keeps the voters' accumulated load as even as possible, and
//! finally converts the loads into per-edge weights that split each
//! voter's budget over the candidates it supports.  Loads, scores and
//! weights are exact multiples of `1 / SCALE`, kept in `i128`.  A round's
//! scores are compared exactly — as the rationals
//! `numerator / approval` — so the first-minimum tie-break applies only
//! to exact ties, never to values that merely round alike; truncation to
//! fixed point happens once per value stored.  Every operation is
//! checked, and an input that would overflow is reported as an error
//! instead of wrapping: that can only happen at extreme magnitudes —
//! keeping budgets below about a million, the number of approvals below
//! about ten thousand and the seat count below about a thousand leaves
//! every intermediate product orders of magnitude inside the `i128`
//! range — while on ordinary inputs a run never fails.

pub mod assignment;
pub mod builder;
pub mod election;
pub mod error;
pub mod fixed;
pub mod graph;
pub mod laws;
pub mod rounds;
