//! N-party-preferred reduction of Senate ballot data: distribution of
//! ballots to booth-level tallies, projection of booth tallies onto
//! SA1 regions, and combination of SA1 tallies into district totals.

pub mod ballot;
pub mod booths;
pub mod cli;
pub mod districts;
pub mod indexer;
pub mod output;
pub mod parties;
pub mod projection;
pub mod term;
pub mod utils;
