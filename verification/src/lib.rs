//! Portfolio pots: holdings kept in nested pots, valued bottom-up and
//! compared with a ladder of target assets.
//!
//! A *lot* is a count of shares of one asset at one custodian. A *pot*
//! holds lots, free cash, targets and a ramp. A lot whose asset is a pot tag
//! owns the pot in the folder of that name, so pots form a tree. The tree is
//! kept in a *store*, each pot under the path that leads to it, and is
//! valued from the bottom up: cash at one, equities at the quotes that the
//! caller brings, a nested pot at its own market value.
//!
//! All amounts are whole numbers. The caller chooses the unit of share
//! counts and the unit of prices; market values and cash are counted in
//! their product, and a held nested pot counts as one. Sums of share counts
//! always fit; a market value that leaves 128 bits is reported as an error,
//! never wrapped.
//!
//! Every function states what it returns over a mathematical model of its
//! arguments: the view `@` of each type. The laws that tie several
//! functions together stand beside them as proof functions.

pub mod amounts;
pub mod asset_group;
pub mod asset_tag;
pub mod deep_asset;
pub mod error;
pub mod folder_pot;
pub mod ladder;
pub mod lot;
pub mod order;
pub mod portfolio;
pub mod pot;
pub mod pot_path;
pub mod quotes;
pub mod ramp;
pub mod report;
pub mod seqs;
pub mod store;
pub mod table;
pub mod targets;
pub mod text;
pub mod transfer;
pub mod valuation;
