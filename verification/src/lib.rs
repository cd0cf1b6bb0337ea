//! Exact probabilities and expectations for every wager of Baccarat.
//!
//! Probabilities are fractions of deals: a count of deals over the number of
//! all deals of the shoe. Payouts, thresholds and proportions are fixed-point
//! numbers, written in units of one part in `PAYOUT_SCALE`.

use vstd::prelude::*;

pub mod calculation;
pub mod card;
pub mod game;
pub mod money;
pub mod strategy;
pub mod undolist;

pub use money::MoneyStat;

verus! {

/// The fixed-point unit: a payout of one to one, a probability of one and a
/// proportion of the whole are all written as `PAYOUT_SCALE`.
pub const PAYOUT_SCALE: u32 = 10_000;

/// What each wager pays on a stake of `PAYOUT_SCALE`.
#[derive(Debug, Clone, Copy)]
pub struct Payouts {
    pub player_win: u32,
    pub banker_win: u32,
    pub tie: u32,
    pub unsuit_pair: u32,
    pub either_pair: u32,
    /// For one perfect pair, then for two.
    pub perfect_pair: [u32; 2],
    /// For a win by 4, 5, 6, 7, 8 and 9 without a natural.
    pub bonus_unnatural: [u32; 6],
    pub bonus_natural_win: u32,
    pub bonus_natural_tie: u32,
}

/// The rules of a table.
#[derive(Debug, Clone, Copy)]
pub struct Rule {
    pub number_of_decks: u32,
    /// The part of the shoe that is dealt before the cut card, in units of
    /// one part in `PAYOUT_SCALE`.
    pub cut_card_proportion: u32,
    pub discard_at_start: bool,
    pub payouts: Payouts,
}

} // verus!
