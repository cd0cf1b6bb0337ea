//! What to stake, once the best main wager and the best side wager are
//! known. A side wager goes with a main wager of twice its stake.

use vstd::prelude::*;
use crate::game::hands::{Bets, HandsBet};

verus! {

/// The stake on a wager that is placed alone, and on the side wager.
pub const STAKE: i64 = 100;

/// The stake on the main wager that goes with a side wager.
pub const DOUBLE_STAKE: i64 = 200;

/// The advice on what to wager.
#[derive(Debug, Clone, Copy, PartialEq, Eq, Structural)]
pub enum Suggestion {
    /// The main wager alone.
    Main(HandsBet),
    /// The main wager twice and the side wager once.
    MainAndSide(HandsBet, HandsBet),
    NoBet,
}

/// Two stakes on the main wager and one on the side wager are worth more
/// than nothing.
pub open spec fn pair_is_worth_it(main_ex: int, side_ex: int) -> bool {
    2 * main_ex + side_ex > 0
}

/// Are two stakes on the main wager and one on the side wager worth more
/// than nothing?
pub fn is_pair_worth_it(main_ex: i128, side_ex: i128) -> (worth: bool)
    ensures
        worth == pair_is_worth_it(main_ex as int, side_ex as int),
{
    let half: i128 = side_ex / 2;
    let rest: i128 = side_ex % 2;
    match main_ex.checked_add(half) {
        Some(sum) => sum > 0 || (sum == 0 && rest > 0),
        None => main_ex > 0,
    }
}

/// What a wager counts for in the advice: its expectation, and nothing for
/// no wager.
pub open spec fn counted(best: (HandsBet, i128)) -> int {
    if best.0 == HandsBet::PlaceHolder {
        0
    } else {
        best.1 as int
    }
}

/// The advice: the main wager alone where it is worth more than the side
/// wager and more than nothing; both where the side wager is worth more and
/// the two together are worth more than nothing; else no wager.
pub open spec fn suggestion_of(main: (HandsBet, i128), side: (HandsBet, i128)) -> Suggestion {
    let (m, s) = (counted(main), counted(side));
    if s < m && m > 0 {
        Suggestion::Main(main.0)
    } else if s > m && pair_is_worth_it(m, s) {
        Suggestion::MainAndSide(main.0, side.0)
    } else {
        Suggestion::NoBet
    }
}

/// The advice on the best main wager and the best side wager.
pub fn suggest(main: (HandsBet, i128), side: (HandsBet, i128)) -> (advice: Suggestion)
    ensures
        advice == suggestion_of(main, side),
{
    let m: i128 = match main.0 {
        HandsBet::PlaceHolder => 0,
        _ => main.1,
    };
    let s: i128 = match side.0 {
        HandsBet::PlaceHolder => 0,
        _ => side.1,
    };
    if s < m && m > 0 {
        Suggestion::Main(main.0)
    } else if s > m && is_pair_worth_it(m, s) {
        Suggestion::MainAndSide(main.0, side.0)
    } else {
        Suggestion::NoBet
    }
}

/// The stakes of a gambler who goes by expectation: one stake on the main
/// wager where it is worth more than the side wager and more than nothing;
/// two on the main wager and one on the side wager where the side wager is
/// worth as much or more and the two together are worth more than nothing.
/// No stake goes on `PlaceHolder`.
pub open spec fn stakes_of(main: (HandsBet, i128), side: (HandsBet, i128)) -> Seq<Option<i64>> {
    let none = Seq::new(9, |k: int| None::<i64>);
    if side.1 < main.1 {
        if main.1 > 0 && main.0 != HandsBet::PlaceHolder {
            none.update(main.0.place(), Some(STAKE))
        } else {
            none
        }
    } else if pair_is_worth_it(main.1 as int, side.1 as int) {
        let first = if main.0 != HandsBet::PlaceHolder {
            none.update(main.0.place(), Some(DOUBLE_STAKE))
        } else {
            none
        };
        if side.0 != HandsBet::PlaceHolder {
            first.update(side.0.place(), Some(STAKE))
        } else {
            first
        }
    } else {
        none
    }
}

/// The stakes of a gambler who goes by expectation.
pub fn place_by_expectation(main: (HandsBet, i128), side: (HandsBet, i128)) -> (bets: Bets)
    ensures
        bets.wf(),
        bets.stakes() == stakes_of(main, side),
{
    let mut bets = Bets::new();
    assert(bets.stakes() =~= Seq::new(9, |k: int| None::<i64>));
    if side.1 < main.1 {
        if main.1 > 0 {
            bets.insert(main.0, STAKE);
        }
    } else if is_pair_worth_it(main.1, side.1) {
        bets.insert(main.0, DOUBLE_STAKE);
        bets.insert(side.0, STAKE);
    }
    bets
}

} // verus!
