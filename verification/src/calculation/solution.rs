//! The result of a calculation: for every wager the number of deals on
//! which it pays, and what it is worth.
//!
//! A probability is a count of deals over `denominator`. An expectation is
//! a signed count over `denominator * PAYOUT_SCALE`: what a stake of one
//! wins on average.

use vstd::prelude::*;
use crate::calculation::deal::MAX_DENOMINATOR;
use crate::game::hands::HandsBet;
use crate::{Payouts, Rule, PAYOUT_SCALE};

verus! {

/// The main wagers: player, banker and tie.
#[derive(Debug, Clone, Copy, PartialEq, Eq)]
pub struct SolutionMain {
    pub p_player_win: u128,
    pub ex_player_win: i128,
    pub p_banker_win: u128,
    pub ex_banker_win: i128,
    pub p_tie: u128,
    pub ex_tie: i128,
}

/// The pair wagers. `p_unsuit_pair` is that of one side, the same for both;
/// `p_suit_pair` holds the deals with exactly one perfect pair, then those
/// with two.
#[derive(Debug, Clone, Copy, PartialEq, Eq)]
pub struct SolutionPair {
    pub p_unsuit_pair: u128,
    pub ex_unsuit_pair: i128,
    pub p_either_pair: u128,
    pub ex_either_pair: i128,
    pub p_suit_pair: [u128; 2],
    pub ex_suit_pair: i128,
}

/// The bonus wagers. The unnatural counts are those of a win by 4 to 9
/// without a natural.
#[derive(Debug, Clone, Copy, PartialEq, Eq)]
pub struct SolutionBonus {
    pub p_player_bonus_unnatural: [u128; 6],
    pub p_player_bonus_natural_win: u128,
    pub p_banker_bonus_unnatural: [u128; 6],
    pub p_banker_bonus_natural_win: u128,
    pub p_bonus_natural_tie: u128,
    pub ex_player_bonus: i128,
    pub ex_banker_bonus: i128,
}

/// All wagers of one composition.
#[derive(Debug, Clone, Copy, PartialEq, Eq)]
pub struct Solution {
    /// The number of deals: what every count of deals is a part of.
    pub denominator: u128,
    pub sol_main: SolutionMain,
    pub sol_pair: SolutionPair,
    pub sol_bonus: SolutionBonus,
}

/// Sum of six counts.
pub open spec fn sum6(p: [u128; 6]) -> int {
    p[0] + p[1] + p[2] + p[3] + p[4] + p[5]
}

/// What six counts are paid, each at its own rate.
pub open spec fn paid6(p: [u128; 6], pay: [u32; 6]) -> int {
    p[0] * pay[0] + p[1] * pay[1] + p[2] * pay[2] + p[3] * pay[3] + p[4] * pay[4] + p[5] * pay[5]
}

/// The worth of a wager that is paid `paid` in all, loses its stake on
/// `lose` deals and is handed back on the others.
pub open spec fn worth(paid: int, lose: int) -> int {
    paid - lose * PAYOUT_SCALE
}

impl SolutionMain {
    /// The deals that end in a player win, a banker win or a tie.
    pub open spec fn total(&self) -> int {
        self.p_player_win + self.p_banker_win + self.p_tie
    }
}

impl SolutionBonus {
    /// The deals on which the player's bonus wager does not lose.
    pub open spec fn player_total(&self) -> int {
        self.p_player_bonus_natural_win + self.p_bonus_natural_tie + sum6(
            self.p_player_bonus_unnatural,
        )
    }

    /// The deals on which the banker's bonus wager does not lose.
    pub open spec fn banker_total(&self) -> int {
        self.p_banker_bonus_natural_win + self.p_bonus_natural_tie + sum6(
            self.p_banker_bonus_unnatural,
        )
    }
}

/// The worth of the wager on one side of the main wagers: paid on a win,
/// lost on a win of the other side, handed back on a tie.
pub open spec fn main_worth(win: u128, lose: u128, pay: u32) -> int {
    worth(win * pay, lose as int)
}

/// The worth of a wager that is paid on `win` deals and lost on all others.
pub open spec fn single_worth(denominator: u128, win: u128, pay: u32) -> int {
    worth(win * pay, denominator - win)
}

/// The worth of the wager on a perfect pair.
pub open spec fn suit_pair_worth(denominator: u128, p: [u128; 2], pay: [u32; 2]) -> int {
    worth(p[0] * pay[0] + p[1] * pay[1], denominator - p[0] - p[1])
}

/// The worth of a bonus wager.
pub open spec fn bonus_worth(
    denominator: u128,
    natural_win: u128,
    natural_tie: u128,
    unnatural: [u128; 6],
    payouts: Payouts,
) -> int {
    worth(
        natural_win * payouts.bonus_natural_win + natural_tie * payouts.bonus_natural_tie + paid6(
            unnatural,
            payouts.bonus_unnatural,
        ),
        denominator - natural_win - natural_tie - sum6(unnatural),
    )
}

/// A wager as the choice of the best one sees it: its name, whether it pays
/// often enough to be considered, and its worth.
pub type Candidate = (HandsBet, bool, int);

/// The best of the first `n` candidates: of those that are considered, the
/// first of the greatest worth; no wager, at the least worth there is, where
/// none is considered.
pub open spec fn best_bet(c: spec_fn(int) -> Candidate, n: int) -> (HandsBet, int)
    decreases n,
{
    if n <= 0 {
        (HandsBet::PlaceHolder, i128::MIN as int)
    } else {
        let before = best_bet(c, n - 1);
        if c(n - 1).1 && before.1 < c(n - 1).2 {
            (c(n - 1).0, c(n - 1).2)
        } else {
            before
        }
    }
}

/// The choice is a best one: no considered wager is worth more, and the
/// choice is either no wager, where no considered wager is worth more than
/// the least worth there is, or a considered wager before which no
/// considered wager is worth as much.
pub proof fn lemma_best_bet_is_best(c: spec_fn(int) -> Candidate, n: int)
    requires
        0 <= n,
    ensures
        forall|i: int| 0 <= i < n && (#[trigger] c(i)).1 ==> c(i).2 <= best_bet(c, n).1,
        best_bet(c, n).1 >= i128::MIN,
        best_bet(c, n) == (HandsBet::PlaceHolder, i128::MIN as int) || exists|i: int|
            0 <= i < n && (#[trigger] c(i)).1 && best_bet(c, n) == (c(i).0, c(i).2) && forall|
                j: int,
            |
                0 <= j < i && (#[trigger] c(j)).1 ==> c(j).2 < c(i).2,
    decreases n,
{
    if n > 0 {
        lemma_best_bet_is_best(c, n - 1);
        let before = best_bet(c, n - 1);
        let last = c(n - 1);
        if last.1 && before.1 < last.2 {
            assert(best_bet(c, n) == (last.0, last.2));
            assert forall|j: int| 0 <= j < n - 1 && (#[trigger] c(j)).1 implies c(j).2
                < last.2 by {}
        } else if before != (HandsBet::PlaceHolder, i128::MIN as int) {
            let i = choose|i: int|
                0 <= i < n - 1 && (#[trigger] c(i)).1 && before == (c(i).0, c(i).2) && forall|
                    j: int,
                |
                    0 <= j < i && (#[trigger] c(j)).1 ==> c(j).2 < c(i).2;
            assert(0 <= i < n && c(i).1 && best_bet(c, n) == (c(i).0, c(i).2));
        }
    }
}

impl Solution {
    /// The counts are counts of deals: none is more than the number of
    /// deals, and no deal is counted twice where a wager pays on several
    /// results.
    pub open spec fn wf(&self) -> bool {
        &&& 1 <= self.denominator <= MAX_DENOMINATOR
        &&& self.sol_main.total() <= self.denominator
        &&& self.sol_pair.p_unsuit_pair <= self.denominator
        &&& self.sol_pair.p_either_pair <= self.denominator
        &&& self.sol_pair.p_suit_pair[0] + self.sol_pair.p_suit_pair[1] <= self.denominator
        &&& self.sol_bonus.player_total() <= self.denominator
        &&& self.sol_bonus.banker_total() <= self.denominator
    }

    /// Both solutions hold the same counts of deals.
    pub open spec fn same_probabilities(&self, other: &Solution) -> bool {
        &&& self.denominator == other.denominator
        &&& self.sol_main.p_player_win == other.sol_main.p_player_win
        &&& self.sol_main.p_banker_win == other.sol_main.p_banker_win
        &&& self.sol_main.p_tie == other.sol_main.p_tie
        &&& self.sol_pair.p_unsuit_pair == other.sol_pair.p_unsuit_pair
        &&& self.sol_pair.p_either_pair == other.sol_pair.p_either_pair
        &&& self.sol_pair.p_suit_pair == other.sol_pair.p_suit_pair
        &&& self.sol_bonus.p_player_bonus_unnatural == other.sol_bonus.p_player_bonus_unnatural
        &&& self.sol_bonus.p_player_bonus_natural_win
            == other.sol_bonus.p_player_bonus_natural_win
        &&& self.sol_bonus.p_banker_bonus_unnatural == other.sol_bonus.p_banker_bonus_unnatural
        &&& self.sol_bonus.p_banker_bonus_natural_win
            == other.sol_bonus.p_banker_bonus_natural_win
        &&& self.sol_bonus.p_bonus_natural_tie == other.sol_bonus.p_bonus_natural_tie
    }

    /// Every expectation is the worth of its wager at the given payouts.
    pub open spec fn expectations_follow(&self, payouts: Payouts) -> bool {
        let d = self.denominator;
        let m = self.sol_main;
        let p = self.sol_pair;
        let b = self.sol_bonus;
        &&& m.ex_player_win == main_worth(m.p_player_win, m.p_banker_win, payouts.player_win)
        &&& m.ex_banker_win == main_worth(m.p_banker_win, m.p_player_win, payouts.banker_win)
        &&& m.ex_tie == single_worth(d, m.p_tie, payouts.tie)
        &&& p.ex_unsuit_pair == single_worth(d, p.p_unsuit_pair, payouts.unsuit_pair)
        &&& p.ex_either_pair == single_worth(d, p.p_either_pair, payouts.either_pair)
        &&& p.ex_suit_pair == suit_pair_worth(d, p.p_suit_pair, payouts.perfect_pair)
        &&& b.ex_player_bonus == bonus_worth(
            d,
            b.p_player_bonus_natural_win,
            b.p_bonus_natural_tie,
            b.p_player_bonus_unnatural,
            payouts,
        )
        &&& b.ex_banker_bonus == bonus_worth(
            d,
            b.p_banker_bonus_natural_win,
            b.p_bonus_natural_tie,
            b.p_banker_bonus_unnatural,
            payouts,
        )
    }

    /// Does a wager that pays on `ways` deals pay more often than the
    /// threshold, a probability in units of one part in `PAYOUT_SCALE`?
    pub open spec fn exceeds(&self, ways: int, p_threshold: u32) -> bool {
        ways * PAYOUT_SCALE > p_threshold * self.denominator
    }

    /// The main wagers in the order in which they are considered. A main
    /// wager pays or is handed back on a win and on a tie.
    pub open spec fn main_candidates(&self, p_threshold: u32) -> spec_fn(int) -> Candidate {
        |i: int|
            {
                let m = self.sol_main;
                if i == 0 {
                    (
                        HandsBet::PlayerWin,
                        self.exceeds(m.p_player_win + m.p_tie, p_threshold),
                        m.ex_player_win as int,
                    )
                } else if i == 1 {
                    (
                        HandsBet::BankerWin,
                        self.exceeds(m.p_banker_win + m.p_tie, p_threshold),
                        m.ex_banker_win as int,
                    )
                } else {
                    (HandsBet::Tie, self.exceeds(m.p_tie as int, p_threshold), m.ex_tie as int)
                }
            }
    }

    /// The side wagers in the order in which they are considered.
    pub open spec fn side_candidates(&self, p_threshold: u32) -> spec_fn(int) -> Candidate {
        |i: int|
            {
                let p = self.sol_pair;
                let b = self.sol_bonus;
                if i == 0 {
                    (
                        HandsBet::PlayerUnsuitPair,
                        self.exceeds(p.p_unsuit_pair as int, p_threshold),
                        p.ex_unsuit_pair as int,
                    )
                } else if i == 1 {
                    (
                        HandsBet::EitherPair,
                        self.exceeds(p.p_either_pair as int, p_threshold),
                        p.ex_either_pair as int,
                    )
                } else if i == 2 {
                    (
                        HandsBet::PerfectPair,
                        self.exceeds(p.p_suit_pair[0] + p.p_suit_pair[1], p_threshold),
                        p.ex_suit_pair as int,
                    )
                } else if i == 3 {
                    (
                        HandsBet::PlayerBonus,
                        self.exceeds(b.player_total(), p_threshold),
                        b.ex_player_bonus as int,
                    )
                } else {
                    (
                        HandsBet::BankerBonus,
                        self.exceeds(b.banker_total(), p_threshold),
                        b.ex_banker_bonus as int,
                    )
                }
            }
    }
}

impl Default for Solution {
    /// The solution that holds no deal: every count is zero, of one deal.
    fn default() -> (solution: Solution)
        ensures
            solution.wf(),
            solution.denominator == 1,
            solution.sol_main == (SolutionMain {
                p_player_win: 0,
                ex_player_win: 0,
                p_banker_win: 0,
                ex_banker_win: 0,
                p_tie: 0,
                ex_tie: 0,
            }),
            solution.sol_pair.p_unsuit_pair == 0,
            solution.sol_pair.p_either_pair == 0,
            solution.sol_pair.p_suit_pair[0] == 0,
            solution.sol_pair.p_suit_pair[1] == 0,
            solution.sol_bonus.player_total() == 0,
            solution.sol_bonus.banker_total() == 0,
    {
        Solution {
            denominator: 1,
            sol_main: SolutionMain {
                p_player_win: 0,
                ex_player_win: 0,
                p_banker_win: 0,
                ex_banker_win: 0,
                p_tie: 0,
                ex_tie: 0,
            },
            sol_pair: SolutionPair {
                p_unsuit_pair: 0,
                ex_unsuit_pair: 0,
                p_either_pair: 0,
                ex_either_pair: 0,
                p_suit_pair: [0u128;2],
                ex_suit_pair: 0,
            },
            sol_bonus: SolutionBonus {
                p_player_bonus_unnatural: [0u128;6],
                p_player_bonus_natural_win: 0,
                p_banker_bonus_unnatural: [0u128;6],
                p_banker_bonus_natural_win: 0,
                p_bonus_natural_tie: 0,
                ex_player_bonus: 0,
                ex_banker_bonus: 0,
            },
        }
    }
}


/// What `p` deals are paid at the rate `pay`.
fn paid(p: u128, pay: u32) -> (r: u128)
    requires
        p <= MAX_DENOMINATOR,
    ensures
        r == p * pay,
        r <= p * 0xffff_ffff,
{
    assert(0 <= p * pay <= p * 0xffff_ffff) by (nonlinear_arith)
        requires
            0 <= p,
            0 <= pay <= 0xffff_ffff,
    ;
    p * (pay as u128)
}

/// The worth of a wager that is paid `paid` in all and lost on `lose` deals.
fn net(paid: u128, lose: u128) -> (r: i128)
    requires
        paid <= MAX_DENOMINATOR * 0xffff_ffff,
        lose <= MAX_DENOMINATOR,
    ensures
        r == worth(paid as int, lose as int),
{
    assert(lose * PAYOUT_SCALE <= MAX_DENOMINATOR * 10_000) by (nonlinear_arith)
        requires
            0 <= lose <= MAX_DENOMINATOR,
            PAYOUT_SCALE == 10_000,
    ;
    let lost: u128 = lose * (PAYOUT_SCALE as u128);
    (paid as i128) - (lost as i128)
}

/// What six counts are paid, each at its own rate.
fn paid_six(p: &[u128; 6], pay: &[u32; 6]) -> (r: u128)
    requires
        sum6(*p) <= MAX_DENOMINATOR,
    ensures
        r == paid6(*p, *pay),
        r <= sum6(*p) * 0xffff_ffff,
{
    let a0 = paid(p[0], pay[0]);
    let a1 = paid(p[1], pay[1]);
    let a2 = paid(p[2], pay[2]);
    let a3 = paid(p[3], pay[3]);
    let a4 = paid(p[4], pay[4]);
    let a5 = paid(p[5], pay[5]);
    a0 + a1 + a2 + a3 + a4 + a5
}

/// The sum of six counts.
fn sum_six(p: &[u128; 6]) -> (r: u128)
    requires
        sum6(*p) <= u128::MAX,
    ensures
        r == sum6(*p),
{
    p[0] + p[1] + p[2] + p[3] + p[4] + p[5]
}

/// The worth of a bonus wager.
fn bonus_net(
    denominator: u128,
    natural_win: u128,
    natural_tie: u128,
    unnatural: &[u128; 6],
    payouts: &Payouts,
) -> (r: i128)
    requires
        denominator <= MAX_DENOMINATOR,
        natural_win + natural_tie + sum6(*unnatural) <= denominator,
    ensures
        r == bonus_worth(denominator, natural_win, natural_tie, *unnatural, *payouts),
{
    let win = paid(natural_win, payouts.bonus_natural_win);
    let tie = paid(natural_tie, payouts.bonus_natural_tie);
    let margins = paid_six(unnatural, &payouts.bonus_unnatural);
    let lose: u128 = denominator - natural_win - natural_tie - sum_six(unnatural);
    net(win + tie + margins, lose)
}

impl Solution {
    /// Works out every expectation from the counts of deals and the payouts
    /// of the rule. The counts stay as they are.
    pub fn calculate_ex_based_on_p(&mut self, rule: &Rule)
        requires
            old(self).wf(),
        ensures
            final(self).wf(),
            final(self).same_probabilities(old(self)),
            final(self).expectations_follow(rule.payouts),
    {
        let payouts = &rule.payouts;
        let d = self.denominator;
        let m = self.sol_main;
        let p = self.sol_pair;
        let b = self.sol_bonus;
        let ex_player_win = net(paid(m.p_player_win, payouts.player_win), m.p_banker_win);
        let ex_banker_win = net(paid(m.p_banker_win, payouts.banker_win), m.p_player_win);
        let ex_tie = net(paid(m.p_tie, payouts.tie), d - m.p_tie);
        let ex_unsuit_pair = net(paid(p.p_unsuit_pair, payouts.unsuit_pair), d - p.p_unsuit_pair);
        let ex_either_pair = net(paid(p.p_either_pair, payouts.either_pair), d - p.p_either_pair);
        let one = paid(p.p_suit_pair[0], payouts.perfect_pair[0]);
        let two = paid(p.p_suit_pair[1], payouts.perfect_pair[1]);
        let ex_suit_pair = net(one + two, d - p.p_suit_pair[0] - p.p_suit_pair[1]);
        let ex_player_bonus = bonus_net(
            d,
            b.p_player_bonus_natural_win,
            b.p_bonus_natural_tie,
            &b.p_player_bonus_unnatural,
            payouts,
        );
        let ex_banker_bonus = bonus_net(
            d,
            b.p_banker_bonus_natural_win,
            b.p_bonus_natural_tie,
            &b.p_banker_bonus_unnatural,
            payouts,
        );
        self.sol_main.ex_player_win = ex_player_win;
        self.sol_main.ex_banker_win = ex_banker_win;
        self.sol_main.ex_tie = ex_tie;
        self.sol_pair.ex_unsuit_pair = ex_unsuit_pair;
        self.sol_pair.ex_either_pair = ex_either_pair;
        self.sol_pair.ex_suit_pair = ex_suit_pair;
        self.sol_bonus.ex_player_bonus = ex_player_bonus;
        self.sol_bonus.ex_banker_bonus = ex_banker_bonus;
    }

    /// Does a wager that pays on `ways` deals pay more often than the
    /// threshold?
    fn is_above(&self, ways: u128, p_threshold: u32) -> (above: bool)
        requires
            self.denominator <= MAX_DENOMINATOR,
            ways <= 2 * self.denominator,
        ensures
            above == self.exceeds(ways as int, p_threshold),
    {
        let d = self.denominator;
        assert(0 <= p_threshold * d <= 0xffff_ffff * MAX_DENOMINATOR) by (nonlinear_arith)
            requires
                0 <= p_threshold <= 0xffff_ffff,
                0 <= d <= MAX_DENOMINATOR,
        ;
        assert(ways * PAYOUT_SCALE <= 2 * MAX_DENOMINATOR * 10_000) by (nonlinear_arith)
            requires
                0 <= ways <= 2 * MAX_DENOMINATOR,
                PAYOUT_SCALE == 10_000,
        ;
        ways * (PAYOUT_SCALE as u128) > (p_threshold as u128) * d
    }

    /// The best main wager and the best side wager: of the wagers that pay
    /// more often than `p_threshold`, a probability in units of one part in
    /// `PAYOUT_SCALE`, the one of the greatest expectation, and the first of
    /// them where several share it. Where no wager qualifies the answer is
    /// `PlaceHolder` with the least expectation there is.
    pub fn get_best_main_side_bet(&self, p_threshold: u32) -> (best: (
        (HandsBet, i128),
        (HandsBet, i128),
    ))
        requires
            self.wf(),
        ensures
            (best.0.0, best.0.1 as int) == best_bet(self.main_candidates(p_threshold), 3),
            (best.1.0, best.1.1 as int) == best_bet(self.side_candidates(p_threshold), 5),
    {
        let m = &self.sol_main;
        let p = &self.sol_pair;
        let b = &self.sol_bonus;
        let ghost mc = self.main_candidates(p_threshold);
        let ghost sc = self.side_candidates(p_threshold);
        proof {
            reveal_with_fuel(best_bet, 6);
        }
        let mut max_main: (HandsBet, i128) = (HandsBet::PlaceHolder, i128::MIN);
        let mut max_side: (HandsBet, i128) = (HandsBet::PlaceHolder, i128::MIN);
        if self.is_above(m.p_player_win + m.p_tie, p_threshold) && max_main.1 < m.ex_player_win {
            max_main = (HandsBet::PlayerWin, m.ex_player_win);
        }
        assert((max_main.0, max_main.1 as int) == best_bet(mc, 1));
        if self.is_above(m.p_banker_win + m.p_tie, p_threshold) && max_main.1 < m.ex_banker_win {
            max_main = (HandsBet::BankerWin, m.ex_banker_win);
        }
        assert((max_main.0, max_main.1 as int) == best_bet(mc, 2));
        if self.is_above(m.p_tie, p_threshold) && max_main.1 < m.ex_tie {
            max_main = (HandsBet::Tie, m.ex_tie);
        }
        assert((max_main.0, max_main.1 as int) == best_bet(mc, 3));

        if self.is_above(p.p_unsuit_pair, p_threshold) && max_side.1 < p.ex_unsuit_pair {
            max_side = (HandsBet::PlayerUnsuitPair, p.ex_unsuit_pair);
        }
        assert((max_side.0, max_side.1 as int) == best_bet(sc, 1));
        if self.is_above(p.p_either_pair, p_threshold) && max_side.1 < p.ex_either_pair {
            max_side = (HandsBet::EitherPair, p.ex_either_pair);
        }
        assert((max_side.0, max_side.1 as int) == best_bet(sc, 2));
        if self.is_above(p.p_suit_pair[0] + p.p_suit_pair[1], p_threshold) && max_side.1
            < p.ex_suit_pair {
            max_side = (HandsBet::PerfectPair, p.ex_suit_pair);
        }
        assert((max_side.0, max_side.1 as int) == best_bet(sc, 3));
        let player_total: u128 = b.p_player_bonus_natural_win + b.p_bonus_natural_tie + sum_six(
            &b.p_player_bonus_unnatural,
        );
        if self.is_above(player_total, p_threshold) && max_side.1 < b.ex_player_bonus {
            max_side = (HandsBet::PlayerBonus, b.ex_player_bonus);
        }
        assert((max_side.0, max_side.1 as int) == best_bet(sc, 4));
        let banker_total: u128 = b.p_banker_bonus_natural_win + b.p_bonus_natural_tie + sum_six(
            &b.p_banker_bonus_unnatural,
        );
        if self.is_above(banker_total, p_threshold) && max_side.1 < b.ex_banker_bonus {
            max_side = (HandsBet::BankerBonus, b.ex_banker_bonus);
        }
        assert((max_side.0, max_side.1 as int) == best_bet(sc, 5));
        (max_main, max_side)
    }
}

} // verus!
