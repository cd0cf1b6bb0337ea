//! The enumeration of deals: every distinguishable way to deal a round from
//! a composition of point values, each counted with its number of deals.

use vstd::prelude::*;
use crate::calculation::counter::Counter;
use crate::calculation::deal::{
    banker_draws, banker_third, deal_ways, denominator, factor, finish_ways, hand, hand_bound,
    hand_ways, indicator, lemma_banker_third_bound, lemma_deal_ways_bound,
    lemma_denominator_positive, lemma_finish_ways_bound, lemma_hand_bound_fits, lemma_hand_ways,
    lemma_player_third_bound, lemma_take_two, occurs, player_third, take_two, Outcome, MAX_CARDS,
    MAX_DENOMINATOR,
};
use crate::calculation::pairs::{
    both_paired, either_is_pair, four_card_ways, lemma_either_paired_bound,
    lemma_either_paired_counts_draws, lemma_first_pair_splits, lemma_same_ways_bound, next_two,
    only_first_paired, pair_ways_split, same_class_ways, same_ways,
};
use crate::calculation::partition::{
    bonus_outcome, lemma_bonus_outcomes_disjoint, lemma_main_outcomes_cover,
    lemma_main_outcomes_disjoint, over_bonus,
};
use crate::calculation::solution::{Solution, SolutionBonus, SolutionMain, SolutionPair};
use crate::Rule;
use crate::calculation::sums::{
    can_draw_two, counts, draw_sum, lemma_count_le_total, lemma_draw_sum_monotone, lemma_pair_row_empty,
    lemma_pair_sum_partial, lemma_pair_ways_positive, lemma_take_non_negative, lemma_take_total,
    lemma_two_card_sum_by_pairs, non_negative, pair_row, pair_sum, pair_term, pair_ways, take,
    total,
};

verus! {

/// The outcome that is counted at a place of a tally: the three results of
/// the main wagers, the three natural results, then the margins 4 to 9 of
/// the player and those of the banker.
pub open spec fn outcome_at(k: int) -> Outcome {
    if k == 0 {
        Outcome::PlayerWin
    } else if k == 1 {
        Outcome::BankerWin
    } else if k == 2 {
        Outcome::Tie
    } else if k == 3 {
        Outcome::PlayerNaturalWin
    } else if k == 4 {
        Outcome::BankerNaturalWin
    } else if k == 5 {
        Outcome::NaturalTie
    } else if k < 12 {
        Outcome::PlayerMargin((k - 2) as u8)
    } else {
        Outcome::BankerMargin((k - 8) as u8)
    }
}

/// The third-card rule as a lookup: does the banker, holding `banker_sum`,
/// draw after the player's third card of point value `player_third`?
pub fn rule_chart(banker_sum: usize, player_third: usize) -> (draw: bool)
    requires
        banker_sum < 10,
        player_third < 10,
    ensures
        draw == banker_draws(banker_sum as int, player_third as int),
{
    if banker_sum <= 2 {
        true
    } else if banker_sum == 3 {
        player_third != 8
    } else if banker_sum == 4 {
        2 <= player_third && player_third <= 7
    } else if banker_sum == 5 {
        4 <= player_third && player_third <= 7
    } else if banker_sum == 6 {
        6 <= player_third && player_third <= 7
    } else {
        false
    }
}

/// Adds `p` deals to the outcomes of a round that ended without a natural.
pub fn add_p_of_unnatural_to_solution(
    player_sum: usize,
    banker_sum: usize,
    tally: &mut [u128; 18],
    p: u128,
)
    requires
        player_sum < 10,
        banker_sum < 10,
        forall|k: int| 0 <= k < 18 ==> old(tally)[k] + p <= u128::MAX,
    ensures
        forall|k: int|
            0 <= k < 18 ==> #[trigger] final(tally)[k] == old(tally)[k] + p * indicator(
                occurs(outcome_at(k), player_sum as int, banker_sum as int, false),
            ),
{
    if player_sum < banker_sum {
        tally[1] = tally[1] + p;
        let delta: usize = banker_sum - player_sum;
        if delta >= 4 {
            tally[8 + delta] = tally[8 + delta] + p;
        }
    } else if player_sum == banker_sum {
        tally[2] = tally[2] + p;
    } else {
        tally[0] = tally[0] + p;
        let delta: usize = player_sum - banker_sum;
        if delta >= 4 {
            tally[2 + delta] = tally[2 + delta] + p;
        }
    }
    proof {
        assert(p * 1 == p && p * 0 == 0);
    }
}

/// Adds `p` deals to the outcomes of a round that a natural ended.
pub fn add_p_of_natural_to_solution(
    player_sum: usize,
    banker_sum: usize,
    tally: &mut [u128; 18],
    p: u128,
)
    requires
        player_sum < 10,
        banker_sum < 10,
        forall|k: int| 0 <= k < 18 ==> old(tally)[k] + p <= u128::MAX,
    ensures
        forall|k: int|
            0 <= k < 18 ==> #[trigger] final(tally)[k] == old(tally)[k] + p * indicator(
                occurs(outcome_at(k), player_sum as int, banker_sum as int, true),
            ),
{
    if player_sum < banker_sum {
        tally[1] = tally[1] + p;
        tally[4] = tally[4] + p;
    } else if player_sum == banker_sum {
        tally[2] = tally[2] + p;
        tally[5] = tally[5] + p;
    } else {
        tally[0] = tally[0] + p;
        tally[3] = tally[3] + p;
    }
    proof {
        assert(p * 1 == p && p * 0 == 0);
    }
}

/// Adds `w` times the tally `t` to the tally `acc`.
pub fn add_scaled(acc: &mut [u128; 18], w: u128, t: &[u128; 18])
    requires
        forall|k: int| 0 <= k < 18 ==> old(acc)[k] + w * #[trigger] t[k] <= u128::MAX,
    ensures
        forall|k: int| 0 <= k < 18 ==> #[trigger] final(acc)[k] == old(acc)[k] + w * t[k],
{
    let mut k: usize = 0;
    while k < 18
        invariant
            k <= 18,
            forall|j: int| 0 <= j < 18 ==> old(acc)[j] + w * #[trigger] t[j] <= u128::MAX,
            forall|j: int| 0 <= j < k ==> #[trigger] acc[j] == old(acc)[j] + w * t[j],
            forall|j: int| k <= j < 18 ==> #[trigger] acc[j] == old(acc)[j],
        decreases 18 - k,
    {
        assert(old(acc)[k as int] + w * t[k as int] <= u128::MAX);
        assert(0 <= w * t[k as int]) by (nonlinear_arith);
        acc[k] = acc[k] + w * t[k];
        k += 1;
    }
}

/// The banker draws a third card from `bcr_counter`: counts, for every
/// outcome, the cards that end the round in it.
pub fn deal_final_banker_card_loop(
    bcr_counter: &[u32; 10],
    player_sum: usize,
    banker_sum: usize,
) -> (tally: [u128; 18])
    requires
        player_sum < 10,
        banker_sum < 10,
    ensures
        forall|k: int|
            0 <= k < 18 ==> #[trigger] tally[k] == draw_sum(
                counts(bcr_counter@),
                banker_third(player_sum as int, banker_sum as int, outcome_at(k)),
                10,
            ),
{
    let mut tally: [u128; 18] = [0u128;18];
    let ghost c = counts(bcr_counter@);
    let mut card: usize = 0;
    while card < 10
        invariant
            card <= 10,
            player_sum < 10,
            banker_sum < 10,
            c == counts(bcr_counter@),
            forall|k: int|
                0 <= k < 18 ==> #[trigger] tally[k] == draw_sum(
                    c,
                    banker_third(player_sum as int, banker_sum as int, outcome_at(k)),
                    card as int,
                ),
            forall|k: int| 0 <= k < 18 ==> #[trigger] tally[k] <= card * 0xffff_ffff,
        decreases 10 - card,
    {
        if bcr_counter[card] != 0 {
            let n: u128 = bcr_counter[card] as u128;
            let ghost before = tally;
            add_p_of_unnatural_to_solution(player_sum, (banker_sum + card) % 10, &mut tally, n);
            proof {
                assert(n * 1 == n && n * 0 == 0);
                assert forall|k: int| 0 <= k < 18 implies #[trigger] tally[k] == draw_sum(
                    c,
                    banker_third(player_sum as int, banker_sum as int, outcome_at(k)),
                    card + 1,
                ) by {
                    assert(tally[k] == before[k] + n * indicator(
                        occurs(
                            outcome_at(k),
                            player_sum as int,
                            ((banker_sum + card) % 10) as int,
                            false,
                        ),
                    ));
                }
            }
        }
        card += 1;
    }
    tally
}


/// The first four cards are dealt and `bcr_counter` holds the rest: counts,
/// for every outcome, the ways to complete the deal in it. The player draws
/// on a sum of five or less, the banker by the third-card rule.
pub fn deal_third_cards(
    bcr_counter: &mut [u32; 10],
    total_count: u32,
    player_sum: usize,
    banker_sum: usize,
) -> (tally: [u128; 18])
    requires
        player_sum < 10,
        banker_sum < 10,
        total_count == total(counts(old(bcr_counter)@)),
    ensures
        final(bcr_counter)@ == old(bcr_counter)@,
        forall|k: int|
            0 <= k < 18 ==> #[trigger] tally[k] == finish_ways(
                counts(old(bcr_counter)@),
                player_sum as int,
                banker_sum as int,
                outcome_at(k),
            ),
{
    let ghost c = counts(bcr_counter@);
    let ghost ps = player_sum as int;
    let ghost bs = banker_sum as int;
    let f4: u128 = if total_count >= 1 {
        total_count as u128
    } else {
        1
    };
    let f5: u128 = if total_count >= 2 {
        (total_count - 1) as u128
    } else {
        1
    };
    assert(f4 * f5 <= 0xffff_ffff * 0xffff_ffff) by (nonlinear_arith)
        requires
            f4 <= 0xffff_ffff,
            f5 <= 0xffff_ffff,
    ;
    let mut tally: [u128; 18] = [0u128;18];
    if player_sum >= 8 || banker_sum >= 8 {
        add_p_of_natural_to_solution(player_sum, banker_sum, &mut tally, f4 * f5);
    } else if player_sum >= 6 {
        if banker_sum >= 6 {
            add_p_of_unnatural_to_solution(player_sum, banker_sum, &mut tally, f4 * f5);
        } else {
            let last = deal_final_banker_card_loop(bcr_counter, player_sum, banker_sum);
            proof {
                assert forall|k: int| 0 <= k < 18 implies tally[k] + f5 * #[trigger] last[k]
                    <= u128::MAX by {
                    lemma_banker_third_bound(c, ps, bs, outcome_at(k));
                    let x = last[k];
                    assert(f5 * x <= 0xffff_ffff * 0xffff_ffff) by (nonlinear_arith)
                        requires
                            f5 <= 0xffff_ffff,
                            x <= 0xffff_ffff,
                    ;
                }
            }
            add_scaled(&mut tally, f5, &last);
        }
    } else {
        let mut v: usize = 0;
        while v < 10
            invariant
                v <= 10,
                player_sum < 6,
                banker_sum < 8,
                ps == player_sum,
                bs == banker_sum,
                bcr_counter@ == old(bcr_counter)@,
                c == counts(bcr_counter@),
                total_count == total(c),
                f5 == factor(total(c) - 1),
                f4 == factor(total(c)),
                f4 * f5 <= 0xffff_ffff * 0xffff_ffff,
                forall|k: int|
                    0 <= k < 18 ==> #[trigger] tally[k] == draw_sum(
                        c,
                        player_third(c, ps, bs, outcome_at(k)),
                        v as int,
                    ),
            decreases 10 - v,
        {
            if bcr_counter[v] != 0 {
                let n: u128 = bcr_counter[v] as u128;
                let new_sum: usize = (player_sum + v) % 10;
                proof {
                    assert forall|k: int| 0 <= k < 18 implies #[trigger] tally[k] + n
                        * player_third(c, ps, bs, outcome_at(k))(v as int) <= 0xffff_ffff
                        * 0xffff_ffff by {
                        let g = player_third(c, ps, bs, outcome_at(k));
                        lemma_player_third_bound(c, ps, bs, outcome_at(k));
                        lemma_draw_sum_monotone(c, g, v + 1, 10);
                        lemma_finish_ways_bound(c, ps, bs, outcome_at(k));
                        assert(c[v as int] == n);
                        assert(draw_sum(c, g, v + 1) == draw_sum(c, g, v as int) + c[v as int] * g(
                            v as int,
                        ));
                        assert(finish_ways(c, ps, bs, outcome_at(k)) == draw_sum(c, g, 10));
                    }
                }
                bcr_counter[v] = bcr_counter[v] - 1;
                assert(counts(bcr_counter@) =~= take(c, v as int));
                if rule_chart(banker_sum, v) {
                    let last = deal_final_banker_card_loop(bcr_counter, new_sum, banker_sum);
                    proof {
                        assert forall|k: int| 0 <= k < 18 implies #[trigger] last[k]
                            == player_third(c, ps, bs, outcome_at(k))(v as int) by {}
                    }
                    add_scaled(&mut tally, n, &last);
                } else {
                    assert(n * f5 <= 0xffff_ffff * 0xffff_ffff) by (nonlinear_arith)
                        requires
                            n <= 0xffff_ffff,
                            f5 <= 0xffff_ffff,
                    ;
                    let ghost before = tally;
                    add_p_of_unnatural_to_solution(new_sum, banker_sum, &mut tally, n * f5);
                    proof {
                        assert forall|k: int| 0 <= k < 18 implies #[trigger] tally[k] == before[k]
                            + n * player_third(c, ps, bs, outcome_at(k))(v as int) by {
                            let i = indicator(
                                occurs(outcome_at(k), new_sum as int, banker_sum as int, false),
                            );
                            assert((n * f5) * i == n * (f5 * i)) by (nonlinear_arith);
                        }
                    }
                }
                bcr_counter[v] = bcr_counter[v] + 1;
                assert(bcr_counter@ =~= old(bcr_counter)@);
            }
            v += 1;
        }
    }
    tally
}


/// The sum of the player's two cards, where they have been dealt.
pub open spec fn dealt(player: Option<usize>) -> Option<int> {
    match player {
        Some(p) => Some(p as int),
        None => None,
    }
}

/// Deals a hand of two cards from `bcr_counter` and all that follows, and
/// counts for every outcome the ways to do so. With `player` empty the hand
/// is the player's and the banker's follows; with the player's sum in it the
/// hand is the banker's and the third cards follow. The two cards are
/// enumerated as a pair, the second no greater than the first, and a pair is
/// weighed by the ways to draw it in either order.
pub fn deal_hands(bcr_counter: &mut [u32; 10], total_count: u32, player: Option<usize>) -> (tally:
    [u128; 18])
    requires
        total_count == total(counts(old(bcr_counter)@)),
        total_count <= MAX_CARDS,
        player matches Some(p) ==> p < 10,
    ensures
        final(bcr_counter)@ == old(bcr_counter)@,
        forall|k: int|
            0 <= k < 18 ==> #[trigger] tally[k] == hand_ways(
                counts(old(bcr_counter)@),
                dealt(player),
                outcome_at(k),
            ),
    decreases
            (if player is None {
                1int
            } else {
                0int
            }),
{
    let ghost c = counts(bcr_counter@);
    let ghost pl = dealt(player);
    let mut tally: [u128; 18] = [0u128;18];
    let mut first: usize = 0;
    proof {
        lemma_hand_bound_fits(total_count as int, pl);
    }
    while first < 10
        invariant
            first <= 10,
            bcr_counter@ == old(bcr_counter)@,
            c == counts(bcr_counter@),
            pl == dealt(player),
            player matches Some(p) ==> p < 10,
            total_count == total(c),
            total_count <= MAX_CARDS,
            hand_bound(total_count as int, pl) <= MAX_DENOMINATOR,
            forall|k: int|
                0 <= k < 18 ==> #[trigger] tally[k] == pair_sum(
                    c,
                    hand(c, pl, outcome_at(k)),
                    first as int,
                ),
        decreases 10 - first,
    {
        if bcr_counter[first] != 0 {
            let n0: u128 = bcr_counter[first] as u128;
            proof {
                lemma_count_le_total(c, first as int);
                lemma_take_total(c, first as int);
                lemma_take_non_negative(c, first as int);
            }
            bcr_counter[first] = bcr_counter[first] - 1;
            assert(counts(bcr_counter@) =~= take(c, first as int));
            let mut second: usize = 0;
            while second <= first
                invariant
                    first < 10,
                    second <= first + 1,
                    c == counts(old(bcr_counter)@),
                    c[first as int] == n0,
                    0 < n0 <= MAX_CARDS,
                    counts(bcr_counter@) == take(c, first as int),
                    pl == dealt(player),
                    player matches Some(p) ==> p < 10,
                    total_count == total(c),
                    total_count <= MAX_CARDS,
                    hand_bound(total_count as int, pl) <= MAX_DENOMINATOR,
                    forall|k: int|
                        0 <= k < 18 ==> #[trigger] tally[k] == pair_sum(
                            c,
                            hand(c, pl, outcome_at(k)),
                            first as int,
                        ) + pair_row(c, hand(c, pl, outcome_at(k)), first as int, second as int),
                decreases first + 1 - second,
            {
                proof {
                    lemma_pair_ways_positive(c, first as int, second as int);
                }
                if bcr_counter[second] != 0 {
                    let n1: u128 = bcr_counter[second] as u128;
                    proof {
                        lemma_take_total(c, first as int);
                        lemma_take_non_negative(c, first as int);
                        lemma_count_le_total(take(c, first as int), second as int);
                        lemma_take_two(c, first as int, second as int);
                        assert(n1 == take(c, first as int)[second as int]);
                        assert(can_draw_two(c, first as int, second as int));
                    }
                    assert(n0 * n1 <= 52_000 * 52_000) by (nonlinear_arith)
                        requires
                            n0 <= 52_000,
                            n1 <= 52_000,
                    ;
                    let ways: u128 = if first == second {
                        n0 * n1
                    } else {
                        2 * (n0 * n1)
                    };
                    assert(ways == pair_ways(c, first as int, second as int));
                    bcr_counter[second] = bcr_counter[second] - 1;
                    assert(counts(bcr_counter@) =~= take_two(c, first as int, second as int));
                    let ghost c4 = counts(bcr_counter@);
                    let ghost before = bcr_counter@;
                    let sum: usize = (first + second) % 10;
                    let child = match player {
                        None => deal_hands(bcr_counter, total_count - 2, Some(sum)),
                        Some(p) => deal_third_cards(bcr_counter, total_count - 2, p, sum),
                    };
                    proof {
                        assert forall|k: int| 0 <= k < 18 implies tally[k] + ways
                            * #[trigger] child[k] <= u128::MAX && tally[k] + ways * child[k]
                            == pair_sum(c, hand(c, pl, outcome_at(k)), first as int) + pair_row(
                            c,
                            hand(c, pl, outcome_at(k)),
                            first as int,
                            second + 1,
                        ) by {
                            let g = hand(c, pl, outcome_at(k));
                            lemma_hand_ways(c, pl, outcome_at(k));
                            lemma_hand_ways(c4, Some(sum as int), outcome_at(k));
                            assert(child[k] == g(first as int, second as int));
                            assert(pair_term(c, g, first as int, second as int) == ways * child[k]);
                            lemma_pair_sum_partial(c, g, first as int, second + 1);
                            lemma_two_card_sum_by_pairs(c, g);
                        }
                    }
                    add_scaled(&mut tally, ways, &child);
                    bcr_counter[second] = bcr_counter[second] + 1;
                    assert(counts(bcr_counter@) =~= take(c, first as int));
                }
                second += 1;
            }
            proof {
                let s = bcr_counter@;
                assert forall|i: int| 0 <= i < 10 implies #[trigger] s[i] == take(
                    c,
                    first as int,
                )[i] by {
                    assert(counts(s)[i] == s[i]);
                }
            }
            bcr_counter[first] = bcr_counter[first] + 1;
            assert(bcr_counter@ =~= old(bcr_counter)@);
        } else {
            proof {
                assert forall|k: int| 0 <= k < 18 implies pair_row(
                    c,
                    hand(c, pl, #[trigger] outcome_at(k)),
                    first as int,
                    first + 1,
                ) == 0 by {
                    lemma_pair_row_empty(c, hand(c, pl, outcome_at(k)), first as int, first + 1);
                }
            }
        }
        first += 1;
    }
    proof {
        assert forall|k: int| 0 <= k < 18 implies #[trigger] tally[k] == hand_ways(
            c,
            pl,
            outcome_at(k),
        ) by {
            lemma_hand_ways(c, pl, outcome_at(k));
            lemma_two_card_sum_by_pairs(c, hand(c, pl, outcome_at(k)));
        }
    }
    tally
}


/// Why a composition cannot be solved.
#[derive(Debug, Clone, Copy, PartialEq, Eq, Structural)]
pub enum SolveError {
    /// Fewer than four cards are left: no round can be dealt.
    TooFewCards,
    /// More than `MAX_CARDS` cards: the deals cannot be counted in 128 bits.
    TooManyCards,
}

/// The ways to fill the last two places of a deal, whatever the first four
/// cards were.
pub open spec fn free_places(t: int) -> int {
    factor(t - 4) * factor(t - 5)
}

/// The deals in which a given side holds a pair: its two cards are of one
/// class.
pub open spec fn first_pair_ways(classes: Seq<int>) -> int {
    same_ways(classes, classes.len() as int) * next_two(classes) * free_places(total(classes))
}

/// The deals in which only the first side holds a pair: `classes` are the
/// counts of the ranks for a pair, those of the cards for a perfect pair.
pub open spec fn only_first_pair_ways(classes: Seq<int>) -> int {
    only_first_paired(classes) * free_places(total(classes))
}

/// The deals in which both sides hold a pair.
pub open spec fn both_pair_ways(classes: Seq<int>) -> int {
    both_paired(classes) * free_places(total(classes))
}

/// The deals in which at least one side holds a pair: those in which only
/// the player does, as many in which only the banker does, and those in
/// which both do.
pub open spec fn either_pair_ways(classes: Seq<int>) -> int {
    2 * only_first_pair_ways(classes) + both_pair_ways(classes)
}

impl Solution {
    /// The solution holds the counts of deals of a composition, given by
    /// the counts of its cards, of its ranks and of its point values.
    pub open spec fn holds(&self, cards: Seq<int>, ranks: Seq<int>, values: Seq<int>) -> bool {
        let m = self.sol_main;
        let p = self.sol_pair;
        let b = self.sol_bonus;
        &&& self.denominator == denominator(total(values))
        &&& m.p_player_win == deal_ways(values, Outcome::PlayerWin)
        &&& m.p_banker_win == deal_ways(values, Outcome::BankerWin)
        &&& m.p_tie == deal_ways(values, Outcome::Tie)
        &&& b.p_player_bonus_natural_win == deal_ways(values, Outcome::PlayerNaturalWin)
        &&& b.p_banker_bonus_natural_win == deal_ways(values, Outcome::BankerNaturalWin)
        &&& b.p_bonus_natural_tie == deal_ways(values, Outcome::NaturalTie)
        &&& forall|i: int|
            0 <= i < 6 ==> #[trigger] b.p_player_bonus_unnatural[i] == deal_ways(
                values,
                Outcome::PlayerMargin((i + 4) as u8),
            )
        &&& forall|i: int|
            0 <= i < 6 ==> #[trigger] b.p_banker_bonus_unnatural[i] == deal_ways(
                values,
                Outcome::BankerMargin((i + 4) as u8),
            )
        &&& p.p_unsuit_pair == first_pair_ways(ranks)
        &&& p.p_either_pair == either_pair_ways(ranks)
        &&& p.p_suit_pair[0] == 2 * only_first_pair_ways(cards)
        &&& p.p_suit_pair[1] == both_pair_ways(cards)
    }
}

/// The pair wagers agree with one another, for pairs by rank and for
/// perfect pairs alike: the deals in which a given side holds a pair are
/// those in which only it does and those in which both sides do, so the
/// deals in which at least one side holds a pair are twice the former less
/// the latter; and they are no more than all deals.
pub proof fn lemma_pair_wagers_agree(classes: Seq<int>)
    requires
        non_negative(classes),
        total(classes) >= 4,
    ensures
        only_first_pair_ways(classes) + both_pair_ways(classes) == first_pair_ways(classes),
        either_pair_ways(classes) == 2 * first_pair_ways(classes) - both_pair_ways(classes),
        0 <= both_pair_ways(classes) <= first_pair_ways(classes) <= either_pair_ways(classes)
            <= denominator(total(classes)),
{
    let t = total(classes);
    let f = free_places(t);
    let (o, b, w, m) = (
        only_first_paired(classes),
        both_paired(classes),
        same_ways(classes, classes.len() as int),
        next_two(classes),
    );
    lemma_first_pair_splits(classes);
    lemma_either_paired_bound(classes);
    assert(f >= 1) by (nonlinear_arith)
        requires
            f == factor(t - 4) * factor(t - 5),
            factor(t - 4) >= 1,
            factor(t - 5) >= 1,
    ;
    let q = t * (t - 1) * m;
    assert(o * f + b * f == w * m * f && 0 <= b * f && 0 <= o * f && (2 * o + b) * f <= q * f
        && (2 * o + b) * f == 2 * (o * f) + b * f) by (nonlinear_arith)
        requires
            o + b == m * w,
            0 <= o,
            0 <= b,
            f >= 1,
            2 * o + b <= q,
    ;
    assert(q * f == denominator(t));
}

/// The count of the deals in which at least one side holds a pair is their
/// number: the draws of four cards in which the first two or the last two
/// are of one class, each with the ways to fill the last two places of the
/// deal.
pub proof fn lemma_either_pair_counts_deals(classes: Seq<int>)
    requires
        non_negative(classes),
    ensures
        either_pair_ways(classes) == four_card_ways(classes, either_is_pair()) * free_places(
            total(classes),
        ),
{
    lemma_either_paired_counts_draws(classes);
    let (o, b, f) = (
        only_first_paired(classes),
        both_paired(classes),
        free_places(total(classes)),
    );
    assert((2 * o + b) * f == 2 * (o * f) + b * f) by (nonlinear_arith);
}

/// What `calculate` answers on a composition of `count` cards.
pub open spec fn solvable(count: int) -> Result<(), SolveError> {
    if count < 4 {
        Err(SolveError::TooFewCards)
    } else if count > MAX_CARDS {
        Err(SolveError::TooManyCards)
    } else {
        Ok(())
    }
}

/// `x` parts of `q`, each with `f` ways to go on, are at most `q * f`.
proof fn lemma_scale_bound(x: int, q: int, f: int)
    by (nonlinear_arith)
    requires
        0 <= x <= q,
        1 <= f,
    ensures
        0 <= x * f <= q * f,
{
}

/// Solves a composition: counts for every wager the deals on which it pays
/// and works out its expectation at the payouts of the rule. The counter is
/// left as it was. A composition of fewer than four cards or of more than
/// `MAX_CARDS` is refused, and then the solution is not touched.
pub fn calculate(rule: &Rule, counter: &mut Counter, solution: &mut Solution) -> (r: Result<
    (),
    SolveError,
>)
    ensures
        *final(counter) == *old(counter),
        r == solvable(old(counter).count()),
        r is Err ==> *final(solution) == *old(solution),
        r is Ok ==> final(solution).wf() && final(solution).holds(
            old(counter).cards(),
            old(counter).ranks(),
            old(counter).values(),
        ) && final(solution).expectations_follow(rule.payouts),
        r is Ok && old(counter).count() >= 6 ==> final(solution).sol_main.total() == final(
            solution
        ).denominator,
{
    let total_count: u32 = counter.get_total();
    if total_count < 4 {
        return Err(SolveError::TooFewCards);
    }
    if total_count > MAX_CARDS {
        return Err(SolveError::TooManyCards);
    }
    let ghost values = counter.values();
    let ghost ranks = counter.ranks();
    let ghost cards = counter.cards();
    let ghost tt = total_count as int;

    // Main and bonus wagers: the enumeration of deals.
    let mut bcr_counter: [u32; 10] = *counter.get_bcr_value_count();
    let tally = deal_hands(&mut bcr_counter, total_count, None);

    // Pair wagers.
    let mut value_count: [u32; 13] = *counter.get_value_count();
    let rank_same: u128 = same_class_ways(&value_count);
    let rank_split = pair_ways_split(&mut value_count, total_count);
    let mut card_count: [u32; 52] = *counter.get_card_count();
    let card_split = pair_ways_split(&mut card_count, total_count);

    let t: u128 = total_count as u128;
    let f4: u128 = if total_count >= 5 {
        t - 4
    } else {
        1
    };
    let f5: u128 = if total_count >= 6 {
        t - 5
    } else {
        1
    };
    assert((t - 2) * (t - 3) <= 52_000 * 52_000 && t * (t - 1) <= 52_000 * 52_000 && f4 * f5
        <= 52_000 * 52_000 && f4 * f5 >= 1) by (nonlinear_arith)
        requires
            4 <= t <= 52_000,
            1 <= f4 <= 52_000,
            1 <= f5 <= 52_000,
    ;
    let free: u128 = f4 * f5;
    let first_two: u128 = t * (t - 1);
    let next: u128 = (t - 2) * (t - 3);
    assert(first_two * next <= 52_000 * 52_000 * (52_000 * 52_000)) by (nonlinear_arith)
        requires
            first_two <= 52_000 * 52_000,
            next <= 52_000 * 52_000,
    ;
    let four: u128 = first_two * next;
    proof {
        lemma_hand_bound_fits(tt, None);
        lemma_denominator_positive(tt);
        assert(next == next_two(ranks) && next == next_two(cards));
        assert(free == free_places(tt));
        assert(four * free == denominator(tt));
        lemma_same_ways_bound(ranks, 13);
        lemma_first_pair_splits(ranks);
        lemma_first_pair_splits(cards);
        lemma_either_paired_bound(ranks);
        lemma_either_paired_bound(cards);
        let w = same_ways(ranks, 13);
        assert(w * next_two(ranks) <= four) by (nonlinear_arith)
            requires
                0 <= w <= tt * (tt - 1),
                four == tt * (tt - 1) * next_two(ranks),
                0 <= next_two(ranks),
        ;
        assert(0 <= w * next_two(ranks)) by (nonlinear_arith)
            requires
                0 <= w,
                0 <= next_two(ranks),
        ;
        lemma_scale_bound(w * next_two(ranks), four as int, free as int);
        lemma_scale_bound(
            2 * only_first_paired(ranks) + both_paired(ranks),
            four as int,
            free as int,
        );
        lemma_scale_bound(
            2 * only_first_paired(cards) + both_paired(cards),
            four as int,
            free as int,
        );
        lemma_scale_bound(only_first_paired(ranks), four as int, free as int);
        lemma_scale_bound(both_paired(ranks), four as int, free as int);
        lemma_scale_bound(only_first_paired(cards), four as int, free as int);
        lemma_scale_bound(both_paired(cards), four as int, free as int);
        let (ro, rb, co, cb) = (
            only_first_paired(ranks),
            both_paired(ranks),
            only_first_paired(cards),
            both_paired(cards),
        );
        assert((2 * ro + rb) * free == 2 * (ro * free) + rb * free && (2 * co + cb) * free == 2
            * (co * free) + cb * free) by (nonlinear_arith);
    }
    let denominator: u128 = four * free;
    let p_unsuit_pair: u128 = rank_same * next * free;
    let rank_only: u128 = rank_split.0 * free;
    let rank_both: u128 = rank_split.1 * free;
    let card_only: u128 = card_split.0 * free;
    let card_both: u128 = card_split.1 * free;
    proof {
        assert forall|k: int| 0 <= k < 18 implies #[trigger] tally[k] == deal_ways(
            values,
            outcome_at(k),
        ) && tally[k] <= denominator by {
            lemma_hand_ways(values, None, outcome_at(k));
            lemma_deal_ways_bound(values, outcome_at(k));
        }
        lemma_bonus_outcomes_disjoint(values, true);
        lemma_bonus_outcomes_disjoint(values, false);
        lemma_main_outcomes_disjoint(values);
        assert(outcome_at(0) == Outcome::PlayerWin && outcome_at(1) == Outcome::BankerWin
            && outcome_at(2) == Outcome::Tie);
        assert(bonus_outcome(true, 0) == outcome_at(3) && bonus_outcome(true, 1) == outcome_at(5)
            && bonus_outcome(true, 2) == outcome_at(6) && bonus_outcome(true, 3) == outcome_at(7)
            && bonus_outcome(true, 4) == outcome_at(8) && bonus_outcome(true, 5) == outcome_at(9)
            && bonus_outcome(true, 6) == outcome_at(10) && bonus_outcome(true, 7) == outcome_at(
            11,
        ));
        assert(bonus_outcome(false, 0) == outcome_at(4) && bonus_outcome(false, 1) == outcome_at(5)
            && bonus_outcome(false, 2) == outcome_at(12) && bonus_outcome(false, 3) == outcome_at(
            13,
        ) && bonus_outcome(false, 4) == outcome_at(14) && bonus_outcome(false, 5) == outcome_at(15)
            && bonus_outcome(false, 6) == outcome_at(16) && bonus_outcome(false, 7) == outcome_at(
            17,
        ));
        if tt >= 6 {
            lemma_main_outcomes_cover(values);
            assert(outcome_at(0) == Outcome::PlayerWin && outcome_at(1) == Outcome::BankerWin
                && outcome_at(2) == Outcome::Tie);
        }
    }
    *solution = Solution {
        denominator,
        sol_main: SolutionMain {
            p_player_win: tally[0],
            ex_player_win: 0,
            p_banker_win: tally[1],
            ex_banker_win: 0,
            p_tie: tally[2],
            ex_tie: 0,
        },
        sol_pair: SolutionPair {
            p_unsuit_pair,
            ex_unsuit_pair: 0,
            p_either_pair: 2 * rank_only + rank_both,
            ex_either_pair: 0,
            p_suit_pair: [2 * card_only, card_both],
            ex_suit_pair: 0,
        },
        sol_bonus: SolutionBonus {
            p_player_bonus_unnatural: [
                tally[6],
                tally[7],
                tally[8],
                tally[9],
                tally[10],
                tally[11],
            ],
            p_player_bonus_natural_win: tally[3],
            p_banker_bonus_unnatural: [
                tally[12],
                tally[13],
                tally[14],
                tally[15],
                tally[16],
                tally[17],
            ],
            p_banker_bonus_natural_win: tally[4],
            p_bonus_natural_tie: tally[5],
            ex_player_bonus: 0,
            ex_banker_bonus: 0,
        },
    };
    proof {
        assert forall|i: int| 0 <= i < 6 implies #[trigger] solution.sol_bonus.p_player_bonus_unnatural[i]
            == deal_ways(values, Outcome::PlayerMargin((i + 4) as u8)) by {
            assert(outcome_at(i + 6) == Outcome::PlayerMargin((i + 4) as u8));
            assert(solution.sol_bonus.p_player_bonus_unnatural[i] == tally[i + 6]);
        }
        assert forall|i: int| 0 <= i < 6 implies #[trigger] solution.sol_bonus.p_banker_bonus_unnatural[i]
            == deal_ways(values, Outcome::BankerMargin((i + 4) as u8)) by {
            assert(outcome_at(i + 12) == Outcome::BankerMargin((i + 4) as u8));
            assert(solution.sol_bonus.p_banker_bonus_unnatural[i] == tally[i + 12]);
        }
        assert(solution.wf());
        assert(solution.holds(cards, ranks, values));
    }
    let ghost counted = *solution;
    solution.calculate_ex_based_on_p(rule);
    proof {
        assert(solution.sol_bonus.p_player_bonus_unnatural
            == counted.sol_bonus.p_player_bonus_unnatural);
        assert(solution.holds(cards, ranks, values));
    }
    Ok(())
}

} // verus!
