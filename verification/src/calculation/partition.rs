//! How the outcomes share out the deals: the three results of the main
//! wagers between them hold every deal exactly once, and the results that a
//! bonus wager pays on hold no deal twice.

use vstd::prelude::*;
use crate::calculation::deal::{
    banker_draws, banker_hand, banker_third, banker_ways, deal_ways, denominator, factor,
    finish_ways, indicator, is_composition, lemma_deal_ways_bound, lemma_take_two, occurs,
    player_hand, player_third, take_two, Outcome,
};
use crate::calculation::sums::{
    can_draw_two, draw_sum, lemma_draw_sum_eight, lemma_draw_sum_three, lemma_prefix_sum_monotone,
    lemma_take_non_negative, lemma_take_total, lemma_two_card_sum_eight, lemma_two_card_sum_three,
    take, total,
};

verus! {

/// Sum of a count over the three results of the main wagers.
pub open spec fn over_main(x: spec_fn(Outcome) -> int) -> int {
    x(Outcome::PlayerWin) + x(Outcome::BankerWin) + x(Outcome::Tie)
}

/// The results on which the bonus wager of a side pays, numbered 0 to 7: its
/// natural win, the natural tie, and its wins by 4 to 9.
pub open spec fn bonus_outcome(player_side: bool, j: int) -> Outcome {
    if j == 0 {
        if player_side {
            Outcome::PlayerNaturalWin
        } else {
            Outcome::BankerNaturalWin
        }
    } else if j == 1 {
        Outcome::NaturalTie
    } else if player_side {
        Outcome::PlayerMargin((j + 2) as u8)
    } else {
        Outcome::BankerMargin((j + 2) as u8)
    }
}

/// Sum of a count over the eight results on which the bonus wager of a side
/// pays.
pub open spec fn over_bonus(player_side: bool, x: spec_fn(Outcome) -> int) -> int {
    x(bonus_outcome(player_side, 0)) + x(bonus_outcome(player_side, 1)) + x(
        bonus_outcome(player_side, 2),
    ) + x(bonus_outcome(player_side, 3)) + x(bonus_outcome(player_side, 4)) + x(
        bonus_outcome(player_side, 5),
    ) + x(bonus_outcome(player_side, 6)) + x(bonus_outcome(player_side, 7))
}

proof fn lemma_finish_ways_main(c: Seq<int>, player: int, banker: int)
    requires
        is_composition(c),
        0 <= player < 10,
        0 <= banker < 10,
        total(c) >= 2,
    ensures
        finish_ways(c, player, banker, Outcome::PlayerWin) + finish_ways(
            c,
            player,
            banker,
            Outcome::BankerWin,
        ) + finish_ways(c, player, banker, Outcome::Tie) == total(c) * (total(c) - 1),
{
    let t = total(c);
    let (pw, bw, ti) = (Outcome::PlayerWin, Outcome::BankerWin, Outcome::Tie);
    let free = factor(t) * factor(t - 1);
    assert(free * 1 == free && free * 0 == 0);
    if player >= 8 || banker >= 8 {
    } else if player >= 6 {
        if banker >= 6 {
        } else {
            let (g1, g2, g3) = (
                banker_third(player, banker, pw),
                banker_third(player, banker, bw),
                banker_third(player, banker, ti),
            );
            assert forall|w: int| 0 <= w < 10 && c[w] > 0 implies #[trigger] g1(w) + g2(w) + g3(w)
                == 1 by {}
            lemma_draw_sum_three(c, g1, g2, g3, 1, 10);
            let (s1, s2, s3) = (draw_sum(c, g1, 10), draw_sum(c, g2, 10), draw_sum(c, g3, 10));
            let f = factor(t - 1);
            assert(f * s1 + f * s2 + f * s3 == t * (t - 1)) by (nonlinear_arith)
                requires
                    s1 + s2 + s3 == 1 * t,
                    f == t - 1,
            ;
        }
    } else {
        let (g1, g2, g3) = (
            player_third(c, player, banker, pw),
            player_third(c, player, banker, bw),
            player_third(c, player, banker, ti),
        );
        assert forall|v: int| 0 <= v < 10 && c[v] > 0 implies #[trigger] g1(v) + g2(v) + g3(v) == t
            - 1 by {
            let p = (player + v) % 10;
            if banker_draws(banker, v) {
                lemma_take_total(c, v);
                lemma_take_non_negative(c, v);
                let (h1, h2, h3) = (
                    banker_third(p, banker, pw),
                    banker_third(p, banker, bw),
                    banker_third(p, banker, ti),
                );
                assert forall|w: int| 0 <= w < 10 && take(c, v)[w] > 0 implies #[trigger] h1(w)
                    + h2(w) + h3(w) == 1 by {}
                lemma_draw_sum_three(take(c, v), h1, h2, h3, 1, 10);
            } else {
                let f = factor(t - 1);
                assert(f * 1 == f && f * 0 == 0);
            }
        }
        lemma_draw_sum_three(c, g1, g2, g3, t - 1, 10);
        assert((t - 1) * t == t * (t - 1)) by (nonlinear_arith);
    }
}

proof fn lemma_banker_ways_main(c: Seq<int>, player: int)
    requires
        is_composition(c),
        0 <= player < 10,
        total(c) >= 4,
    ensures
        banker_ways(c, player, Outcome::PlayerWin) + banker_ways(c, player, Outcome::BankerWin)
            + banker_ways(c, player, Outcome::Tie) == (total(c) - 2) * (total(c) - 3) * (total(c)
            * (total(c) - 1)),
{
    let t = total(c);
    let (g1, g2, g3) = (
        banker_hand(c, player, Outcome::PlayerWin),
        banker_hand(c, player, Outcome::BankerWin),
        banker_hand(c, player, Outcome::Tie),
    );
    assert forall|a: int, b: int|
        0 <= a < 10 && 0 <= b < 10 && can_draw_two(c, a, b) implies #[trigger] g1(a, b) + g2(a, b)
        + g3(a, b) == (t - 2) * (t - 3) by {
        lemma_take_two(c, a, b);
        lemma_finish_ways_main(take_two(c, a, b), player, (a + b) % 10);
    }
    lemma_two_card_sum_three(c, g1, g2, g3, (t - 2) * (t - 3));
}

/// Every deal of a shoe of six cards or more ends in exactly one of player
/// win, banker win and tie: the three counts add up to the number of deals.
/// With fewer cards a round may want a card that is not there, and its deals
/// are in none of the three.
pub proof fn lemma_main_outcomes_cover(c: Seq<int>)
    requires
        is_composition(c),
        total(c) >= 6,
    ensures
        over_main(|o: Outcome| deal_ways(c, o)) == denominator(total(c)),
{
    let t = total(c);
    let (g1, g2, g3) = (
        player_hand(c, Outcome::PlayerWin),
        player_hand(c, Outcome::BankerWin),
        player_hand(c, Outcome::Tie),
    );
    let k = (t - 4) * (t - 5) * ((t - 2) * (t - 3));
    assert forall|a: int, b: int|
        0 <= a < 10 && 0 <= b < 10 && can_draw_two(c, a, b) implies #[trigger] g1(a, b) + g2(a, b)
        + g3(a, b) == k by {
        lemma_take_two(c, a, b);
        lemma_banker_ways_main(take_two(c, a, b), (a + b) % 10);
    }
    lemma_two_card_sum_three(c, g1, g2, g3, k);
    assert(k * (t * (t - 1)) == denominator(t)) by (nonlinear_arith)
        requires
            k == (t - 4) * (t - 5) * ((t - 2) * (t - 3)),
            denominator(t) == t * (t - 1) * ((t - 2) * (t - 3)) * ((t - 4) * (t - 5)),
    ;
}


/// A family of eight outcomes of which a round ends in at most one.
enum Family {
    Main,
    PlayerBonus,
    BankerBonus,
}

/// The outcomes of a family, numbered 0 to 7. The main family holds three
/// and is filled up with an outcome that never occurs.
spec fn family_outcome(family: Family, j: int) -> Outcome {
    match family {
        Family::Main => if j == 0 {
            Outcome::PlayerWin
        } else if j == 1 {
            Outcome::BankerWin
        } else if j == 2 {
            Outcome::Tie
        } else {
            Outcome::PlayerMargin(0)
        },
        Family::PlayerBonus => bonus_outcome(true, j),
        Family::BankerBonus => bonus_outcome(false, j),
    }
}

spec fn over_family(family: Family, x: spec_fn(Outcome) -> int) -> int {
    x(family_outcome(family, 0)) + x(family_outcome(family, 1)) + x(family_outcome(family, 2)) + x(
        family_outcome(family, 3),
    ) + x(family_outcome(family, 4)) + x(family_outcome(family, 5)) + x(family_outcome(family, 6))
        + x(family_outcome(family, 7))
}

spec fn banker_third_family(player: int, banker: int, side: Family) -> spec_fn(int) -> spec_fn(
    int,
) -> int {
    |j: int| banker_third(player, banker, family_outcome(side, j))
}

spec fn player_third_family(c: Seq<int>, player: int, banker: int, side: Family) -> spec_fn(
    int,
) -> spec_fn(int) -> int {
    |j: int| player_third(c, player, banker, family_outcome(side, j))
}

spec fn banker_hand_family(c: Seq<int>, player: int, side: Family) -> spec_fn(int) -> spec_fn(
    int,
    int,
) -> int {
    |j: int| banker_hand(c, player, family_outcome(side, j))
}

spec fn player_hand_family(c: Seq<int>, side: Family) -> spec_fn(int) -> spec_fn(int, int) -> int {
    |j: int| player_hand(c, family_outcome(side, j))
}

/// Sum over the eight results of a bonus wager of one where the result
/// occurs: a round ends in at most one of them.
spec fn bonus_hits(side: Family, player: int, banker: int, natural: bool) -> int {
    indicator(occurs(family_outcome(side, 0), player, banker, natural)) + indicator(
        occurs(family_outcome(side, 1), player, banker, natural),
    ) + indicator(occurs(family_outcome(side, 2), player, banker, natural)) + indicator(
        occurs(family_outcome(side, 3), player, banker, natural),
    ) + indicator(occurs(family_outcome(side, 4), player, banker, natural)) + indicator(
        occurs(family_outcome(side, 5), player, banker, natural),
    ) + indicator(occurs(family_outcome(side, 6), player, banker, natural)) + indicator(
        occurs(family_outcome(side, 7), player, banker, natural),
    )
}

proof fn lemma_bonus_hits(side: Family, player: int, banker: int, natural: bool)
    ensures
        0 <= bonus_hits(side, player, banker, natural) <= 1,
{
}

proof fn lemma_scaled_hits(f: int, side: Family, player: int, banker: int, natural: bool)
    requires
        f >= 0,
    ensures
        f * indicator(occurs(family_outcome(side, 0), player, banker, natural)) + f * indicator(
            occurs(family_outcome(side, 1), player, banker, natural),
        ) + f * indicator(occurs(family_outcome(side, 2), player, banker, natural)) + f * indicator(
            occurs(family_outcome(side, 3), player, banker, natural),
        ) + f * indicator(occurs(family_outcome(side, 4), player, banker, natural)) + f * indicator(
            occurs(family_outcome(side, 5), player, banker, natural),
        ) + f * indicator(occurs(family_outcome(side, 6), player, banker, natural)) + f * indicator(
            occurs(family_outcome(side, 7), player, banker, natural),
        ) <= f,
{
    assert(f * 1 == f && f * 0 == 0);
    lemma_bonus_hits(side, player, banker, natural);
}

proof fn lemma_banker_third_bonus(c: Seq<int>, player: int, banker: int, side: Family)
    requires
        is_composition(c),
    ensures
        over_family(side, |o: Outcome| draw_sum(c, banker_third(player, banker, o), 10)) <= total(
            c,
        ),
{
    let gs = banker_third_family(player, banker, side);
    assert forall|w: int| 0 <= w < 10 && c[w] > 0 implies #[trigger] gs(0)(w) + gs(1)(w) + gs(2)(w)
        + gs(3)(w) + gs(4)(w) + gs(5)(w) + gs(6)(w) + gs(7)(w) <= 1 by {
        lemma_bonus_hits(side, player, (banker + w) % 10, false);
    }
    lemma_draw_sum_eight(c, gs, 1, 10);
}

proof fn lemma_finish_ways_bonus(c: Seq<int>, player: int, banker: int, side: Family)
    requires
        is_composition(c),
        0 <= player < 10,
        0 <= banker < 10,
    ensures
        over_family(side, |o: Outcome| finish_ways(c, player, banker, o)) <= factor(total(c))
            * factor(total(c) - 1),
{
    let t = total(c);
    let (f4, f5) = (factor(t), factor(t - 1));
    let free = f4 * f5;
    lemma_prefix_sum_monotone(c, 0, 10);
    assert(0 <= free && f5 * t <= free) by (nonlinear_arith)
        requires
            free == f4 * f5,
            f4 >= 1,
            f5 >= 1,
            0 <= t <= f4,
    ;
    if player >= 8 || banker >= 8 {
        lemma_scaled_hits(free, side, player, banker, true);
    } else if player >= 6 {
        if banker >= 6 {
            lemma_scaled_hits(free, side, player, banker, false);
        } else {
            lemma_banker_third_bonus(c, player, banker, side);
            let s0 = draw_sum(c, banker_third(player, banker, family_outcome(side, 0)), 10);
            let s1 = draw_sum(c, banker_third(player, banker, family_outcome(side, 1)), 10);
            let s2 = draw_sum(c, banker_third(player, banker, family_outcome(side, 2)), 10);
            let s3 = draw_sum(c, banker_third(player, banker, family_outcome(side, 3)), 10);
            let s4 = draw_sum(c, banker_third(player, banker, family_outcome(side, 4)), 10);
            let s5 = draw_sum(c, banker_third(player, banker, family_outcome(side, 5)), 10);
            let s6 = draw_sum(c, banker_third(player, banker, family_outcome(side, 6)), 10);
            let s7 = draw_sum(c, banker_third(player, banker, family_outcome(side, 7)), 10);
            assert(f5 * s0 + f5 * s1 + f5 * s2 + f5 * s3 + f5 * s4 + f5 * s5 + f5 * s6 + f5 * s7
                <= f5 * t) by (nonlinear_arith)
                requires
                    s0 + s1 + s2 + s3 + s4 + s5 + s6 + s7 <= t,
                    f5 >= 1,
            ;
        }
    } else {
        let gs = player_third_family(c, player, banker, side);
        assert forall|v: int| 0 <= v < 10 && c[v] > 0 implies #[trigger] gs(0)(v) + gs(1)(v) + gs(
            2,
        )(v) + gs(3)(v) + gs(4)(v) + gs(5)(v) + gs(6)(v) + gs(7)(v) <= f5 by {
            let p = (player + v) % 10;
            if banker_draws(banker, v) {
                lemma_take_total(c, v);
                lemma_take_non_negative(c, v);
                lemma_banker_third_bonus(take(c, v), p, banker, side);
            } else {
                lemma_scaled_hits(f5, side, p, banker, false);
            }
        }
        lemma_draw_sum_eight(c, gs, f5, 10);
    }
}

proof fn lemma_banker_ways_bonus(c: Seq<int>, player: int, side: Family)
    requires
        is_composition(c),
        0 <= player < 10,
    ensures
        over_family(side, |o: Outcome| banker_ways(c, player, o)) <= factor(total(c) - 2) * factor(
            total(c) - 3,
        ) * (total(c) * (total(c) - 1)),
{
    let t = total(c);
    let gs = banker_hand_family(c, player, side);
    let k = factor(t - 2) * factor(t - 3);
    assert(0 <= k) by (nonlinear_arith)
        requires
            k == factor(t - 2) * factor(t - 3),
            factor(t - 2) >= 1,
            factor(t - 3) >= 1,
    ;
    assert forall|a: int, b: int|
        0 <= a < 10 && 0 <= b < 10 && can_draw_two(c, a, b) implies #[trigger] gs(0)(a, b) + gs(1)(
        a,
        b,
    ) + gs(2)(a, b) + gs(3)(a, b) + gs(4)(a, b) + gs(5)(a, b) + gs(6)(a, b) + gs(7)(a, b) <= k by {
        lemma_take_two(c, a, b);
        lemma_finish_ways_bonus(take_two(c, a, b), player, (a + b) % 10, side);
    }
    lemma_two_card_sum_eight(c, gs, k);
}

proof fn lemma_family_disjoint(c: Seq<int>, side: Family)
    requires
        is_composition(c),
    ensures
        over_family(side, |o: Outcome| deal_ways(c, o)) <= denominator(total(c)),
{
    let t = total(c);
    let gs = player_hand_family(c, side);
    let (f4, f5) = (factor(t - 4), factor(t - 5));
    let k = f4 * f5 * ((t - 2) * (t - 3));
    assert(0 <= k && k * (t * (t - 1)) == denominator(t)) by (nonlinear_arith)
        requires
            k == f4 * f5 * ((t - 2) * (t - 3)),
            f4 >= 1,
            f5 >= 1,
            denominator(t) == t * (t - 1) * ((t - 2) * (t - 3)) * (f4 * f5),
    ;
    assert forall|a: int, b: int|
        0 <= a < 10 && 0 <= b < 10 && can_draw_two(c, a, b) implies #[trigger] gs(0)(a, b) + gs(1)(
        a,
        b,
    ) + gs(2)(a, b) + gs(3)(a, b) + gs(4)(a, b) + gs(5)(a, b) + gs(6)(a, b) + gs(7)(a, b) <= k by {
        lemma_take_two(c, a, b);
        lemma_banker_ways_bonus(take_two(c, a, b), (a + b) % 10, side);
    }
    lemma_two_card_sum_eight(c, gs, k);
}

/// No deal ends in two of the results on which the bonus wager of a side
/// pays: the eight counts add up to no more than the number of deals.
pub proof fn lemma_bonus_outcomes_disjoint(c: Seq<int>, player_side: bool)
    requires
        is_composition(c),
    ensures
        over_bonus(player_side, |o: Outcome| deal_ways(c, o)) <= denominator(total(c)),
{
    if player_side {
        lemma_family_disjoint(c, Family::PlayerBonus);
    } else {
        lemma_family_disjoint(c, Family::BankerBonus);
    }
}

/// No deal ends in two of player win, banker win and tie: whatever the
/// number of cards, the three counts add up to no more than the number of
/// deals.
pub proof fn lemma_main_outcomes_disjoint(c: Seq<int>)
    requires
        is_composition(c),
    ensures
        over_main(|o: Outcome| deal_ways(c, o)) <= denominator(total(c)),
{
    lemma_family_disjoint(c, Family::Main);
    lemma_deal_ways_bound(c, Outcome::PlayerMargin(0));
}

} // verus!
