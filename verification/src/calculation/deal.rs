//! What a round of Baccarat is, as a count of deals.
//!
//! A composition of point values is a sequence of ten counts. A deal is an
//! ordered draw, without replacement, of the first six cards of the shoe (of
//! all its cards, if it holds fewer). A round uses four, five or six of
//! them; a round that ends early leaves the later cards of the deal free.
//! The probability of an outcome is the number of deals in which it occurs
//! over the number of all deals.

use vstd::prelude::*;
use crate::calculation::sums::{
    can_draw_two, draw_sum, lemma_draw_sum_bound, lemma_prefix_sum_monotone, lemma_take_non_negative,
    lemma_take_total, lemma_two_card_sum_bound, non_negative, pairs_non_negative, symmetric, take,
    total, two_card_sum,
};

verus! {

/// What a round can end in, as far as the main and the bonus wagers care.
/// A margin is the difference of the two final sums, from 4 to 9, of a win
/// without a natural.
#[derive(Debug, Clone, Copy, PartialEq, Eq, Structural)]
pub enum Outcome {
    PlayerWin,
    BankerWin,
    Tie,
    PlayerNaturalWin,
    BankerNaturalWin,
    NaturalTie,
    PlayerMargin(u8),
    BankerMargin(u8),
}

/// Does the outcome occur in a round that ends with these two sums?
/// `natural` says that the round ended on the first four cards because a
/// side held eight or nine.
pub open spec fn occurs(o: Outcome, player: int, banker: int, natural: bool) -> bool {
    match o {
        Outcome::PlayerWin => player > banker,
        Outcome::BankerWin => player < banker,
        Outcome::Tie => player == banker,
        Outcome::PlayerNaturalWin => natural && player > banker,
        Outcome::BankerNaturalWin => natural && player < banker,
        Outcome::NaturalTie => natural && player == banker,
        Outcome::PlayerMargin(m) => !natural && m >= 4 && player - banker == m,
        Outcome::BankerMargin(m) => !natural && m >= 4 && banker - player == m,
    }
}

/// One for true, zero for false.
pub open spec fn indicator(b: bool) -> int {
    if b {
        1
    } else {
        0
    }
}

/// The third-card rule: with `banker` as the sum of the banker's two cards,
/// does the banker draw after the player drew a third card of point value
/// `player_third`?
pub open spec fn banker_draws(banker: int, player_third: int) -> bool {
    if banker <= 2 {
        true
    } else if banker == 3 {
        player_third != 8
    } else if banker == 4 {
        2 <= player_third <= 7
    } else if banker == 5 {
        4 <= player_third <= 7
    } else if banker == 6 {
        6 <= player_third <= 7
    } else {
        false
    }
}

/// The ways to fill one place of a deal from `t` cards: `t`, or one where no
/// card is left and the place stays empty.
pub open spec fn factor(t: int) -> int {
    if t >= 1 {
        t
    } else {
        1
    }
}

/// The number of deals from a shoe of `t` cards.
pub open spec fn denominator(t: int) -> int {
    t * (t - 1) * ((t - 2) * (t - 3)) * (factor(t - 4) * factor(t - 5))
}

/// After the banker's third card `w`: one if the outcome occurs.
pub open spec fn banker_third(player: int, banker: int, o: Outcome) -> spec_fn(int) -> int {
    |w: int| indicator(occurs(o, player, (banker + w) % 10, false))
}

/// After the player's third card `v`, drawn from `c`: the ways to end the
/// round in the outcome, the banker drawing where the rule says so.
pub open spec fn player_third(c: Seq<int>, player: int, banker: int, o: Outcome) -> spec_fn(
    int,
) -> int {
    |v: int|
        if banker_draws(banker, v) {
            draw_sum(take(c, v), banker_third((player + v) % 10, banker, o), 10)
        } else {
            factor(total(c) - 1) * indicator(occurs(o, (player + v) % 10, banker, false))
        }
}

/// The ways to complete a deal in the outcome, from the composition `c` that
/// the first four cards left, `player` and `banker` being the sums of the
/// two hands.
pub open spec fn finish_ways(c: Seq<int>, player: int, banker: int, o: Outcome) -> int {
    let free = factor(total(c)) * factor(total(c) - 1);
    if player >= 8 || banker >= 8 {
        free * indicator(occurs(o, player, banker, true))
    } else if player >= 6 {
        if banker >= 6 {
            free * indicator(occurs(o, player, banker, false))
        } else {
            factor(total(c) - 1) * draw_sum(c, banker_third(player, banker, o), 10)
        }
    } else {
        draw_sum(c, player_third(c, player, banker, o), 10)
    }
}

/// The composition after the cards `a` and `b` have been drawn.
pub open spec fn take_two(c: Seq<int>, a: int, b: int) -> Seq<int> {
    take(take(c, a), b)
}

/// After the banker's two cards `a` and `b`, drawn from `c`.
pub open spec fn banker_hand(c: Seq<int>, player: int, o: Outcome) -> spec_fn(int, int) -> int {
    |a: int, b: int| finish_ways(take_two(c, a, b), player, (a + b) % 10, o)
}

/// The ways to deal the banker's two cards from `c` and complete the deal in
/// the outcome.
pub open spec fn banker_ways(c: Seq<int>, player: int, o: Outcome) -> int {
    two_card_sum(c, banker_hand(c, player, o))
}

/// After the player's two cards `a` and `b`, drawn from `c`.
pub open spec fn player_hand(c: Seq<int>, o: Outcome) -> spec_fn(int, int) -> int {
    |a: int, b: int| banker_ways(take_two(c, a, b), (a + b) % 10, o)
}

/// The number of deals from the composition `c` in which the outcome occurs.
pub open spec fn deal_ways(c: Seq<int>, o: Outcome) -> int {
    two_card_sum(c, player_hand(c, o))
}

/// A composition of point values: ten counts, none negative.
pub open spec fn is_composition(c: Seq<int>) -> bool {
    c.len() == 10 && non_negative(c)
}

pub proof fn lemma_take_two(c: Seq<int>, a: int, b: int)
    requires
        is_composition(c),
        0 <= a < 10,
        0 <= b < 10,
    ensures
        take_two(c, a, b).len() == 10,
        total(take_two(c, a, b)) == total(c) - 2,
        can_draw_two(c, a, b) ==> is_composition(take_two(c, a, b)),
        take_two(c, a, b) == take_two(c, b, a),
{
    lemma_take_total(c, a);
    lemma_take_total(take(c, a), b);
    if can_draw_two(c, a, b) {
        lemma_take_non_negative(c, a);
        lemma_take_non_negative(take(c, a), b);
    }
    assert(take_two(c, a, b) =~= take_two(c, b, a));
}

/// After the player's third card, the ways to end the round lie between
/// zero and the ways to fill the last place of the deal.
pub proof fn lemma_player_third_bound(c: Seq<int>, player: int, banker: int, o: Outcome)
    requires
        is_composition(c),
        0 <= player < 10,
        0 <= banker < 10,
    ensures
        forall|v: int|
            0 <= v < 10 && c[v] > 0 ==> 0 <= #[trigger] player_third(c, player, banker, o)(v)
                <= factor(total(c) - 1),
{
    let g = player_third(c, player, banker, o);
    let f5 = factor(total(c) - 1);
    assert forall|v: int| 0 <= v < 10 && c[v] > 0 implies 0 <= #[trigger] g(v) <= f5 by {
        if banker_draws(banker, v) {
            lemma_take_total(c, v);
            lemma_take_non_negative(c, v);
            let h = banker_third((player + v) % 10, banker, o);
            assert forall|w: int| 0 <= w < 10 && take(c, v)[w] > 0 implies 0 <= #[trigger] h(w)
                <= 1 by {}
            lemma_draw_sum_bound(take(c, v), h, 1, 10);
            lemma_prefix_sum_monotone(take(c, v), 0, 10);
        } else {
            assert(f5 * 1 == f5 && f5 * 0 == 0);
        }
    }
}

/// The banker's third card ends the round in an outcome in at most as many
/// ways as cards are left.
pub proof fn lemma_banker_third_bound(c: Seq<int>, player: int, banker: int, o: Outcome)
    requires
        is_composition(c),
    ensures
        0 <= draw_sum(c, banker_third(player, banker, o), 10) <= total(c),
{
    let g = banker_third(player, banker, o);
    assert forall|w: int| 0 <= w < 10 && c[w] > 0 implies 0 <= #[trigger] g(w) <= 1 by {}
    lemma_draw_sum_bound(c, g, 1, 10);
}

/// The number of ways to complete a deal lies between zero and the number
/// of ways to fill its last two places.
pub proof fn lemma_finish_ways_bound(c: Seq<int>, player: int, banker: int, o: Outcome)
    requires
        is_composition(c),
        0 <= player < 10,
        0 <= banker < 10,
    ensures
        0 <= finish_ways(c, player, banker, o) <= factor(total(c)) * factor(total(c) - 1),
{
    let t = total(c);
    let (f4, f5) = (factor(t), factor(t - 1));
    lemma_prefix_sum_monotone(c, 0, 10);
    assert(0 <= f4 * f5 && f5 * t <= f4 * f5 && f4 * f5 * 1 == f4 * f5 && f4 * f5 * 0 == 0)
        by (nonlinear_arith)
        requires
            f4 >= 1,
            f5 >= 1,
            0 <= t <= f4,
    ;
    if player >= 8 || banker >= 8 {
    } else if player >= 6 {
        if banker >= 6 {
        } else {
            lemma_banker_third_bound(c, player, banker, o);
            let s = draw_sum(c, banker_third(player, banker, o), 10);
            assert(0 <= f5 * s <= f5 * t) by (nonlinear_arith)
                requires
                    0 <= s <= t,
                    f5 >= 1,
            ;
        }
    } else {
        lemma_player_third_bound(c, player, banker, o);
        lemma_draw_sum_bound(c, player_third(c, player, banker, o), f5, 10);
    }
}

/// The ways to deal the banker's hand and complete the deal lie between zero
/// and the number of ways to fill the last four places.
pub proof fn lemma_banker_ways_bound(c: Seq<int>, player: int, o: Outcome)
    requires
        is_composition(c),
        0 <= player < 10,
    ensures
        pairs_non_negative(c, banker_hand(c, player, o)),
        0 <= banker_ways(c, player, o) <= factor(total(c) - 2) * factor(total(c) - 3) * (total(c)
            * (total(c) - 1)),
{
    let g = banker_hand(c, player, o);
    let k = factor(total(c) - 2) * factor(total(c) - 3);
    assert(0 <= k) by (nonlinear_arith)
        requires
            k == factor(total(c) - 2) * factor(total(c) - 3),
            factor(total(c) - 2) >= 1,
            factor(total(c) - 3) >= 1,
    ;
    assert forall|a: int, b: int| 0 <= a < 10 && 0 <= b < 10 && can_draw_two(c, a, b) implies 0
        <= #[trigger] g(a, b) <= k by {
        lemma_take_two(c, a, b);
        lemma_finish_ways_bound(take_two(c, a, b), player, (a + b) % 10, o);
    }
    lemma_two_card_sum_bound(c, g, k);
}

/// The number of deals in which an outcome occurs lies between zero and the
/// number of all deals.
pub proof fn lemma_deal_ways_bound(c: Seq<int>, o: Outcome)
    requires
        is_composition(c),
    ensures
        pairs_non_negative(c, player_hand(c, o)),
        0 <= deal_ways(c, o) <= denominator(total(c)),
{
    let g = player_hand(c, o);
    let t = total(c);
    let (f4, f5) = (factor(t - 4), factor(t - 5));
    let k = f4 * f5 * ((t - 2) * (t - 3));
    assert(0 <= k && k * (t * (t - 1)) == denominator(t)) by (nonlinear_arith)
        requires
            k == f4 * f5 * ((t - 2) * (t - 3)),
            f4 >= 1,
            f5 >= 1,
            denominator(t) == t * (t - 1) * ((t - 2) * (t - 3)) * (f4 * f5),
    ;
    assert forall|a: int, b: int| 0 <= a < 10 && 0 <= b < 10 && can_draw_two(c, a, b) implies 0
        <= #[trigger] g(a, b) <= k by {
        lemma_take_two(c, a, b);
        lemma_banker_ways_bound(take_two(c, a, b), (a + b) % 10, o);
    }
    lemma_two_card_sum_bound(c, g, k);
}

/// A shoe of four cards or more has at least one deal.
pub proof fn lemma_denominator_positive(t: int)
    requires
        4 <= t,
    ensures
        1 <= denominator(t),
{
    let (f4, f5) = (factor(t - 4), factor(t - 5));
    let (x, y) = (t * (t - 1), (t - 2) * (t - 3));
    assert(x >= 1 && y >= 1) by (nonlinear_arith)
        requires
            x == t * (t - 1),
            y == (t - 2) * (t - 3),
            t >= 4,
    ;
    assert(x * y * (f4 * f5) >= 1) by (nonlinear_arith)
        requires
            x >= 1,
            y >= 1,
            f4 >= 1,
            f5 >= 1,
    ;
}


/// The most cards that a composition may hold for its deals to be counted.
pub const MAX_CARDS: u32 = 52_000;

/// The sixth power of `MAX_CARDS`: no shoe that is counted has more deals.
pub const MAX_DENOMINATOR: u128 = 19_770_609_664_000_000_000_000_000_000;

/// The hand that is dealt next: the banker's, where `player` holds the sum
/// of the player's two cards, and the player's before that.
pub open spec fn hand(c: Seq<int>, player: Option<int>, o: Outcome) -> spec_fn(int, int) -> int {
    match player {
        Some(p) => banker_hand(c, p, o),
        None => player_hand(c, o),
    }
}

/// The ways to deal the next hand from `c` and complete the deal in the
/// outcome: `banker_ways` after the player's hand, `deal_ways` before it.
pub open spec fn hand_ways(c: Seq<int>, player: Option<int>, o: Outcome) -> int {
    two_card_sum(c, hand(c, player, o))
}

/// The number of all ways to deal the next hand from `t` cards and complete
/// the deal.
pub open spec fn hand_bound(t: int, player: Option<int>) -> int {
    match player {
        Some(_) => factor(t - 2) * factor(t - 3) * (t * (t - 1)),
        None => denominator(t),
    }
}

pub proof fn lemma_hand_ways(c: Seq<int>, player: Option<int>, o: Outcome)
    requires
        is_composition(c),
        player matches Some(p) ==> 0 <= p < 10,
    ensures
        symmetric(hand(c, player, o), 10),
        pairs_non_negative(c, hand(c, player, o)),
        0 <= hand_ways(c, player, o) <= hand_bound(total(c), player),
        player matches Some(p) ==> hand_ways(c, player, o) == banker_ways(c, p, o),
        player is None ==> hand_ways(c, player, o) == deal_ways(c, o),
{
    let g = hand(c, player, o);
    assert forall|a: int, b: int| 0 <= a < 10 && 0 <= b < 10 implies #[trigger] g(a, b) == g(
        b,
        a,
    ) by {
        lemma_take_two(c, a, b);
        assert((a + b) % 10 == (b + a) % 10);
    }
    match player {
        Some(p) => {
            lemma_banker_ways_bound(c, p, o);
        },
        None => {
            lemma_deal_ways_bound(c, o);
        },
    }
}

/// The deals of a shoe of at most `MAX_CARDS` cards can be counted in 128
/// bits.
pub proof fn lemma_hand_bound_fits(t: int, player: Option<int>)
    requires
        0 <= t <= MAX_CARDS,
    ensures
        0 <= hand_bound(t, player) <= MAX_DENOMINATOR,
        0 <= denominator(t) <= MAX_DENOMINATOR,
{
    let n = MAX_CARDS as int;
    let (f2, f3, f4, f5) = (factor(t - 2), factor(t - 3), factor(t - 4), factor(t - 5));
    let x = t * (t - 1);
    let y = (t - 2) * (t - 3);
    assert(0 <= x <= n * n) by (nonlinear_arith)
        requires
            x == t * (t - 1),
            0 <= t <= n,
    ;
    assert(0 <= y <= n * n) by (nonlinear_arith)
        requires
            y == (t - 2) * (t - 3),
            0 <= t <= n,
            n >= 3,
    ;
    assert(1 <= f2 * f3 <= n * n) by (nonlinear_arith)
        requires
            1 <= f2 <= n,
            1 <= f3 <= n,
    ;
    assert(1 <= f4 * f5 <= n * n) by (nonlinear_arith)
        requires
            1 <= f4 <= n,
            1 <= f5 <= n,
    ;
    let (p, q) = (f2 * f3, f4 * f5);
    let m = n * n;
    assert(0 <= p * x <= m * m) by (nonlinear_arith)
        requires
            0 <= p <= m,
            0 <= x <= m,
    ;
    assert(0 <= x * y <= m * m) by (nonlinear_arith)
        requires
            0 <= y <= m,
            0 <= x <= m,
    ;
    let z = x * y;
    assert(0 <= z * q <= m * m * m) by (nonlinear_arith)
        requires
            0 <= z <= m * m,
            0 <= q <= m,
            0 <= m,
    ;
    assert(m * m * m == MAX_DENOMINATOR && m * m <= MAX_DENOMINATOR) by (nonlinear_arith)
        requires
            m == 52_000 * 52_000,
            MAX_DENOMINATOR == 19_770_609_664_000_000_000_000_000_000,
    ;
}

} // verus!
