//! Point values of which no card is left. Such a value is never drawn: a
//! round dealt from cards of one point value alone has one course, and
//! every deal ends in the same outcomes.

use vstd::prelude::*;
use crate::calculation::deal::{
    banker_draws, banker_hand, banker_third, banker_ways, deal_ways, denominator, factor,
    finish_ways, indicator, is_composition, occurs, player_hand, player_third, take_two, Outcome,
};
use crate::calculation::sums::{
    draw_sum, first_draw, prefix_sum, second_draw, take, total, two_card_sum,
};

verus! {

/// All cards of the composition are of the point value `x`.
pub open spec fn only_value(c: Seq<int>, x: int) -> bool {
    &&& is_composition(c)
    &&& 0 <= x < 10
    &&& forall|v: int| 0 <= v < 10 && v != x ==> c[v] == 0
}

/// The round that is dealt from cards of the point value `x` alone: the
/// final sum of the player, that of the banker, and whether a natural ended
/// the round.
pub open spec fn single_value_round(x: int) -> (int, int, bool) {
    let s = (x + x) % 10;
    if s >= 8 {
        (s, s, true)
    } else if s >= 6 {
        (s, s, false)
    } else {
        (
            (s + x) % 10,
            if banker_draws(s, x) {
                (s + x) % 10
            } else {
                s
            },
            false,
        )
    }
}

/// A draw from cards of one class alone draws that class.
pub proof fn lemma_draw_sum_single(c: Seq<int>, g: spec_fn(int) -> int, x: int, n: int)
    requires
        0 <= n <= c.len(),
        forall|v: int| 0 <= v < n && v != x ==> c[v] == 0,
    ensures
        draw_sum(c, g, n) == if 0 <= x < n && c[x] > 0 {
            c[x] * g(x)
        } else {
            0
        },
    decreases n,
{
    if n > 0 {
        lemma_draw_sum_single(c, g, x, n - 1);
    }
}

proof fn lemma_prefix_sum_single(c: Seq<int>, x: int, n: int)
    requires
        0 <= n <= c.len(),
        forall|v: int| 0 <= v < n && v != x ==> c[v] == 0,
    ensures
        prefix_sum(c, n) == if 0 <= x < n {
            c[x]
        } else {
            0
        },
    decreases n,
{
    if n > 0 {
        lemma_prefix_sum_single(c, x, n - 1);
    }
}

proof fn lemma_take_single(c: Seq<int>, x: int)
    requires
        only_value(c, x),
        c[x] >= 1,
    ensures
        only_value(take(c, x), x),
        take(c, x)[x] == c[x] - 1,
        total(c) == c[x],
{
    lemma_prefix_sum_single(c, x, 10);
}

proof fn lemma_two_card_sum_single(c: Seq<int>, g: spec_fn(int, int) -> int, x: int)
    requires
        only_value(c, x),
        c[x] >= 2,
    ensures
        two_card_sum(c, g) == c[x] * (c[x] - 1) * g(x, x),
        only_value(take_two(c, x, x), x),
        take_two(c, x, x)[x] == c[x] - 2,
{
    lemma_take_single(c, x);
    lemma_take_single(take(c, x), x);
    lemma_draw_sum_single(c, first_draw(c, g), x, 10);
    lemma_draw_sum_single(take(c, x), second_draw(g, x), x, 10);
    let (n, y) = (c[x], g(x, x));
    assert(second_draw(g, x)(x) == y);
    assert(n * ((n - 1) * y) == n * (n - 1) * y) by (nonlinear_arith);
}

proof fn lemma_finish_ways_single(c: Seq<int>, x: int, o: Outcome)
    requires
        only_value(c, x),
        c[x] >= 2,
    ensures
        finish_ways(c, (x + x) % 10, (x + x) % 10, o) == c[x] * (c[x] - 1) * indicator(
            occurs(
                o,
                single_value_round(x).0,
                single_value_round(x).1,
                single_value_round(x).2,
            ),
        ),
{
    let s = (x + x) % 10;
    let m = c[x];
    lemma_take_single(c, x);
    lemma_take_single(take(c, x), x);
    assert(factor(total(c)) == m && factor(total(c) - 1) == m - 1);
    if s >= 6 {
    } else {
        lemma_draw_sum_single(c, player_third(c, s, s, o), x, 10);
        let p = (s + x) % 10;
        if banker_draws(s, x) {
            lemma_draw_sum_single(take(c, x), banker_third(p, s, o), x, 10);
            let i = indicator(occurs(o, p, (s + x) % 10, false));
            assert(banker_third(p, s, o)(x) == i);
            assert(m * ((m - 1) * i) == m * (m - 1) * i) by (nonlinear_arith);
        } else {
            let i = indicator(occurs(o, p, s, false));
            assert(m * ((m - 1) * i) == m * (m - 1) * i) by (nonlinear_arith);
        }
    }
}

/// Where all cards are of one point value and there are six or more, the
/// round has one course: an outcome occurs in every deal or in none.
pub proof fn lemma_single_value_decides(c: Seq<int>, x: int, o: Outcome)
    requires
        only_value(c, x),
        c[x] >= 6,
    ensures
        total(c) == c[x],
        deal_ways(c, o) == denominator(total(c)) * indicator(
            occurs(
                o,
                single_value_round(x).0,
                single_value_round(x).1,
                single_value_round(x).2,
            ),
        ),
{
    let n = c[x];
    let s = (x + x) % 10;
    let r = single_value_round(x);
    let i = indicator(occurs(o, r.0, r.1, r.2));
    lemma_take_single(c, x);
    let c2 = take_two(c, x, x);
    lemma_two_card_sum_single(c, player_hand(c, o), x);
    let c4 = take_two(c2, x, x);
    lemma_two_card_sum_single(c2, banker_hand(c2, s, o), x);
    lemma_finish_ways_single(c4, x, o);
    assert(player_hand(c, o)(x, x) == banker_ways(c2, s, o));
    assert(banker_hand(c2, s, o)(x, x) == finish_ways(c4, s, s, o));
    let f = (n - 4) * (n - 5) * i;
    let b = (n - 2) * (n - 3) * f;
    assert(banker_ways(c2, s, o) == b);
    assert(deal_ways(c, o) == n * (n - 1) * b);
    assert(n * (n - 1) * b == n * (n - 1) * ((n - 2) * (n - 3)) * ((n - 4) * (n - 5)) * i)
        by (nonlinear_arith)
        requires
            b == (n - 2) * (n - 3) * f,
            f == (n - 4) * (n - 5) * i,
    ;
}

} // verus!
