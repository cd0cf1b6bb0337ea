//! Pairs among the first four cards: the two cards of a side are of one
//! class. With the thirteen ranks as classes a pair is a pair of the pair
//! wagers; with the 52 cards as classes it is a perfect pair.

use vstd::prelude::*;
use crate::calculation::deal::MAX_CARDS;
use crate::calculation::deal::indicator;
use crate::calculation::sums::{
    can_draw_two, counts, draw_sum, first_draw, lemma_count_le_total, lemma_draw_sum_one_term,
    lemma_prefix_sum_monotone, lemma_prefix_sum_update, lemma_take_non_negative, lemma_take_total,
    lemma_two_card_sum_add, lemma_two_card_sum_bound, lemma_two_card_sum_three, non_negative,
    prefix_sum, second_draw, take, total, two_card_sum,
};

verus! {

/// Ordered ways to draw two cards of one class among the first `n` classes.
pub open spec fn same_ways(s: Seq<int>, n: int) -> int
    decreases n,
{
    if n <= 0 {
        0
    } else {
        same_ways(s, n - 1) + s[n - 1] * (s[n - 1] - 1)
    }
}

/// The composition after two cards of class `i` have been drawn.
pub open spec fn after_pair(s: Seq<int>, i: int) -> Seq<int> {
    s.update(i, s[i] - 2)
}

/// Sum, over the classes `i < n` that hold a pair, of the ordered ways to
/// draw a pair of class `i` times `g(i)`.
pub open spec fn paired_then(s: Seq<int>, g: spec_fn(int) -> int, n: int) -> int
    decreases n,
{
    if n <= 0 {
        0
    } else {
        paired_then(s, g, n - 1) + if s[n - 1] >= 2 {
            s[n - 1] * (s[n - 1] - 1) * g(n - 1)
        } else {
            0
        }
    }
}

/// Ordered ways to draw two more cards once two have gone.
pub open spec fn next_two(s: Seq<int>) -> int {
    (total(s) - 2) * (total(s) - 3)
}

/// After a pair of class `i`: the ways to draw a second pair.
pub open spec fn second_pair(s: Seq<int>) -> spec_fn(int) -> int {
    |i: int| same_ways(after_pair(s, i), s.len() as int)
}

/// After a pair of class `i`: the ways to draw two cards that are no pair.
pub open spec fn second_no_pair(s: Seq<int>) -> spec_fn(int) -> int {
    |i: int| next_two(s) - same_ways(after_pair(s, i), s.len() as int)
}

/// Ordered ways to draw four cards of which the first two are a pair and the
/// last two are another.
pub open spec fn both_paired(s: Seq<int>) -> int {
    paired_then(s, second_pair(s), s.len() as int)
}

/// Ordered ways to draw four cards of which the first two are a pair and the
/// last two are none.
pub open spec fn only_first_paired(s: Seq<int>) -> int {
    paired_then(s, second_no_pair(s), s.len() as int)
}

/// Two cards of one class can be drawn in no more ways than two cards.
pub proof fn lemma_same_ways_bound(s: Seq<int>, n: int)
    requires
        non_negative(s),
        0 <= n <= s.len(),
    ensures
        0 <= same_ways(s, n) <= prefix_sum(s, n) * (prefix_sum(s, n) - 1),
        prefix_sum(s, n) >= 0,
    decreases n,
{
    if n > 0 {
        lemma_same_ways_bound(s, n - 1);
        let x = s[n - 1];
        let p = prefix_sum(s, n - 1);
        let w = same_ways(s, n - 1);
        assert(0 <= x * (x - 1) && w + x * (x - 1) <= (p + x) * (p + x - 1)) by (nonlinear_arith)
            requires
                0 <= x,
                0 <= p,
                w <= p * (p - 1),
        ;
    } else {
        assert(0 * (0 - 1) == 0);
    }
}

pub proof fn lemma_after_pair(s: Seq<int>, i: int)
    requires
        non_negative(s),
        0 <= i < s.len(),
        s[i] >= 2,
    ensures
        non_negative(after_pair(s, i)),
        after_pair(s, i).len() == s.len(),
        total(after_pair(s, i)) == total(s) - 2,
        0 <= same_ways(after_pair(s, i), s.len() as int) <= next_two(s),
{
    lemma_prefix_sum_update(s, i, s[i] - 2, s.len() as int);
    lemma_same_ways_bound(after_pair(s, i), s.len() as int);
}

/// Where every continuation lies in `0..=k`, the sum lies between zero and
/// `k` times the ways to draw a pair.
pub proof fn lemma_paired_then_bound(s: Seq<int>, g: spec_fn(int) -> int, k: int, n: int)
    requires
        non_negative(s),
        0 <= n <= s.len(),
        forall|i: int| 0 <= i < n && s[i] >= 2 ==> 0 <= #[trigger] g(i) <= k,
    ensures
        0 <= paired_then(s, g, n) <= k * same_ways(s, n),
    decreases n,
{
    if n > 0 {
        lemma_paired_then_bound(s, g, k, n - 1);
        let x = s[n - 1];
        let w = same_ways(s, n - 1);
        let y = x * (x - 1);
        assert(0 <= y) by (nonlinear_arith)
            requires
                y == x * (x - 1),
                0 <= x,
        ;
        if x >= 2 {
            let z = g(n - 1);
            assert(0 <= y * z <= k * y && k * (w + y) == k * w + k * y) by (nonlinear_arith)
                requires
                    0 <= y,
                    0 <= z <= k,
            ;
        } else {
            assert(y == 0) by (nonlinear_arith)
                requires
                    y == x * (x - 1),
                    0 <= x <= 1,
            ;
            assert(k * (w + 0) == k * w);
        }
    } else {
        assert(k * 0 == 0);
    }
}

/// Two continuations that add up to `k` everywhere give sums that add up to
/// `k` times the ways to draw a pair.
pub proof fn lemma_paired_then_two(
    s: Seq<int>,
    g1: spec_fn(int) -> int,
    g2: spec_fn(int) -> int,
    k: int,
    n: int,
)
    requires
        non_negative(s),
        0 <= n <= s.len(),
        forall|i: int| 0 <= i < n && s[i] >= 2 ==> #[trigger] g1(i) + g2(i) == k,
    ensures
        paired_then(s, g1, n) + paired_then(s, g2, n) == k * same_ways(s, n),
    decreases n,
{
    if n > 0 {
        lemma_paired_then_two(s, g1, g2, k, n - 1);
        let x = s[n - 1];
        let w = same_ways(s, n - 1);
        let y = x * (x - 1);
        if x >= 2 {
            let (a, b) = (g1(n - 1), g2(n - 1));
            assert(y * a + y * b == k * y && k * (w + y) == k * w + k * y) by (nonlinear_arith)
                requires
                    a + b == k,
            ;
        } else {
            assert(y == 0) by (nonlinear_arith)
                requires
                    y == x * (x - 1),
                    0 <= x <= 1,
            ;
            assert(k * (w + 0) == k * w);
        }
    } else {
        assert(k * 0 == 0);
    }
}

/// Of the deals of four cards that begin with a pair, those that go on with
/// a pair and those that do not are all there are: the two counts add up to
/// the ways to draw a pair times the ways to draw two more cards.
pub proof fn lemma_first_pair_splits(s: Seq<int>)
    requires
        non_negative(s),
    ensures
        0 <= only_first_paired(s),
        0 <= both_paired(s),
        only_first_paired(s) + both_paired(s) == next_two(s) * same_ways(s, s.len() as int),
{
    let n = s.len() as int;
    let (g1, g2) = (second_no_pair(s), second_pair(s));
    assert forall|i: int| 0 <= i < n && s[i] >= 2 implies #[trigger] g1(i) + g2(i) == next_two(s)
        && 0 <= g1(i) <= next_two(s) by {
        lemma_after_pair(s, i);
    }
    assert forall|i: int| 0 <= i < n && s[i] >= 2 implies 0 <= #[trigger] g2(i) <= next_two(s) by {
        lemma_after_pair(s, i);
    }
    lemma_paired_then_two(s, g1, g2, next_two(s), n);
    lemma_paired_then_bound(s, g1, next_two(s), n);
    lemma_paired_then_bound(s, g2, next_two(s), n);
}

pub proof fn lemma_same_ways_update(s: Seq<int>, i: int, x: int, n: int)
    requires
        0 <= i < s.len(),
        0 <= n <= s.len(),
    ensures
        same_ways(s.update(i, x), n) == same_ways(s, n) + if i < n {
            x * (x - 1) - s[i] * (s[i] - 1)
        } else {
            0
        },
    decreases n,
{
    if n > 0 {
        lemma_same_ways_update(s, i, x, n - 1);
    }
}

/// Sum over the first `n` classes of `s[i] * (s[i] - 1) * s[i]`.
spec fn cube_ways(s: Seq<int>, n: int) -> int
    decreases n,
{
    if n <= 0 {
        0
    } else {
        cube_ways(s, n - 1) + s[n - 1] * (s[n - 1] - 1) * s[n - 1]
    }
}

proof fn lemma_only_first_closed(s: Seq<int>, n: int)
    requires
        non_negative(s),
        0 <= n <= s.len(),
    ensures
        paired_then(s, second_no_pair(s), n) == (next_two(s) - same_ways(s, s.len() as int) - 6)
            * same_ways(s, n) + 4 * cube_ways(s, n),
    decreases n,
{
    let beta = next_two(s) - same_ways(s, s.len() as int) - 6;
    if n > 0 {
        lemma_only_first_closed(s, n - 1);
        let i = n - 1;
        let x = s[i];
        let w = same_ways(s, i);
        let z = cube_ways(s, i);
        let y = x * (x - 1);
        lemma_same_ways_update(s, i, x - 2, s.len() as int);
        let g = second_no_pair(s)(i);
        assert((x - 2) * (x - 2 - 1) - y == 6 - 4 * x) by (nonlinear_arith)
            requires
                y == x * (x - 1),
        ;
        assert(g == beta + 4 * x);
        if x >= 2 {
            assert(y * g == beta * y + 4 * (y * x) && beta * (w + y) == beta * w + beta * y)
                by (nonlinear_arith)
                requires
                    g == beta + 4 * x,
            ;
        } else {
            assert(y == 0 && y * x == 0 && beta * (w + y) == beta * w) by (nonlinear_arith)
                requires
                    y == x * (x - 1),
                    0 <= x <= 1,
            ;
        }
    } else {
        assert(beta * 0 == 0);
    }
}

/// Sum over the classes `b < n` other than `a` of `s[b] * (k + 2 * s[b])`.
spec fn other_sum(s: Seq<int>, a: int, k: int, n: int) -> int
    decreases n,
{
    if n <= 0 {
        0
    } else {
        other_sum(s, a, k, n - 1) + if n - 1 != a {
            s[n - 1] * (k + 2 * s[n - 1])
        } else {
            0
        }
    }
}

proof fn lemma_other_sum_closed(s: Seq<int>, a: int, k: int, n: int)
    requires
        0 <= a < s.len(),
        0 <= n <= s.len(),
    ensures
        other_sum(s, a, k, n) == (k + 2) * prefix_sum(s, n) + 2 * same_ways(s, n) - if a < n {
            s[a] * (k + 2 * s[a])
        } else {
            0
        },
    decreases n,
{
    if n > 0 {
        lemma_other_sum_closed(s, a, k, n - 1);
        let x = s[n - 1];
        let p = prefix_sum(s, n - 1);
        assert(x * (k + 2 * x) == (k + 2) * x + 2 * (x * (x - 1)) && (k + 2) * (p + x) == (k + 2)
            * p + (k + 2) * x) by (nonlinear_arith);
    } else {
        assert((k + 2) * 0 == 0);
    }
}

/// Sum over the classes `a < n` of `s[a]` times the sum over the other
/// classes `b` of `s[b] * (k + 2 * s[a] + 2 * s[b])`.
spec fn neither_sum(s: Seq<int>, k: int, n: int) -> int
    decreases n,
{
    if n <= 0 {
        0
    } else {
        neither_sum(s, k, n - 1) + s[n - 1] * other_sum(
            s,
            n - 1,
            k + 2 * s[n - 1],
            s.len() as int,
        )
    }
}

proof fn lemma_neither_sum_closed(s: Seq<int>, k: int, n: int)
    requires
        0 <= n <= s.len(),
    ensures
        neither_sum(s, k, n) == (k * total(s) + 2 * total(s) + 2 * same_ways(s, s.len() as int))
            * prefix_sum(s, n) + (2 * total(s) - k) * (same_ways(s, n) + prefix_sum(s, n)) - 4
            * (cube_ways(s, n) + same_ways(s, n) + prefix_sum(s, n)),
    decreases n,
{
    let t = total(s);
    let w = same_ways(s, s.len() as int);
    if n > 0 {
        lemma_neither_sum_closed(s, k, n - 1);
        let a = n - 1;
        let x = s[a];
        lemma_other_sum_closed(s, a, k + 2 * x, s.len() as int);
        let o = other_sum(s, a, k + 2 * x, s.len() as int);
        let (p, q, z) = (prefix_sum(s, a), same_ways(s, a), cube_ways(s, a));
        let y = x * (x - 1);
        let c = y * x;
        assert(o == (k + 2 * x + 2) * t + 2 * w - x * (k + 2 * x + 2 * x));
        let x2 = x * x;
        let x3 = x2 * x;
        assert(y + x == x2 && c + y + x == x3) by (nonlinear_arith)
            requires
                y == x * (x - 1),
                c == y * x,
                x2 == x * x,
                x3 == x2 * x,
        ;
        let o1 = (k + 2 * x + 2) * t;
        let o3 = x * (k + 2 * x + 2 * x);
        assert(x * o1 == (k * t) * x + 2 * (t * x2) + 2 * (t * x)) by (nonlinear_arith)
            requires
                o1 == (k + 2 * x + 2) * t,
                x2 == x * x,
        ;
        assert(x * o3 == k * x2 + 4 * x3) by (nonlinear_arith)
            requires
                o3 == x * (k + 2 * x + 2 * x),
                x2 == x * x,
                x3 == x2 * x,
        ;
        assert(x * o == x * o1 + 2 * (w * x) - x * o3) by (nonlinear_arith)
            requires
                o == o1 + 2 * w - o3,
        ;
        assert((k * t + 2 * t + 2 * w) * x == (k * t) * x + 2 * (t * x) + 2 * (w * x))
            by (nonlinear_arith);
        assert((2 * t - k) * x2 == 2 * (t * x2) - k * x2) by (nonlinear_arith);
        assert(x * o == (k * t + 2 * t + 2 * w) * x + (2 * t - k) * (y + x) - 4 * (c + y + x));
        let (f1, f2) = (k * t + 2 * t + 2 * w, 2 * t - k);
        assert(f1 * (p + x) == f1 * p + f1 * x && f2 * (q + y + (p + x)) == f2 * (q + p) + f2 * (y
            + x)) by (nonlinear_arith);
    } else {
        assert((k * t + 2 * t + 2 * w) * 0 == 0 && (2 * t - k) * 0 == 0) by (nonlinear_arith);
    }
}

/// After the first hand, a pair or none: one for every second hand that,
/// with the first, is what is wanted. `want` is asked with whether the first
/// hand is a pair and whether the second is.
pub open spec fn second_hand(first_is_pair: bool, want: spec_fn(bool, bool) -> bool) -> spec_fn(
    int,
    int,
) -> int {
    |x: int, y: int| indicator(want(first_is_pair, x == y))
}

/// After the two cards `a` and `b` of the first hand: the ways to draw a
/// second hand that, with the first, is what is wanted.
pub open spec fn first_hand(s: Seq<int>, want: spec_fn(bool, bool) -> bool) -> spec_fn(
    int,
    int,
) -> int {
    |a: int, b: int| two_card_sum(take(take(s, a), b), second_hand(a == b, want))
}

/// The ordered draws of four cards, two for each hand, of which the pairs
/// are what is wanted: counted draw by draw.
pub open spec fn four_card_ways(s: Seq<int>, want: spec_fn(bool, bool) -> bool) -> int {
    two_card_sum(s, first_hand(s, want))
}

/// At least one of the two hands is a pair.
pub open spec fn either_is_pair() -> spec_fn(bool, bool) -> bool {
    |first: bool, second: bool| first || second
}

spec fn on_diagonal(g: spec_fn(int) -> int) -> spec_fn(int, int) -> int {
    |a: int, b: int|
        if a == b {
            g(a)
        } else {
            0
        }
}

spec fn off_diagonal_pairs(s: Seq<int>) -> spec_fn(int, int) -> int {
    |a: int, b: int|
        if a != b {
            same_ways(take(take(s, a), b), s.len() as int)
        } else {
            0
        }
}

spec fn always(k: int) -> spec_fn(int) -> int {
    |i: int| k
}

spec fn always_two(k: int) -> spec_fn(int, int) -> int {
    |a: int, b: int| k
}

proof fn lemma_paired_then_always(s: Seq<int>, k: int, n: int)
    requires
        non_negative(s),
        0 <= n <= s.len(),
    ensures
        paired_then(s, always(k), n) == k * same_ways(s, n),
{
    lemma_paired_then_two(s, always(k), always(0), k, n);
    lemma_paired_then_bound(s, always(0), 0, n);
}

proof fn lemma_diagonal_prefix(s: Seq<int>, g: spec_fn(int) -> int, n: int)
    requires
        non_negative(s),
        0 <= n <= s.len(),
    ensures
        draw_sum(s, first_draw(s, on_diagonal(g)), n) == paired_then(s, g, n),
    decreases n,
{
    if n > 0 {
        lemma_diagonal_prefix(s, g, n - 1);
        let a = n - 1;
        let x = s[a];
        if x > 0 {
            lemma_draw_sum_one_term(
                take(s, a),
                second_draw(on_diagonal(g), a),
                a,
                s.len() as int,
            );
            let y = g(a);
            assert(second_draw(on_diagonal(g), a)(a) == y);
            assert(x * ((x - 1) * y) == x * (x - 1) * y) by (nonlinear_arith);
            assert(x * 0 == 0);
        }
    }
}

/// A continuation that is zero but where both cards are of one class gives
/// the sum over the pairs.
proof fn lemma_two_card_sum_diagonal(s: Seq<int>, g: spec_fn(int) -> int)
    requires
        non_negative(s),
    ensures
        two_card_sum(s, on_diagonal(g)) == paired_then(s, g, s.len() as int),
{
    lemma_diagonal_prefix(s, g, s.len() as int);
}

proof fn lemma_two_card_sum_always(s: Seq<int>, k: int)
    requires
        non_negative(s),
        0 <= k,
    ensures
        two_card_sum(s, always_two(k)) == k * (total(s) * (total(s) - 1)),
{
    lemma_two_card_sum_three(s, always_two(k), always_two(0), always_two(0), k);
    lemma_two_card_sum_bound(s, always_two(0), 0);
}

proof fn lemma_same_ways_after_two(s: Seq<int>, a: int, b: int)
    requires
        non_negative(s),
        0 <= a < s.len(),
        0 <= b < s.len(),
        a != b,
        s[a] >= 1,
        s[b] >= 1,
    ensures
        same_ways(take(take(s, a), b), s.len() as int) == same_ways(s, s.len() as int) - 2 * s[a]
            - 2 * s[b] + 4,
        non_negative(take(take(s, a), b)),
        total(take(take(s, a), b)) == total(s) - 2,
{
    let len = s.len() as int;
    let (x, y) = (s[a], s[b]);
    let s1 = take(s, a);
    lemma_same_ways_update(s, a, x - 1, len);
    lemma_same_ways_update(s1, b, y - 1, len);
    lemma_prefix_sum_update(s, a, x - 1, len);
    lemma_prefix_sum_update(s1, b, y - 1, len);
    assert((x - 1) * (x - 1 - 1) - x * (x - 1) == 2 - 2 * x) by (nonlinear_arith);
    assert((y - 1) * (y - 1 - 1) - y * (y - 1) == 2 - 2 * y) by (nonlinear_arith);
}

proof fn lemma_off_diagonal_row(s: Seq<int>, a: int, k: int, n: int)
    requires
        non_negative(s),
        0 <= a < s.len(),
        0 <= n <= s.len(),
        s[a] >= 1,
        k == -same_ways(s, s.len() as int) - 4,
    ensures
        draw_sum(take(s, a), second_draw(off_diagonal_pairs(s), a), n) == -other_sum(
            s,
            a,
            k + 2 * s[a],
            n,
        ),
    decreases n,
{
    if n > 0 {
        lemma_off_diagonal_row(s, a, k, n - 1);
        let b = n - 1;
        let y = s[b];
        let g = second_draw(off_diagonal_pairs(s), a);
        if b != a {
            assert(take(s, a)[b] == y);
            if y > 0 {
                lemma_same_ways_after_two(s, a, b);
                let z = g(b);
                assert(z == -(k + 2 * s[a] + 2 * y));
                assert(y * z == -(y * (k + 2 * s[a] + 2 * y))) by (nonlinear_arith)
                    requires
                        z == -(k + 2 * s[a] + 2 * y),
                ;
            } else {
                assert(y * (k + 2 * s[a] + 2 * y) == 0) by (nonlinear_arith)
                    requires
                        y == 0,
                ;
            }
        } else {
            assert(g(b) == 0);
            assert(take(s, a)[b] * 0 == 0);
        }
    }
}

proof fn lemma_off_diagonal_prefix(s: Seq<int>, k: int, n: int)
    requires
        non_negative(s),
        0 <= n <= s.len(),
        k == -same_ways(s, s.len() as int) - 4,
    ensures
        draw_sum(s, first_draw(s, off_diagonal_pairs(s)), n) == -neither_sum(s, k, n),
    decreases n,
{
    if n > 0 {
        lemma_off_diagonal_prefix(s, k, n - 1);
        let a = n - 1;
        let x = s[a];
        let o = other_sum(s, a, k + 2 * x, s.len() as int);
        if x > 0 {
            lemma_off_diagonal_row(s, a, k, s.len() as int);
            assert(x * (-o) == -(x * o)) by (nonlinear_arith);
        } else {
            assert(x * o == 0) by (nonlinear_arith)
                requires
                    x == 0,
            ;
        }
    }
}

/// The closed count of the deals of four cards in which at least one hand
/// is a pair is their number: drawn card by card, the draws of four cards
/// of which the first two or the last two are of one class are as many as
/// twice those that begin with a pair and do not go on with one, and those
/// that hold two pairs.
pub proof fn lemma_either_paired_counts_draws(s: Seq<int>)
    requires
        non_negative(s),
    ensures
        four_card_ways(s, either_is_pair()) == 2 * only_first_paired(s) + both_paired(s),
{
    let len = s.len() as int;
    let t = total(s);
    let w = same_ways(s, len);
    let z = cube_ways(s, len);
    let m = next_two(s);
    let k = -w - 4;
    let g = first_hand(s, either_is_pair());
    let g1 = on_diagonal(always(m));
    let g2 = off_diagonal_pairs(s);
    assert forall|a: int, b: int|
        0 <= a < len && 0 <= b < len && can_draw_two(s, a, b) implies #[trigger] g(a, b) == g1(
        a,
        b,
    ) + g2(a, b) by {
        let s2 = take(take(s, a), b);
        lemma_take_total(s, a);
        lemma_take_non_negative(s, a);
        lemma_take_total(take(s, a), b);
        lemma_take_non_negative(take(s, a), b);
        let h = second_hand(a == b, either_is_pair());
        if a == b {
            assert forall|x: int, y: int| 0 <= x < len && 0 <= y < len implies #[trigger] h(x, y)
                == always_two(1)(x, y) + always_two(0)(x, y) by {}
            lemma_two_card_sum_add(s2, always_two(1), always_two(0), h);
            lemma_two_card_sum_always(s2, 1);
            lemma_two_card_sum_always(s2, 0);
            assert(always(m)(a) == m);
        } else {
            assert forall|x: int, y: int| 0 <= x < len && 0 <= y < len implies #[trigger] h(x, y)
                == on_diagonal(always(1))(x, y) + always_two(0)(x, y) by {
                assert(always(1)(x) == 1);
            }
            lemma_two_card_sum_add(s2, on_diagonal(always(1)), always_two(0), h);
            lemma_two_card_sum_always(s2, 0);
            lemma_two_card_sum_diagonal(s2, always(1));
            lemma_paired_then_always(s2, 1, len);
        }
    }
    lemma_two_card_sum_add(s, g1, g2, g);
    lemma_two_card_sum_diagonal(s, always(m));
    lemma_paired_then_always(s, m, len);
    lemma_off_diagonal_prefix(s, k, len);
    lemma_neither_sum_closed(s, k, len);
    lemma_only_first_closed(s, len);
    lemma_first_pair_splits(s);
    let only = only_first_paired(s);
    let both = both_paired(s);
    let nn = neither_sum(s, k, len);
    assert(four_card_ways(s, either_is_pair()) == m * w - nn);
    assert(-nn == only) by (nonlinear_arith)
        requires
            nn == (k * t + 2 * t + 2 * w) * t + (2 * t - k) * (w + t) - 4 * (z + w + t),
            only == (m - w - 6) * w + 4 * z,
            k == -w - 4,
            m == (t - 2) * (t - 3),
    ;
}

/// The deals of four cards in which at least one side holds a pair are no
/// more than all deals of four cards.
pub proof fn lemma_either_paired_bound(s: Seq<int>)
    requires
        non_negative(s),
    ensures
        0 <= 2 * only_first_paired(s) + both_paired(s) <= total(s) * (total(s) - 1) * next_two(s),
{
    let len = s.len() as int;
    let t = total(s);
    let m = next_two(s);
    let g = first_hand(s, either_is_pair());
    lemma_either_paired_counts_draws(s);
    assert(0 <= m) by (nonlinear_arith)
        requires
            m == (t - 2) * (t - 3),
    ;
    assert forall|a: int, b: int|
        0 <= a < len && 0 <= b < len && can_draw_two(s, a, b) implies 0 <= #[trigger] g(a, b)
        <= m by {
        let s2 = take(take(s, a), b);
        lemma_take_total(s, a);
        lemma_take_non_negative(s, a);
        lemma_take_total(take(s, a), b);
        lemma_take_non_negative(take(s, a), b);
        let h = second_hand(a == b, either_is_pair());
        assert forall|x: int, y: int| 0 <= x < len && 0 <= y < len implies 0 <= #[trigger] h(x, y)
            <= 1 by {}
        lemma_two_card_sum_bound(s2, h, 1);
    }
    lemma_two_card_sum_bound(s, g, m);
    assert(m * (t * (t - 1)) == t * (t - 1) * m) by (nonlinear_arith);
}

/// Counts the ordered ways to draw two cards of one class.
pub fn same_class_ways<const N: usize>(count: &[u32; N]) -> (ways: u128)
    requires
        total(counts(count@)) <= MAX_CARDS,
    ensures
        ways == same_ways(counts(count@), N as int),
        ways <= MAX_CARDS * MAX_CARDS,
{
    let ghost s = counts(count@);
    let mut ways: u128 = 0;
    let mut i: usize = 0;
    while i < N
        invariant
            i <= N,
            s == counts(count@),
            total(s) <= MAX_CARDS,
            ways == same_ways(s, i as int),
            ways <= MAX_CARDS * MAX_CARDS,
        decreases N - i,
    {
        let c: u128 = count[i] as u128;
        proof {
            lemma_count_le_total(s, i as int);
            lemma_same_ways_bound(s, i + 1);
            lemma_prefix_sum_monotone(s, i + 1, N as int);
            let p = prefix_sum(s, i + 1);
            let t = MAX_CARDS as int;
            assert(p * (p - 1) <= t * t) by (nonlinear_arith)
                requires
                    0 <= p <= t,
            ;
            assert(s[i as int] == c);
            assert(0 <= c * (c - 1) <= t * t) by (nonlinear_arith)
                requires
                    0 <= c <= t,
            ;
            assert(c == 0 ==> c * (c - 1) == 0) by (nonlinear_arith);
        }
        if c >= 1 {
            ways = ways + c * (c - 1);
        }
        i += 1;
    }
    ways
}

/// Counts the ordered ways to draw four cards that begin with a pair: first
/// those in which the last two cards are no pair, then those in which they
/// are one. Each pair is taken out of `count` while the rest is counted, and
/// put back.
pub fn pair_ways_split<const N: usize>(count: &mut [u32; N], total_count: u32) -> (ways: (
    u128,
    u128,
))
    requires
        total_count == total(counts(old(count)@)),
        total_count <= MAX_CARDS,
    ensures
        final(count)@ == old(count)@,
        ways.0 == only_first_paired(counts(old(count)@)),
        ways.1 == both_paired(counts(old(count)@)),
        ways.0 + ways.1 == next_two(counts(old(count)@)) * same_ways(
            counts(old(count)@),
            N as int,
        ),
{
    let ghost s = counts(count@);
    let mut only: u128 = 0;
    let mut both: u128 = 0;
    let mut i: usize = 0;
    let ghost m = next_two(s);
    proof {
        lemma_first_pair_splits(s);
    }
    while i < N
        invariant
            i <= N,
            count@ == old(count)@,
            s == counts(count@),
            total_count == total(s),
            total_count <= MAX_CARDS,
            m == next_two(s),
            only == paired_then(s, second_no_pair(s), i as int),
            both == paired_then(s, second_pair(s), i as int),
            only + both == m * same_ways(s, i as int),
        decreases N - i,
    {
        proof {
            lemma_same_ways_bound(s, i + 1);
            lemma_prefix_sum_monotone(s, i + 1, N as int);
            lemma_count_le_total(s, i as int);
            let x = s[i as int];
            assert(x == count[i as int]);
            assert(0 <= x <= 1 ==> x * (x - 1) == 0) by (nonlinear_arith);
            assert(0 <= x * (x - 1) <= 52_000 * 52_000) by (nonlinear_arith)
                requires
                    0 <= x <= 52_000,
            ;
            assert(m * (same_ways(s, i as int) + 0) == m * same_ways(s, i as int));
        }
        if count[i] >= 2 {
            let c: u128 = count[i] as u128;
            let t: u128 = total_count as u128;
            let first: u128 = c * (c - 1);
            assert((t - 2) * (t - 3) <= 52_000 * 52_000 && (t == 2 ==> (t - 2) * (t - 3) == 0))
                by (nonlinear_arith)
                requires
                    2 <= t <= 52_000,
            ;
            let all: u128 = if t >= 3 {
                (t - 2) * (t - 3)
            } else {
                0
            };
            count[i] = count[i] - 2;
            proof {
                assert(counts(count@) =~= after_pair(s, i as int));
                lemma_after_pair(s, i as int);
            }
            let second: u128 = same_class_ways(count);
            count[i] = count[i] + 2;
            proof {
                assert(count@ =~= old(count)@);
                let lim = MAX_CARDS as int;
                let w = same_ways(s, i as int);
                let p = prefix_sum(s, i + 1);
                lemma_same_ways_bound(s, i as int);
                assert(w + first <= lim * lim) by (nonlinear_arith)
                    requires
                        w + first <= p * (p - 1),
                        0 <= p <= lim,
                ;
                assert(0 <= all <= lim * lim) by (nonlinear_arith)
                    requires
                        all == (t - 2) * (t - 3),
                        2 <= t <= lim,
                ;
                assert(first * (all - second) + first * second == all * first && all * (w
                    + first) == all * w + all * first && all * (w + first) <= (lim * lim) * (lim
                    * lim) && first * (all - second) >= 0 && first * second >= 0)
                    by (nonlinear_arith)
                    requires
                        0 <= w,
                        0 <= first,
                        w + first <= lim * lim,
                        0 <= second <= all <= lim * lim,
                ;
            }
            only = only + first * (all - second);
            both = both + first * second;
        }
        i += 1;
    }
    (only, both)
}

} // verus!
