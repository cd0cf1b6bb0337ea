//! Sums over the cards that can still be drawn, and what holds of them.
//!
//! A composition is a sequence of counts, one per class of card. Drawing
//! without replacement weighs a class by its count, so the number of ordered
//! ways to continue a deal is a sum of `count * ways after the draw`.

use vstd::prelude::*;

verus! {

/// The counts of a composition as mathematical integers.
pub open spec fn counts(s: Seq<u32>) -> Seq<int> {
    Seq::new(s.len(), |i: int| s[i] as int)
}

/// Sum of the first `n` counts.
pub open spec fn prefix_sum(c: Seq<int>, n: int) -> int
    decreases n,
{
    if n <= 0 {
        0
    } else {
        prefix_sum(c, n - 1) + c[n - 1]
    }
}

/// Number of cards in a composition.
pub open spec fn total(c: Seq<int>) -> int {
    prefix_sum(c, c.len() as int)
}

/// No class has a negative count.
pub open spec fn non_negative(c: Seq<int>) -> bool {
    forall|i: int| 0 <= i < c.len() ==> c[i] >= 0
}

/// The composition after one card of class `v` has been drawn.
pub open spec fn take(c: Seq<int>, v: int) -> Seq<int> {
    c.update(v, c[v] - 1)
}

/// Sum, over the classes `v < n` of which a card is left, of
/// `c[v] * g(v)`: the ways to draw one card and go on in `g(v)` ways.
pub open spec fn draw_sum(c: Seq<int>, g: spec_fn(int) -> int, n: int) -> int
    decreases n,
{
    if n <= 0 {
        0
    } else {
        draw_sum(c, g, n - 1) + if c[n - 1] > 0 {
            c[n - 1] * g(n - 1)
        } else {
            0
        }
    }
}

pub proof fn lemma_prefix_sum_update(c: Seq<int>, i: int, x: int, n: int)
    requires
        0 <= i < c.len(),
        0 <= n <= c.len(),
    ensures
        prefix_sum(c.update(i, x), n) == prefix_sum(c, n) + if i < n {
            x - c[i]
        } else {
            0
        },
    decreases n,
{
    if n > 0 {
        lemma_prefix_sum_update(c, i, x, n - 1);
    }
}

/// Drawing a card leaves one card fewer.
pub proof fn lemma_take_total(c: Seq<int>, v: int)
    requires
        0 <= v < c.len(),
    ensures
        total(take(c, v)) == total(c) - 1,
        take(c, v).len() == c.len(),
{
    lemma_prefix_sum_update(c, v, c[v] - 1, c.len() as int);
}

pub proof fn lemma_take_non_negative(c: Seq<int>, v: int)
    requires
        0 <= v < c.len(),
        non_negative(c),
        c[v] > 0,
    ensures
        non_negative(take(c, v)),
{
}

pub proof fn lemma_prefix_sum_monotone(c: Seq<int>, n: int, m: int)
    requires
        non_negative(c),
        0 <= n <= m <= c.len(),
    ensures
        0 <= prefix_sum(c, n) <= prefix_sum(c, m),
    decreases m,
{
    if n < m {
        lemma_prefix_sum_monotone(c, n, m - 1);
    } else if n > 0 {
        lemma_prefix_sum_monotone(c, n - 1, n - 1);
    }
}

/// No class holds more cards than the whole composition.
pub proof fn lemma_count_le_total(c: Seq<int>, i: int)
    requires
        non_negative(c),
        0 <= i < c.len(),
    ensures
        c[i] <= total(c),
{
    lemma_prefix_sum_monotone(c, i + 1, c.len() as int);
    lemma_prefix_sum_monotone(c, i, i);
}

/// Lower and upper bound of a draw sum whose continuations lie in `0..=k`.
pub proof fn lemma_draw_sum_bound(c: Seq<int>, g: spec_fn(int) -> int, k: int, n: int)
    requires
        0 <= n <= c.len(),
        non_negative(c),
        0 <= k,
        forall|v: int| 0 <= v < n && c[v] > 0 ==> 0 <= #[trigger] g(v) <= k,
    ensures
        0 <= draw_sum(c, g, n) <= k * prefix_sum(c, n),
    decreases n,
{
    if n > 0 {
        lemma_draw_sum_bound(c, g, k, n - 1);
        let v = n - 1;
        if c[v] > 0 {
            let x = c[v];
            let y = g(v);
            let s = prefix_sum(c, v);
            assert(0 <= x * y <= x * k && k * (s + x) == k * s + x * k) by (nonlinear_arith)
                requires
                    0 < x,
                    0 <= y <= k,
            ;
        } else {
            let s = prefix_sum(c, v);
            assert(k * (s + 0) == k * s);
        }
    } else {
        assert(k * 0 == 0);
    }
}

/// A draw sum grows with the number of classes it covers.
pub proof fn lemma_draw_sum_monotone(c: Seq<int>, g: spec_fn(int) -> int, n: int, m: int)
    requires
        0 <= n <= m <= c.len(),
        forall|v: int| 0 <= v < m && c[v] > 0 ==> 0 <= #[trigger] g(v),
    ensures
        0 <= draw_sum(c, g, n) <= draw_sum(c, g, m),
    decreases m,
{
    if n < m {
        lemma_draw_sum_monotone(c, g, n, m - 1);
        let v = m - 1;
        if c[v] > 0 {
            let x = c[v];
            let y = g(v);
            assert(0 <= x * y) by (nonlinear_arith)
                requires
                    0 < x,
                    0 <= y,
            ;
        }
    } else if n > 0 {
        lemma_draw_sum_monotone(c, g, n - 1, n - 1);
        let v = n - 1;
        if c[v] > 0 {
            let x = c[v];
            let y = g(v);
            assert(0 <= x * y) by (nonlinear_arith)
                requires
                    0 < x,
                    0 <= y,
            ;
        }
    }
}

/// Two continuations that agree wherever a card is left give the same sum.
pub proof fn lemma_draw_sum_agree(
    c: Seq<int>,
    g: spec_fn(int) -> int,
    h: spec_fn(int) -> int,
    n: int,
)
    requires
        0 <= n <= c.len(),
        forall|v: int| 0 <= v < n && c[v] > 0 ==> #[trigger] g(v) == #[trigger] h(v),
    ensures
        draw_sum(c, g, n) == draw_sum(c, h, n),
    decreases n,
{
    if n > 0 {
        lemma_draw_sum_agree(c, g, h, n - 1);
    }
}

/// Three continuations that always add up to `k` give draw sums that add up
/// to `k` times the number of cards.
pub proof fn lemma_draw_sum_three(
    c: Seq<int>,
    g1: spec_fn(int) -> int,
    g2: spec_fn(int) -> int,
    g3: spec_fn(int) -> int,
    k: int,
    n: int,
)
    requires
        0 <= n <= c.len(),
        non_negative(c),
        forall|v: int| 0 <= v < n && c[v] > 0 ==> #[trigger] g1(v) + g2(v) + g3(v) == k,
    ensures
        draw_sum(c, g1, n) + draw_sum(c, g2, n) + draw_sum(c, g3, n) == k * prefix_sum(c, n),
    decreases n,
{
    if n > 0 {
        lemma_draw_sum_three(c, g1, g2, g3, k, n - 1);
        let v = n - 1;
        let x = c[v];
        let s = prefix_sum(c, v);
        if x > 0 {
            let (a, b, d) = (g1(v), g2(v), g3(v));
            assert(x * a + x * b + x * d == x * k && k * (s + x) == k * s + x * k)
                by (nonlinear_arith)
                requires
                    a + b + d == k,
            ;
        } else {
            assert(k * (s + 0) == k * s);
        }
    } else {
        assert(k * 0 == 0);
    }
}

/// Eight continuations that never add up to more than `k` give draw sums
/// that add up to at most `k` times the number of cards.
pub proof fn lemma_draw_sum_eight(
    c: Seq<int>,
    gs: spec_fn(int) -> spec_fn(int) -> int,
    k: int,
    n: int,
)
    requires
        0 <= n <= c.len(),
        non_negative(c),
        forall|v: int|
            0 <= v < n && c[v] > 0 ==> #[trigger] gs(0)(v) + gs(1)(v) + gs(2)(v) + gs(3)(v) + gs(
                4,
            )(v) + gs(5)(v) + gs(6)(v) + gs(7)(v) <= k,
    ensures
        draw_sum(c, gs(0), n) + draw_sum(c, gs(1), n) + draw_sum(c, gs(2), n) + draw_sum(
            c,
            gs(3),
            n,
        ) + draw_sum(c, gs(4), n) + draw_sum(c, gs(5), n) + draw_sum(c, gs(6), n) + draw_sum(
            c,
            gs(7),
            n,
        ) <= k * prefix_sum(c, n),
    decreases n,
{
    if n > 0 {
        lemma_draw_sum_eight(c, gs, k, n - 1);
        let v = n - 1;
        let x = c[v];
        let s = prefix_sum(c, v);
        if x > 0 {
            let (a0, a1, a2, a3) = (gs(0)(v), gs(1)(v), gs(2)(v), gs(3)(v));
            let (a4, a5, a6, a7) = (gs(4)(v), gs(5)(v), gs(6)(v), gs(7)(v));
            assert(x * a0 + x * a1 + x * a2 + x * a3 + x * a4 + x * a5 + x * a6 + x * a7 <= x * k
                && k * (s + x) == k * s + x * k) by (nonlinear_arith)
                requires
                    a0 + a1 + a2 + a3 + a4 + a5 + a6 + a7 <= k,
                    x > 0,
            ;
        } else {
            assert(k * (s + 0) == k * s);
        }
    } else {
        assert(k * 0 == 0);
    }
}


/// The continuation of a deal after the cards `a` and then `b`, as a
/// function of `b` alone.
pub open spec fn second_draw(g: spec_fn(int, int) -> int, a: int) -> spec_fn(int) -> int {
    |b: int| g(a, b)
}

/// The ways to draw a second card after `a` and go on.
pub open spec fn first_draw(c: Seq<int>, g: spec_fn(int, int) -> int) -> spec_fn(int) -> int {
    |a: int| draw_sum(take(c, a), second_draw(g, a), c.len() as int)
}

/// The ways to draw two cards in order, first `a` then `b`, and go on in
/// `g(a, b)` ways.
pub open spec fn two_card_sum(c: Seq<int>, g: spec_fn(int, int) -> int) -> int {
    draw_sum(c, first_draw(c, g), c.len() as int)
}

/// Both cards of the ordered pair `(a, b)` can be drawn.
pub open spec fn can_draw_two(c: Seq<int>, a: int, b: int) -> bool {
    c[a] > 0 && take(c, a)[b] > 0
}

/// `g` does not depend on the order of its two cards.
pub open spec fn symmetric(g: spec_fn(int, int) -> int, n: int) -> bool {
    forall|a: int, b: int| 0 <= a < n && 0 <= b < n ==> #[trigger] g(a, b) == g(b, a)
}

/// Ordered ways to draw the two classes `a` and `b` in either order.
pub open spec fn pair_ways(c: Seq<int>, a: int, b: int) -> int {
    if a == b {
        c[a] * (c[a] - 1)
    } else {
        2 * (c[a] * c[b])
    }
}

/// What the unordered pair `{a, b}` adds to a sum over pairs.
pub open spec fn pair_term(c: Seq<int>, g: spec_fn(int, int) -> int, a: int, b: int) -> int {
    if pair_ways(c, a, b) > 0 {
        pair_ways(c, a, b) * g(a, b)
    } else {
        0
    }
}

/// Sum of the terms of the pairs `{a, b}` with `b < m`.
pub open spec fn pair_row(c: Seq<int>, g: spec_fn(int, int) -> int, a: int, m: int) -> int
    decreases m,
{
    if m <= 0 {
        0
    } else {
        pair_row(c, g, a, m - 1) + pair_term(c, g, a, m - 1)
    }
}

/// Sum of the terms of the pairs `{a, b}` with `b <= a < n`: each unordered
/// pair once, weighed by the ordered ways to draw it.
pub open spec fn pair_sum(c: Seq<int>, g: spec_fn(int, int) -> int, n: int) -> int
    decreases n,
{
    if n <= 0 {
        0
    } else {
        pair_sum(c, g, n - 1) + pair_row(c, g, n - 1, n)
    }
}

/// What the ordered pair `(a, b)` adds to a sum over two draws.
pub open spec fn ordered_term(c: Seq<int>, g: spec_fn(int, int) -> int, a: int, b: int) -> int {
    if can_draw_two(c, a, b) {
        c[a] * (take(c, a)[b] * g(a, b))
    } else {
        0
    }
}

pub open spec fn ordered_row(c: Seq<int>, g: spec_fn(int, int) -> int, a: int, m: int) -> int
    decreases m,
{
    if m <= 0 {
        0
    } else {
        ordered_row(c, g, a, m - 1) + ordered_term(c, g, a, m - 1)
    }
}

pub open spec fn ordered_column(c: Seq<int>, g: spec_fn(int, int) -> int, n: int, b: int) -> int
    decreases n,
{
    if n <= 0 {
        0
    } else {
        ordered_column(c, g, n - 1, b) + ordered_term(c, g, n - 1, b)
    }
}

pub open spec fn ordered_block(c: Seq<int>, g: spec_fn(int, int) -> int, n: int, m: int) -> int
    decreases n,
{
    if n <= 0 {
        0
    } else {
        ordered_block(c, g, n - 1, m) + ordered_row(c, g, n - 1, m)
    }
}

proof fn lemma_ordered_row_is_scaled_draw_sum(
    c: Seq<int>,
    g: spec_fn(int, int) -> int,
    a: int,
    m: int,
)
    requires
        0 <= a < c.len(),
        0 <= m <= c.len(),
    ensures
        ordered_row(c, g, a, m) == if c[a] > 0 {
            c[a] * draw_sum(take(c, a), second_draw(g, a), m)
        } else {
            0
        },
    decreases m,
{
    if m > 0 {
        lemma_ordered_row_is_scaled_draw_sum(c, g, a, m - 1);
        if c[a] > 0 {
            let x = c[a];
            let s = draw_sum(take(c, a), second_draw(g, a), m - 1);
            let y = take(c, a)[m - 1];
            let z = g(a, m - 1);
            assert(second_draw(g, a)(m - 1) == z);
            assert(x * (s + y * z) == x * s + x * (y * z)) by (nonlinear_arith);
            assert(x * (s + 0) == x * s);
        }
    } else {
        assert(c[a] * 0 == 0);
    }
}

proof fn lemma_two_card_sum_is_block(c: Seq<int>, g: spec_fn(int, int) -> int, n: int)
    requires
        0 <= n <= c.len(),
    ensures
        draw_sum(c, first_draw(c, g), n) == ordered_block(c, g, n, c.len() as int),
    decreases n,
{
    if n > 0 {
        lemma_two_card_sum_is_block(c, g, n - 1);
        lemma_ordered_row_is_scaled_draw_sum(c, g, n - 1, c.len() as int);
    }
}

proof fn lemma_ordered_block_widen(c: Seq<int>, g: spec_fn(int, int) -> int, n: int, m: int)
    requires
        0 <= n,
        0 <= m,
    ensures
        ordered_block(c, g, n, m + 1) == ordered_block(c, g, n, m) + ordered_column(c, g, n, m),
    decreases n,
{
    if n > 0 {
        lemma_ordered_block_widen(c, g, n - 1, m);
    }
}

proof fn lemma_ordered_term_symmetric(c: Seq<int>, g: spec_fn(int, int) -> int, a: int, b: int)
    requires
        0 <= a < c.len(),
        0 <= b < c.len(),
        a != b,
        g(a, b) == g(b, a),
    ensures
        ordered_term(c, g, a, b) == ordered_term(c, g, b, a),
{
    let (x, y, z) = (c[a], c[b], g(a, b));
    assert(x * (y * z) == y * (x * z)) by (nonlinear_arith);
}

proof fn lemma_ordered_column_is_row(c: Seq<int>, g: spec_fn(int, int) -> int, n: int, b: int)
    requires
        0 <= n <= b < c.len(),
        symmetric(g, c.len() as int),
    ensures
        ordered_column(c, g, n, b) == ordered_row(c, g, b, n),
    decreases n,
{
    if n > 0 {
        lemma_ordered_column_is_row(c, g, n - 1, b);
        lemma_ordered_term_symmetric(c, g, n - 1, b);
    }
}

proof fn lemma_pair_term_off_diagonal(c: Seq<int>, g: spec_fn(int, int) -> int, a: int, b: int)
    requires
        0 <= a < c.len(),
        0 <= b < c.len(),
        a != b,
        non_negative(c),
    ensures
        pair_term(c, g, a, b) == 2 * ordered_term(c, g, a, b),
{
    let (x, y, z) = (c[a], c[b], g(a, b));
    assert(take(c, a)[b] == y);
    assert((x > 0 && y > 0) ==> x * y > 0) by (nonlinear_arith);
    assert((x == 0 || y == 0) ==> x * y == 0) by (nonlinear_arith);
    assert((2 * (x * y)) * z == 2 * (x * (y * z))) by (nonlinear_arith);
}

proof fn lemma_pair_term_diagonal(c: Seq<int>, g: spec_fn(int, int) -> int, a: int)
    requires
        0 <= a < c.len(),
        non_negative(c),
    ensures
        pair_term(c, g, a, a) == ordered_term(c, g, a, a),
{
    let (x, z) = (c[a], g(a, a));
    assert(take(c, a)[a] == x - 1);
    assert((x > 1) ==> x * (x - 1) > 0) by (nonlinear_arith);
    assert((x == 0 || x == 1) ==> x * (x - 1) == 0) by (nonlinear_arith);
    assert((x * (x - 1)) * z == x * ((x - 1) * z)) by (nonlinear_arith);
}

proof fn lemma_pair_row_is_twice_ordered(c: Seq<int>, g: spec_fn(int, int) -> int, a: int, m: int)
    requires
        0 <= m <= a < c.len(),
        non_negative(c),
    ensures
        pair_row(c, g, a, m) == 2 * ordered_row(c, g, a, m),
    decreases m,
{
    if m > 0 {
        lemma_pair_row_is_twice_ordered(c, g, a, m - 1);
        lemma_pair_term_off_diagonal(c, g, a, m - 1);
    }
}

proof fn lemma_block_is_pair_sum(c: Seq<int>, g: spec_fn(int, int) -> int, n: int)
    requires
        0 <= n <= c.len(),
        non_negative(c),
        symmetric(g, c.len() as int),
    ensures
        ordered_block(c, g, n, n) == pair_sum(c, g, n),
    decreases n,
{
    if n > 0 {
        let a = n - 1;
        lemma_block_is_pair_sum(c, g, a);
        lemma_ordered_block_widen(c, g, a, a);
        lemma_ordered_column_is_row(c, g, a, a);
        lemma_pair_row_is_twice_ordered(c, g, a, a);
        lemma_pair_term_diagonal(c, g, a);
    }
}

/// Two cards drawn in order, counted pair by pair: where the continuation
/// does not depend on the order of the two cards, the sum over ordered draws
/// equals the sum over unordered pairs, each weighed by the ways to draw it.
pub proof fn lemma_two_card_sum_by_pairs(c: Seq<int>, g: spec_fn(int, int) -> int)
    requires
        non_negative(c),
        symmetric(g, c.len() as int),
    ensures
        two_card_sum(c, g) == pair_sum(c, g, c.len() as int),
{
    lemma_two_card_sum_is_block(c, g, c.len() as int);
    lemma_block_is_pair_sum(c, g, c.len() as int);
}


/// With no card left, no class has one.
pub proof fn lemma_empty_composition(c: Seq<int>)
    requires
        non_negative(c),
        total(c) <= 0,
    ensures
        forall|i: int| 0 <= i < c.len() ==> c[i] == 0,
{
    assert forall|i: int| 0 <= i < c.len() implies c[i] == 0 by {
        lemma_count_le_total(c, i);
    }
}

/// Lower and upper bound of a sum over two draws whose continuations lie
/// in `0..=k`.
pub proof fn lemma_two_card_sum_bound(c: Seq<int>, g: spec_fn(int, int) -> int, k: int)
    requires
        non_negative(c),
        0 <= k,
        forall|a: int, b: int|
            0 <= a < c.len() && 0 <= b < c.len() && can_draw_two(c, a, b) ==> 0 <= #[trigger] g(
                a,
                b,
            ) <= k,
    ensures
        0 <= two_card_sum(c, g) <= k * (total(c) * (total(c) - 1)),
{
    let n = c.len() as int;
    let t = total(c);
    if t <= 0 {
        lemma_empty_composition(c);
        lemma_draw_sum_bound(c, first_draw(c, g), 0, n);
        lemma_prefix_sum_monotone(c, 0, n);
        assert(t == 0);
        assert(k * (t * (t - 1)) == 0) by (nonlinear_arith)
            requires
                t == 0,
        ;
    } else {
        let k1 = k * (t - 1);
        assert(0 <= k1 && k1 * t == k * (t * (t - 1))) by (nonlinear_arith)
            requires
                k1 == k * (t - 1),
                0 <= k,
                t >= 1,
        ;
        assert forall|a: int| 0 <= a < n && c[a] > 0 implies 0 <= #[trigger] first_draw(c, g)(a)
            <= k1 by {
            lemma_take_total(c, a);
            lemma_take_non_negative(c, a);
            assert forall|b: int| 0 <= b < n && take(c, a)[b] > 0 implies 0
                <= #[trigger] second_draw(g, a)(b) <= k by {
                assert(can_draw_two(c, a, b));
                assert(second_draw(g, a)(b) == g(a, b));
            }
            lemma_draw_sum_bound(take(c, a), second_draw(g, a), k, n);
        }
        lemma_draw_sum_bound(c, first_draw(c, g), k1, n);
    }
}

/// Three continuations that always add up to `k` give sums over two draws
/// that add up to `k` times the ordered ways to draw two cards.
pub proof fn lemma_two_card_sum_three(
    c: Seq<int>,
    g1: spec_fn(int, int) -> int,
    g2: spec_fn(int, int) -> int,
    g3: spec_fn(int, int) -> int,
    k: int,
)
    requires
        non_negative(c),
        forall|a: int, b: int|
            0 <= a < c.len() && 0 <= b < c.len() && can_draw_two(c, a, b) ==> #[trigger] g1(a, b)
                + g2(a, b) + g3(a, b) == k,
    ensures
        two_card_sum(c, g1) + two_card_sum(c, g2) + two_card_sum(c, g3) == k * (total(c) * (
            total(c) - 1)),
{
    let n = c.len() as int;
    let t = total(c);
    let k1 = k * (t - 1);
    assert(k1 * t == k * (t * (t - 1))) by (nonlinear_arith)
        requires
            k1 == k * (t - 1),
    ;
    assert forall|a: int| 0 <= a < n && c[a] > 0 implies #[trigger] first_draw(c, g1)(a)
        + first_draw(c, g2)(a) + first_draw(c, g3)(a) == k1 by {
        lemma_take_total(c, a);
        lemma_take_non_negative(c, a);
        assert forall|b: int| 0 <= b < n && take(c, a)[b] > 0 implies #[trigger] second_draw(
            g1,
            a,
        )(b) + second_draw(g2, a)(b) + second_draw(g3, a)(b) == k by {
            assert(can_draw_two(c, a, b));
            assert(g1(a, b) + g2(a, b) + g3(a, b) == k);
        }
        lemma_draw_sum_three(
            take(c, a),
            second_draw(g1, a),
            second_draw(g2, a),
            second_draw(g3, a),
            k,
            n,
        );
    }
    lemma_draw_sum_three(c, first_draw(c, g1), first_draw(c, g2), first_draw(c, g3), k1, n);
}

/// The continuations of a family after the first card `a`.
pub open spec fn second_draws(gs: spec_fn(int) -> spec_fn(int, int) -> int, a: int) -> spec_fn(
    int,
) -> spec_fn(int) -> int {
    |j: int| second_draw(gs(j), a)
}

/// The continuations of a family before the first card.
pub open spec fn first_draws(c: Seq<int>, gs: spec_fn(int) -> spec_fn(int, int) -> int) -> spec_fn(
    int,
) -> spec_fn(int) -> int {
    |j: int| first_draw(c, gs(j))
}

/// Eight continuations that never add up to more than `k` give sums over
/// two draws that add up to at most `k` times the ordered ways to draw two
/// cards.
pub proof fn lemma_two_card_sum_eight(
    c: Seq<int>,
    gs: spec_fn(int) -> spec_fn(int, int) -> int,
    k: int,
)
    requires
        non_negative(c),
        0 <= k,
        forall|a: int, b: int|
            0 <= a < c.len() && 0 <= b < c.len() && can_draw_two(c, a, b) ==> #[trigger] gs(0)(
                a,
                b,
            ) + gs(1)(a, b) + gs(2)(a, b) + gs(3)(a, b) + gs(4)(a, b) + gs(5)(a, b) + gs(6)(a, b)
                + gs(7)(a, b) <= k,
    ensures
        two_card_sum(c, gs(0)) + two_card_sum(c, gs(1)) + two_card_sum(c, gs(2)) + two_card_sum(
            c,
            gs(3),
        ) + two_card_sum(c, gs(4)) + two_card_sum(c, gs(5)) + two_card_sum(c, gs(6))
            + two_card_sum(c, gs(7)) <= k * (total(c) * (total(c) - 1)),
{
    let n = c.len() as int;
    let t = total(c);
    let fs = first_draws(c, gs);
    if t <= 0 {
        lemma_empty_composition(c);
        lemma_draw_sum_eight(c, fs, 0, n);
        lemma_prefix_sum_monotone(c, 0, n);
        assert(k * (t * (t - 1)) == 0) by (nonlinear_arith)
            requires
                t == 0,
        ;
    } else {
        let k1 = k * (t - 1);
        assert(k1 * t == k * (t * (t - 1))) by (nonlinear_arith)
            requires
                k1 == k * (t - 1),
        ;
        assert forall|a: int| 0 <= a < n && c[a] > 0 implies #[trigger] fs(0)(a) + fs(1)(a) + fs(
            2,
        )(a) + fs(3)(a) + fs(4)(a) + fs(5)(a) + fs(6)(a) + fs(7)(a) <= k1 by {
            lemma_take_total(c, a);
            lemma_take_non_negative(c, a);
            let ss = second_draws(gs, a);
            assert forall|b: int| 0 <= b < n && take(c, a)[b] > 0 implies #[trigger] ss(0)(b)
                + ss(1)(b) + ss(2)(b) + ss(3)(b) + ss(4)(b) + ss(5)(b) + ss(6)(b) + ss(7)(b)
                <= k by {
                assert(can_draw_two(c, a, b));
                assert(gs(0)(a, b) + gs(1)(a, b) + gs(2)(a, b) + gs(3)(a, b) + gs(4)(a, b) + gs(
                    5,
                )(a, b) + gs(6)(a, b) + gs(7)(a, b) <= k);
            }
            lemma_draw_sum_eight(take(c, a), ss, k, n);
        }
        lemma_draw_sum_eight(c, fs, k1, n);
    }
}

/// A pair that can be drawn in some order can be drawn in the given one.
pub proof fn lemma_pair_ways_positive(c: Seq<int>, a: int, b: int)
    requires
        0 <= a < c.len(),
        0 <= b < c.len(),
        non_negative(c),
    ensures
        pair_ways(c, a, b) >= 0,
        pair_ways(c, a, b) > 0 <==> can_draw_two(c, a, b),
{
    let (x, y) = (c[a], c[b]);
    if a == b {
        assert(x * (x - 1) >= 0 && (x * (x - 1) > 0 <==> x > 1)) by (nonlinear_arith)
            requires
                x >= 0,
        ;
    } else {
        assert(take(c, a)[b] == y);
        assert(x * y >= 0 && (x * y > 0 <==> (x > 0 && y > 0))) by (nonlinear_arith)
            requires
                x >= 0,
                y >= 0,
        ;
    }
}

/// The continuations of the pairs that can be drawn are not negative.
pub open spec fn pairs_non_negative(c: Seq<int>, g: spec_fn(int, int) -> int) -> bool {
    forall|a: int, b: int|
        0 <= a < c.len() && 0 <= b < c.len() && can_draw_two(c, a, b) ==> 0 <= #[trigger] g(a, b)
}

pub proof fn lemma_pair_term_non_negative(
    c: Seq<int>,
    g: spec_fn(int, int) -> int,
    a: int,
    b: int,
)
    requires
        0 <= a < c.len(),
        0 <= b < c.len(),
        non_negative(c),
        pairs_non_negative(c, g),
    ensures
        0 <= pair_term(c, g, a, b),
{
    lemma_pair_ways_positive(c, a, b);
    if pair_ways(c, a, b) > 0 {
        let (x, y) = (pair_ways(c, a, b), g(a, b));
        assert(0 <= x * y) by (nonlinear_arith)
            requires
                0 < x,
                0 <= y,
        ;
    }
}

pub proof fn lemma_pair_row_monotone(
    c: Seq<int>,
    g: spec_fn(int, int) -> int,
    a: int,
    m1: int,
    m2: int,
)
    requires
        0 <= a < c.len(),
        0 <= m1 <= m2 <= c.len(),
        non_negative(c),
        pairs_non_negative(c, g),
    ensures
        0 <= pair_row(c, g, a, m1) <= pair_row(c, g, a, m2),
    decreases m2,
{
    if m1 < m2 {
        lemma_pair_row_monotone(c, g, a, m1, m2 - 1);
        lemma_pair_term_non_negative(c, g, a, m2 - 1);
    } else if m1 > 0 {
        lemma_pair_row_monotone(c, g, a, m1 - 1, m1 - 1);
        lemma_pair_term_non_negative(c, g, a, m1 - 1);
    }
}

pub proof fn lemma_pair_sum_monotone(c: Seq<int>, g: spec_fn(int, int) -> int, n1: int, n2: int)
    requires
        0 <= n1 <= n2 <= c.len(),
        non_negative(c),
        pairs_non_negative(c, g),
    ensures
        0 <= pair_sum(c, g, n1) <= pair_sum(c, g, n2),
    decreases n2,
{
    if n1 < n2 {
        lemma_pair_sum_monotone(c, g, n1, n2 - 1);
        lemma_pair_row_monotone(c, g, n2 - 1, 0, n2);
    } else if n1 > 0 {
        lemma_pair_sum_monotone(c, g, n1 - 1, n1 - 1);
        lemma_pair_row_monotone(c, g, n1 - 1, 0, n1);
    }
}

/// A sum over pairs that has got as far as the pair `{a, b}` is at most the
/// whole sum.
pub proof fn lemma_pair_sum_partial(c: Seq<int>, g: spec_fn(int, int) -> int, a: int, b: int)
    requires
        0 <= a < c.len(),
        0 <= b <= a + 1,
        non_negative(c),
        pairs_non_negative(c, g),
    ensures
        0 <= pair_sum(c, g, a),
        0 <= pair_row(c, g, a, b),
        pair_sum(c, g, a) + pair_row(c, g, a, b) <= pair_sum(c, g, c.len() as int),
{
    lemma_pair_sum_monotone(c, g, a, a);
    lemma_pair_row_monotone(c, g, a, b, a + 1);
    lemma_pair_sum_monotone(c, g, a + 1, c.len() as int);
}


/// Where no card of class `a` is left, no pair holds it.
pub proof fn lemma_pair_row_empty(c: Seq<int>, g: spec_fn(int, int) -> int, a: int, m: int)
    requires
        0 <= a < c.len(),
        0 <= m <= c.len(),
        non_negative(c),
        c[a] == 0,
    ensures
        pair_row(c, g, a, m) == 0,
    decreases m,
{
    if m > 0 {
        lemma_pair_row_empty(c, g, a, m - 1);
        lemma_pair_ways_positive(c, a, m - 1);
    }
}


/// A continuation that is the sum of two others gives the sum of their draw
/// sums.
pub proof fn lemma_draw_sum_add(
    c: Seq<int>,
    g1: spec_fn(int) -> int,
    g2: spec_fn(int) -> int,
    h: spec_fn(int) -> int,
    n: int,
)
    requires
        0 <= n <= c.len(),
        forall|v: int| 0 <= v < n && c[v] > 0 ==> #[trigger] h(v) == g1(v) + g2(v),
    ensures
        draw_sum(c, h, n) == draw_sum(c, g1, n) + draw_sum(c, g2, n),
    decreases n,
{
    if n > 0 {
        lemma_draw_sum_add(c, g1, g2, h, n - 1);
        let v = n - 1;
        if c[v] > 0 {
            let (x, a, b) = (c[v], g1(v), g2(v));
            assert(x * (a + b) == x * a + x * b) by (nonlinear_arith);
        }
    }
}

/// A continuation of two cards that is the sum of two others gives the sum
/// of their sums over two draws.
pub proof fn lemma_two_card_sum_add(
    c: Seq<int>,
    g1: spec_fn(int, int) -> int,
    g2: spec_fn(int, int) -> int,
    h: spec_fn(int, int) -> int,
)
    requires
        forall|a: int, b: int|
            0 <= a < c.len() && 0 <= b < c.len() && can_draw_two(c, a, b) ==> #[trigger] h(a, b)
                == g1(a, b) + g2(a, b),
    ensures
        two_card_sum(c, h) == two_card_sum(c, g1) + two_card_sum(c, g2),
{
    let n = c.len() as int;
    assert forall|a: int| 0 <= a < n && c[a] > 0 implies #[trigger] first_draw(c, h)(a)
        == first_draw(c, g1)(a) + first_draw(c, g2)(a) by {
        assert forall|b: int| 0 <= b < n && take(c, a)[b] > 0 implies #[trigger] second_draw(
            h,
            a,
        )(b) == second_draw(g1, a)(b) + second_draw(g2, a)(b) by {
            assert(can_draw_two(c, a, b));
            assert(h(a, b) == g1(a, b) + g2(a, b));
        }
        lemma_draw_sum_add(take(c, a), second_draw(g1, a), second_draw(g2, a), second_draw(h, a), n);
    }
    lemma_draw_sum_add(c, first_draw(c, g1), first_draw(c, g2), first_draw(c, h), n);
}

/// A continuation that is zero but after the class `a` gives the one term
/// of that class.
pub proof fn lemma_draw_sum_one_term(c: Seq<int>, g: spec_fn(int) -> int, a: int, n: int)
    requires
        0 <= n <= c.len(),
        forall|v: int| 0 <= v < n && v != a ==> #[trigger] g(v) == 0,
    ensures
        draw_sum(c, g, n) == if 0 <= a < n && c[a] > 0 {
            c[a] * g(a)
        } else {
            0
        },
    decreases n,
{
    if n > 0 {
        lemma_draw_sum_one_term(c, g, a, n - 1);
        let v = n - 1;
        if v != a {
            assert(g(v) == 0);
            assert(c[v] * 0 == 0);
        }
    }
}

} // verus!
