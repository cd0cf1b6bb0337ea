//! The composition of a shoe: how many of each card, of each rank and of
//! each point value are left.

use vstd::prelude::*;
use crate::calculation::sums::{
    counts, lemma_count_le_total, lemma_prefix_sum_monotone, lemma_prefix_sum_update, non_negative,
    prefix_sum, total,
};
use crate::card::{point_value_of_rank, Card};

verus! {

/// The most decks that a counter can be made for: the cards of more would
/// not be counted in 32 bits.
pub const MAX_DECKS: u32 = 82_595_524;

/// The cards of rank `r` among the first `n` cards of the deck order, one
/// count per suit.
pub open spec fn rank_total_below(cards: Seq<int>, r: int, n: int) -> int {
    (if r < n {
        cards[r]
    } else {
        0
    }) + (if r + 13 < n {
        cards[r + 13]
    } else {
        0
    }) + (if r + 26 < n {
        cards[r + 26]
    } else {
        0
    }) + (if r + 39 < n {
        cards[r + 39]
    } else {
        0
    })
}

/// The cards of rank `r`: the sum of its four suits.
pub open spec fn rank_total(cards: Seq<int>, r: int) -> int {
    rank_total_below(cards, r, 52)
}

/// The cards of point value `v`: those of the rank `v`, and for zero those
/// of the ten, the jack, the queen and the king.
pub open spec fn value_total(ranks: Seq<int>, v: int) -> int {
    if v == 0 {
        ranks[9] + ranks[10] + ranks[11] + ranks[12]
    } else {
        ranks[v - 1]
    }
}

/// The three counts of a composition agree: each rank holds the cards of its
/// four suits, each point value those of its ranks, and all three hold
/// `count` cards.
pub open spec fn consistent(cards: Seq<int>, ranks: Seq<int>, values: Seq<int>, count: int) -> bool {
    &&& cards.len() == 52
    &&& ranks.len() == 13
    &&& values.len() == 10
    &&& non_negative(cards)
    &&& non_negative(ranks)
    &&& non_negative(values)
    &&& forall|r: int| 0 <= r < 13 ==> #[trigger] ranks[r] == rank_total(cards, r)
    &&& forall|v: int| 0 <= v < 10 ==> #[trigger] values[v] == value_total(ranks, v)
    &&& count == total(cards)
    &&& count == total(ranks)
    &&& count == total(values)
}

/// Why a list of card counts is no composition.
#[derive(Debug, Clone, Copy, PartialEq, Eq, Structural)]
pub enum CompositionError {
    /// The list does not hold 52 counts.
    WrongLength,
    /// The counts add up to more cards than 32 bits count.
    TooManyCards,
}

/// What `try_with_card_count` answers on a list of counts.
pub open spec fn composition_of(card_count: Seq<u32>) -> Result<Seq<int>, CompositionError> {
    if card_count.len() != 52 {
        Err(CompositionError::WrongLength)
    } else if total(counts(card_count)) > u32::MAX {
        Err(CompositionError::TooManyCards)
    } else {
        Ok(counts(card_count))
    }
}

/// The cards that are left in a shoe, counted three ways.
#[derive(Debug, Clone, Copy)]
pub struct Counter {
    total: u32,
    bcr_value_count: [u32; 10],
    value_count: [u32; 13],
    card_count: [u32; 52],
}

pub proof fn lemma_total_of_equal_counts(s: Seq<int>, x: int, n: int)
    requires
        0 <= n <= s.len(),
        forall|i: int| 0 <= i < n ==> s[i] == x,
    ensures
        prefix_sum(s, n) == n * x,
    decreases n,
{
    if n > 0 {
        lemma_total_of_equal_counts(s, x, n - 1);
        assert(n * x == (n - 1) * x + x) by (nonlinear_arith);
    } else {
        assert(0 * x == 0);
    }
}

impl Counter {
    /// The count of each of the 52 cards, in deck order.
    pub closed spec fn cards(&self) -> Seq<int> {
        counts(self.card_count@)
    }

    /// The count of each of the 13 ranks, from the ace.
    pub closed spec fn ranks(&self) -> Seq<int> {
        counts(self.value_count@)
    }

    /// The count of each of the 10 point values, from zero.
    pub closed spec fn values(&self) -> Seq<int> {
        counts(self.bcr_value_count@)
    }

    /// The number of cards.
    pub closed spec fn count(&self) -> int {
        self.total as int
    }

    /// The three counts agree. This holds of every counter.
    pub open spec fn wf(&self) -> bool {
        consistent(self.cards(), self.ranks(), self.values(), self.count())
    }

    #[verifier::type_invariant]
    spec fn inv(&self) -> bool {
        self.wf()
    }

    /// The composition of `number_of_decks` full decks.
    pub fn new(number_of_decks: u32) -> (counter: Counter)
        requires
            number_of_decks <= MAX_DECKS,
        ensures
            counter.wf(),
            counter.count() == 52 * number_of_decks,
            forall|i: int| 0 <= i < 52 ==> #[trigger] counter.cards()[i] == number_of_decks,
            forall|r: int| 0 <= r < 13 ==> #[trigger] counter.ranks()[r] == 4 * number_of_decks,
            forall|v: int|
                1 <= v < 10 ==> #[trigger] counter.values()[v] == 4 * number_of_decks,
            counter.values()[0] == 16 * number_of_decks,
    {
        let mut bcr_value_count: [u32; 10] = [4 * number_of_decks;10];
        proof {
            let d = number_of_decks as int;
            lemma_total_of_equal_counts(counts(bcr_value_count@), 4 * d, 10);
            lemma_prefix_sum_update(counts(bcr_value_count@), 0, 16 * d, 10);
        }
        let ghost plain = counts(bcr_value_count@);
        bcr_value_count[0] = 16 * number_of_decks;
        let value_count: [u32; 13] = [4 * number_of_decks;13];
        let card_count: [u32; 52] = [number_of_decks;52];
        proof {
            let d = number_of_decks as int;
            assert(counts(bcr_value_count@) =~= plain.update(0, 16 * d));
            lemma_total_of_equal_counts(counts(card_count@), d, 52);
            lemma_total_of_equal_counts(counts(value_count@), 4 * d, 13);
        }
        Counter { total: 52 * number_of_decks, bcr_value_count, value_count, card_count }
    }

    /// The composition with the given count of each card, in deck order.
    pub fn with_card_count(card_count: &[u32; 52]) -> (counter: Counter)
        requires
            total(counts(card_count@)) <= u32::MAX,
        ensures
            counter.wf(),
            counter.cards() == counts(card_count@),
    {
        let ghost c = counts(card_count@);
        let mut sum: u32 = 0;
        let mut bcr_value_count: [u32; 10] = [0u32;10];
        let mut value_count: [u32; 13] = [0u32;13];
        proof {
            lemma_total_of_equal_counts(counts(bcr_value_count@), 0, 10);
            lemma_total_of_equal_counts(counts(value_count@), 0, 13);
        }
        let mut i: usize = 0;
        while i < 52
            invariant
                i <= 52,
                c == counts(card_count@),
                total(c) <= u32::MAX,
                sum == prefix_sum(c, i as int),
                prefix_sum(counts(value_count@), 13) == sum,
                prefix_sum(counts(bcr_value_count@), 10) == sum,
                forall|r: int|
                    0 <= r < 13 ==> #[trigger] counts(value_count@)[r] == rank_total_below(
                        c,
                        r,
                        i as int,
                    ),
                forall|v: int|
                    0 <= v < 10 ==> #[trigger] counts(bcr_value_count@)[v] == value_total(
                        counts(value_count@),
                        v,
                    ),
            decreases 52 - i,
        {
            let value: u32 = card_count[i];
            let rem: usize = i % 13;
            let point: usize = if rem + 1 >= 10 {
                0
            } else {
                rem + 1
            };
            let ghost ranks = counts(value_count@);
            let ghost values = counts(bcr_value_count@);
            proof {
                lemma_prefix_sum_monotone(c, i + 1, 52);
                lemma_count_le_total(ranks, rem as int);
                lemma_count_le_total(values, point as int);
                lemma_prefix_sum_update(ranks, rem as int, ranks[rem as int] + value, 13);
                lemma_prefix_sum_update(values, point as int, values[point as int] + value, 10);
            }
            sum = sum + value;
            value_count[rem] = value_count[rem] + value;
            bcr_value_count[point] = bcr_value_count[point] + value;
            proof {
                assert(counts(value_count@) =~= ranks.update(rem as int, ranks[rem as int] + value));
                assert(counts(bcr_value_count@) =~= values.update(
                    point as int,
                    values[point as int] + value,
                ));
                assert(c[i as int] == value);
            }
            i += 1;
        }
        Counter { total: sum, bcr_value_count, value_count, card_count: *card_count }
    }

    /// The composition with the given count of each card, in deck order,
    /// where the list holds 52 counts of no more cards than 32 bits count.
    pub fn try_with_card_count(card_count: &[u32]) -> (r: Result<Counter, CompositionError>)
        ensures
            match r {
                Ok(counter) => counter.wf() && composition_of(card_count@) == Ok::<
                    Seq<int>,
                    CompositionError,
                >(counter.cards()),
                Err(e) => composition_of(card_count@) == Err::<Seq<int>, CompositionError>(e),
            },
    {
        if card_count.len() != 52 {
            return Err(CompositionError::WrongLength);
        }
        let ghost c = counts(card_count@);
        let mut cards: [u32; 52] = [0u32;52];
        let mut sum: u64 = 0;
        let mut i: usize = 0;
        while i < 52
            invariant
                i <= 52,
                card_count@.len() == 52,
                c == counts(card_count@),
                sum == prefix_sum(c, i as int),
                sum <= i * 0xffff_ffff,
                forall|k: int| 0 <= k < i ==> #[trigger] cards@[k] == card_count@[k],
            decreases 52 - i,
        {
            assert(c[i as int] == card_count@[i as int]);
            sum = sum + card_count[i] as u64;
            cards[i] = card_count[i];
            i += 1;
        }
        if sum > u32::MAX as u64 {
            return Err(CompositionError::TooManyCards);
        }
        assert(cards@ =~= card_count@);
        Ok(Counter::with_card_count(&cards))
    }

    /// Puts one card back.
    pub fn add_card(&mut self, card: Card)
        requires
            card.valid(),
            old(self).count() < u32::MAX,
        ensures
            final(self).wf(),
            final(self).count() == old(self).count() + 1,
            final(self).cards() == old(self).cards().update(
                card.card_index(),
                old(self).cards()[card.card_index()] + 1,
            ),
            final(self).ranks() == old(self).ranks().update(
                card.rank_index(),
                old(self).ranks()[card.rank_index()] + 1,
            ),
            final(self).values() == old(self).values().update(
                card.point_value(),
                old(self).values()[card.point_value()] + 1,
            ),
    {
        proof {
            use_type_invariant(&*self);
        }
        let point: usize = card.to_bcr_value_index();
        let rank: usize = card.to_value_index();
        let index: usize = card.to_index();
        let mut bcr_value_count = self.bcr_value_count;
        let mut value_count = self.value_count;
        let mut card_count = self.card_count;
        let ghost cards = counts(card_count@);
        let ghost ranks = counts(value_count@);
        let ghost values = counts(bcr_value_count@);
        proof {
            lemma_count_le_total(cards, index as int);
            lemma_count_le_total(ranks, rank as int);
            lemma_count_le_total(values, point as int);
            lemma_prefix_sum_update(cards, index as int, cards[index as int] + 1, 52);
            lemma_prefix_sum_update(ranks, rank as int, ranks[rank as int] + 1, 13);
            lemma_prefix_sum_update(values, point as int, values[point as int] + 1, 10);
        }
        bcr_value_count[point] = bcr_value_count[point] + 1;
        value_count[rank] = value_count[rank] + 1;
        card_count[index] = card_count[index] + 1;
        proof {
            assert(counts(card_count@) =~= cards.update(index as int, cards[index as int] + 1));
            assert(counts(value_count@) =~= ranks.update(rank as int, ranks[rank as int] + 1));
            assert(counts(bcr_value_count@) =~= values.update(
                point as int,
                values[point as int] + 1,
            ));
        }
        *self = Counter { total: self.total + 1, bcr_value_count, value_count, card_count };
    }

    /// Takes one card out. The card must be there.
    pub fn remove_card(&mut self, card: Card)
        requires
            card.valid(),
            old(self).cards()[card.card_index()] > 0,
        ensures
            final(self).wf(),
            final(self).count() == old(self).count() - 1,
            final(self).cards() == old(self).cards().update(
                card.card_index(),
                old(self).cards()[card.card_index()] - 1,
            ),
            final(self).ranks() == old(self).ranks().update(
                card.rank_index(),
                old(self).ranks()[card.rank_index()] - 1,
            ),
            final(self).values() == old(self).values().update(
                card.point_value(),
                old(self).values()[card.point_value()] - 1,
            ),
    {
        proof {
            use_type_invariant(&*self);
        }
        let point: usize = card.to_bcr_value_index();
        let rank: usize = card.to_value_index();
        let index: usize = card.to_index();
        let mut bcr_value_count = self.bcr_value_count;
        let mut value_count = self.value_count;
        let mut card_count = self.card_count;
        let ghost cards = counts(card_count@);
        let ghost ranks = counts(value_count@);
        let ghost values = counts(bcr_value_count@);
        proof {
            lemma_count_le_total(cards, index as int);
            assert(ranks[rank as int] == rank_total(cards, rank as int));
            assert(values[point as int] == value_total(ranks, point as int));
            lemma_prefix_sum_update(cards, index as int, cards[index as int] - 1, 52);
            lemma_prefix_sum_update(ranks, rank as int, ranks[rank as int] - 1, 13);
            lemma_prefix_sum_update(values, point as int, values[point as int] - 1, 10);
        }
        bcr_value_count[point] = bcr_value_count[point] - 1;
        value_count[rank] = value_count[rank] - 1;
        card_count[index] = card_count[index] - 1;
        proof {
            assert(counts(card_count@) =~= cards.update(index as int, cards[index as int] - 1));
            assert(counts(value_count@) =~= ranks.update(rank as int, ranks[rank as int] - 1));
            assert(counts(bcr_value_count@) =~= values.update(
                point as int,
                values[point as int] - 1,
            ));
        }
        *self = Counter { total: self.total - 1, bcr_value_count, value_count, card_count };
    }

    /// The number of cards.
    pub fn get_total(&self) -> (count: u32)
        ensures
            count == self.count(),
            self.wf(),
    {
        proof {
            use_type_invariant(self);
        }
        self.total
    }

    /// The count of each point value, from zero to nine.
    pub fn get_bcr_value_count(&self) -> (values: &[u32; 10])
        ensures
            counts(values@) == self.values(),
            self.wf(),
    {
        proof {
            use_type_invariant(self);
        }
        &self.bcr_value_count
    }

    /// The count of each rank, from ace to king.
    pub fn get_value_count(&self) -> (ranks: &[u32; 13])
        ensures
            counts(ranks@) == self.ranks(),
            self.wf(),
    {
        proof {
            use_type_invariant(self);
        }
        &self.value_count
    }

    /// The count of each card, in deck order.
    pub fn get_card_count(&self) -> (cards: &[u32; 52])
        ensures
            counts(cards@) == self.cards(),
            self.wf(),
    {
        proof {
            use_type_invariant(self);
        }
        &self.card_count
    }
}

} // verus!
