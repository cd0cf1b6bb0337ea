//! Playing cards: suits, ranks and the indices under which a shoe counts them.

use rand::seq::SliceRandom;
use vstd::prelude::*;
use crate::calculation::counter::{Counter, MAX_DECKS};
use crate::calculation::sums::{counts, lemma_prefix_sum_update, prefix_sum, total};
use crate::PAYOUT_SCALE;

verus! {

/// The four suits, in the order in which a deck is laid out.
#[derive(Debug, Clone, Copy, PartialEq, Eq, Structural)]
pub enum Suit {
    Diamond,
    Club,
    Heart,
    Spade,
}

impl Suit {
    /// Position of the suit in the deck order.
    pub open spec fn position(self) -> int {
        match self {
            Suit::Diamond => 0,
            Suit::Club => 1,
            Suit::Heart => 2,
            Suit::Spade => 3,
        }
    }

    /// Position of the suit in the deck order.
    pub fn index(self) -> (i: usize)
        ensures
            i == self.position(),
            i < 4,
    {
        match self {
            Suit::Diamond => 0,
            Suit::Club => 1,
            Suit::Heart => 2,
            Suit::Spade => 3,
        }
    }

    /// The suit at a position of the deck order.
    pub fn from_index(index: usize) -> (suit: Suit)
        requires
            index < 4,
        ensures
            suit.position() == index,
    {
        if index == 0 {
            Suit::Diamond
        } else if index == 1 {
            Suit::Club
        } else if index == 2 {
            Suit::Heart
        } else {
            Suit::Spade
        }
    }
}

/// Point value of a rank given by its index (0 for the ace, 12 for the king):
/// the rank itself up to nine, and zero for tens and face cards.
pub open spec fn point_value_of_rank(rank_index: int) -> int {
    if rank_index + 1 >= 10 {
        0
    } else {
        rank_index + 1
    }
}

/// One card: its suit and its rank from 1 (ace) to 13 (king).
#[derive(Debug, Clone, Copy, PartialEq, Eq, Structural)]
pub struct Card {
    pub suit: Suit,
    pub value: u8,
}

impl Card {
    /// A card is valid when its rank lies between ace and king.
    pub open spec fn valid(&self) -> bool {
        1 <= self.value <= 13
    }

    /// Index of the rank, from 0 (ace) to 12 (king).
    pub open spec fn rank_index(&self) -> int {
        self.value - 1
    }

    /// Index of the card among the 52 cards of a deck: suits in deck order,
    /// ranks ascending within a suit.
    pub open spec fn card_index(&self) -> int {
        self.suit.position() * 13 + (self.value - 1)
    }

    /// What the card adds to a hand: the rank up to nine, zero from ten on.
    pub open spec fn point_value(&self) -> int {
        point_value_of_rank(self.rank_index())
    }

    pub fn new(suit: Suit, value: u8) -> (card: Card)
        ensures
            card.suit == suit,
            card.value == value,
    {
        Card { suit, value }
    }

    /// The card at a deck index below 52.
    pub fn from_index(index: usize) -> (card: Card)
        requires
            index < 52,
        ensures
            card.valid(),
            card.card_index() == index,
            card.suit.position() == index / 13,
            card.value == index % 13 + 1,
    {
        let suit = Suit::from_index(index / 13);
        let rank: usize = index % 13 + 1;
        Card { suit, value: rank as u8 }
    }

    /// Index of the card's rank, from 0 (ace) to 12 (king).
    pub fn to_value_index(&self) -> (i: usize)
        requires
            self.valid(),
        ensures
            i == self.rank_index(),
            i < 13,
    {
        (self.value - 1) as usize
    }

    /// Index of the card among the 52 cards of a deck.
    pub fn to_index(&self) -> (i: usize)
        requires
            self.valid(),
        ensures
            i == self.card_index(),
            i < 52,
            i % 13 == self.rank_index(),
            i / 13 == self.suit.position(),
    {
        self.suit.index() * 13 + (self.value - 1) as usize
    }

    /// Point value of the card, from 0 to 9: tens and face cards count zero.
    pub fn to_bcr_value_index(&self) -> (i: usize)
        requires
            self.valid(),
        ensures
            i == self.point_value(),
            i < 10,
    {
        if self.value >= 10 {
            0
        } else {
            self.value as usize
        }
    }
}

/// The letter of a suit.
pub open spec fn suit_letter(suit: Suit) -> char {
    match suit {
        Suit::Diamond => 'd',
        Suit::Club => 'c',
        Suit::Heart => 'h',
        Suit::Spade => 's',
    }
}

/// The letter of a rank: `A` for the ace, the digit up to nine, then `T`,
/// `J`, `Q` and `K`.
pub open spec fn rank_letter(value: u8) -> char {
    if value == 1 {
        'A'
    } else if value == 2 {
        '2'
    } else if value == 3 {
        '3'
    } else if value == 4 {
        '4'
    } else if value == 5 {
        '5'
    } else if value == 6 {
        '6'
    } else if value == 7 {
        '7'
    } else if value == 8 {
        '8'
    } else if value == 9 {
        '9'
    } else if value == 10 {
        'T'
    } else if value == 11 {
        'J'
    } else if value == 12 {
        'Q'
    } else {
        'K'
    }
}

impl Card {
    /// The two letters that a card is written with: that of its suit and
    /// that of its rank.
    pub fn letters(&self) -> (letters: (char, char))
        requires
            self.valid(),
        ensures
            letters.0 == suit_letter(self.suit),
            letters.1 == rank_letter(self.value),
    {
        let suit = match self.suit {
            Suit::Diamond => 'd',
            Suit::Club => 'c',
            Suit::Heart => 'h',
            Suit::Spade => 's',
        };
        let v = self.value;
        let value = if v == 1 {
            'A'
        } else if v == 2 {
            '2'
        } else if v == 3 {
            '3'
        } else if v == 4 {
            '4'
        } else if v == 5 {
            '5'
        } else if v == 6 {
            '6'
        } else if v == 7 {
            '7'
        } else if v == 8 {
            '8'
        } else if v == 9 {
            '9'
        } else if v == 10 {
            'T'
        } else if v == 11 {
            'J'
        } else if v == 12 {
            'Q'
        } else {
            'K'
        };
        (suit, value)
    }
}

/// A deck index and the card at it determine one another.
pub proof fn lemma_card_index_is_injective(a: Card, b: Card)
    requires
        a.valid(),
        b.valid(),
        a.card_index() == b.card_index(),
    ensures
        a == b,
{
}


/// The place of the cut card in a shoe of `decks` decks: the whole cards in
/// `proportion` parts in `PAYOUT_SCALE` of the shoe.
pub open spec fn cut_card_place(decks: int, proportion: int) -> int {
    (52 * decks * proportion) / (PAYOUT_SCALE as int)
}

/// A shoe: the cards of some decks in the order in which they are dealt,
/// and the count of those that have not been dealt yet.
#[derive(Debug, Clone)]
pub struct Shoe {
    number_of_decks: u32,
    cut_card_index: u64,
    cards: Vec<Card>,
    index: usize,
    counter: Counter,
}

/// Shuffles the cards from the place `from` on with
/// `rand::seq::SliceRandom::shuffle` and the generator of the thread. The
/// shuffle only swaps cards of that part: the cards before `from` stay
/// where they are, and the shoe holds the same cards as before. Nothing is
/// said of their order.
#[verifier::external_body]
fn shuffle_from(cards: &mut Vec<Card>, from: usize)
    requires
        from <= old(cards)@.len(),
    ensures
        final(cards)@.len() == old(cards)@.len(),
        final(cards)@.subrange(0, from as int) == old(cards)@.subrange(0, from as int),
        final(cards)@.to_multiset() == old(cards)@.to_multiset(),
{
    cards[from..].shuffle(&mut rand::thread_rng());
}

proof fn lemma_count_after_push(s: Seq<Card>, card: Card, c: Card)
    ensures
        s.push(card).to_multiset().count(c) == s.to_multiset().count(c) + if c == card {
            1int
        } else {
            0int
        },
{
    broadcast use vstd::seq_lib::group_to_multiset_ensures;
    broadcast use vstd::multiset::group_multiset_axioms;

}

proof fn lemma_count_of_prefix(s: Seq<Card>, n: int, c: Card)
    requires
        0 <= n <= s.len(),
    ensures
        s.subrange(0, n).to_multiset().count(c) <= s.to_multiset().count(c),
{
    broadcast use vstd::multiset::group_multiset_axioms;

    let rest = s.subrange(n, s.len() as int);
    vstd::seq_lib::lemma_multiset_commutative(s.subrange(0, n), rest);
    assert(s.subrange(0, n) + rest =~= s);
}

proof fn lemma_count_after_first(s: Seq<Card>, from: int, c: Card)
    requires
        0 <= from < s.len(),
    ensures
        s.subrange(from, s.len() as int).to_multiset().count(c) == s.subrange(
            from + 1,
            s.len() as int,
        ).to_multiset().count(c) + if c == s[from] {
            1int
        } else {
            0int
        },
{
    broadcast use vstd::multiset::group_multiset_axioms;

    let head = s.subrange(from, from + 1);
    let rest = s.subrange(from + 1, s.len() as int);
    vstd::seq_lib::lemma_multiset_commutative(head, rest);
    assert(head + rest =~= s.subrange(from, s.len() as int));
    assert(head =~= Seq::<Card>::empty().push(s[from]));
    lemma_count_after_push(Seq::<Card>::empty(), s[from], c);
    assert(Seq::<Card>::empty().to_multiset().count(c) == 0) by {
        broadcast use vstd::seq_lib::group_to_multiset_ensures;

        assert(!Seq::<Card>::empty().contains(c));
    }
}

impl Shoe {
    /// The cards of the shoe in the order in which they are dealt.
    pub closed spec fn cards(&self) -> Seq<Card> {
        self.cards@
    }

    /// The number of cards that have been dealt.
    pub closed spec fn position(&self) -> int {
        self.index as int
    }

    /// The number of decks.
    pub closed spec fn decks(&self) -> int {
        self.number_of_decks as int
    }

    /// The number of cards to deal before the cut card comes.
    pub closed spec fn cut_card(&self) -> int {
        self.cut_card_index as int
    }

    /// The count of the cards that have not been dealt.
    pub closed spec fn counter(&self) -> Counter {
        self.counter
    }

    /// The cards that have not been dealt.
    pub open spec fn remaining(&self) -> Seq<Card> {
        self.cards().subrange(self.position(), self.cards().len() as int)
    }

    /// The shoe holds each card once for every deck, and its counter counts
    /// the cards that have not been dealt.
    pub open spec fn wf(&self) -> bool {
        &&& self.decks() <= MAX_DECKS
        &&& self.cards().len() == 52 * self.decks()
        &&& 0 <= self.position() <= self.cards().len()
        &&& forall|i: int| 0 <= i < self.cards().len() ==> (#[trigger] self.cards()[i]).valid()
        &&& forall|c: Card|
            c.valid() ==> #[trigger] self.cards().to_multiset().count(c) == self.decks()
        &&& self.counter().wf()
        &&& forall|c: Card|
            c.valid() ==> self.counter().cards()[c.card_index()]
                == #[trigger] self.remaining().to_multiset().count(c)
    }

    /// A shoe of full decks laid out deck by deck, each in deck order, with
    /// the cut card after `cut_card_proportion` parts in `PAYOUT_SCALE` of
    /// the cards.
    pub fn new(number_of_decks: u32, cut_card_proportion: u32) -> (shoe: Shoe)
        requires
            number_of_decks <= MAX_DECKS,
        ensures
            shoe.wf(),
            shoe.decks() == number_of_decks,
            shoe.position() == 0,
            shoe.cut_card() == cut_card_place(number_of_decks as int, cut_card_proportion as int),
            forall|i: int|
                0 <= i < shoe.cards().len() ==> (#[trigger] shoe.cards()[i]).card_index() == i
                    % 52,
    {
        let mut cards: Vec<Card> = Vec::new();
        let mut deck: u32 = 0;
        proof {
            assert forall|c: Card| #[trigger] cards@.to_multiset().count(c) == 0 by {
                broadcast use vstd::seq_lib::group_to_multiset_ensures;

                assert(!cards@.contains(c));
            }
        }
        while deck < number_of_decks
            invariant
                deck <= number_of_decks <= MAX_DECKS,
                cards@.len() == 52 * deck,
                forall|i: int|
                    0 <= i < cards@.len() ==> (#[trigger] cards@[i]).valid() && cards@[i].card_index()
                        == i % 52,
                forall|c: Card| c.valid() ==> #[trigger] cards@.to_multiset().count(c) == deck,
            decreases number_of_decks - deck,
        {
            let mut j: usize = 0;
            while j < 52
                invariant
                    j <= 52,
                    deck < number_of_decks <= MAX_DECKS,
                    cards@.len() == 52 * deck + j,
                    forall|i: int|
                        0 <= i < cards@.len() ==> (#[trigger] cards@[i]).valid()
                            && cards@[i].card_index() == i % 52,
                    forall|c: Card|
                        c.valid() ==> #[trigger] cards@.to_multiset().count(c) == deck + if c.card_index()
                            < j {
                            1int
                        } else {
                            0int
                        },
                decreases 52 - j,
            {
                let card = Card::from_index(j);
                let ghost before = cards@;
                cards.push(card);
                proof {
                    assert forall|c: Card| c.valid() implies #[trigger] cards@.to_multiset().count(
                        c,
                    ) == deck + if c.card_index() < j + 1 {
                        1int
                    } else {
                        0int
                    } by {
                        lemma_count_after_push(before, card, c);
                        if c.card_index() == j {
                            lemma_card_index_is_injective(c, card);
                        }
                    }
                }
                j += 1;
            }
            deck += 1;
        }
        let all: u64 = 52 * (number_of_decks as u64);
        assert(all * cut_card_proportion <= 0xffff_ffff * 0xffff_ffff) by (nonlinear_arith)
            requires
                0 <= all <= 0xffff_ffff,
                0 <= cut_card_proportion <= 0xffff_ffff,
        ;
        let cut_card_index: u64 = all * (cut_card_proportion as u64) / (PAYOUT_SCALE as u64);
        let shoe = Shoe {
            number_of_decks,
            cut_card_index,
            cards,
            index: 0,
            counter: Counter::new(number_of_decks),
        };
        proof {
            assert(shoe.remaining() =~= shoe.cards());
        }
        shoe
    }

    /// Starts the shoe over in the order that it has.
    pub fn retry_without_shuffle(&mut self)
        requires
            old(self).wf(),
        ensures
            final(self).wf(),
            final(self).position() == 0,
            final(self).cards() == old(self).cards(),
            final(self).decks() == old(self).decks(),
            final(self).cut_card() == old(self).cut_card(),
    {
        self.index = 0;
        self.counter = Counter::new(self.number_of_decks);
        proof {
            assert(self.remaining() =~= self.cards());
        }
    }

    /// Deals the next card. The shoe must not be at its end.
    pub fn deal_card(&mut self) -> (card: Card)
        requires
            old(self).wf(),
            old(self).position() < old(self).cards().len(),
        ensures
            final(self).wf(),
            card == old(self).cards()[old(self).position()],
            final(self).position() == old(self).position() + 1,
            final(self).cards() == old(self).cards(),
            final(self).decks() == old(self).decks(),
            final(self).cut_card() == old(self).cut_card(),
    {
        let card = self.cards[self.index];
        let ghost all = self.cards@;
        let ghost at = self.index as int;
        let ghost before = self.remaining();
        let ghost counted = self.counter.cards();
        proof {
            lemma_count_after_first(all, at, card);
            assert(card.valid());
            assert(counted[card.card_index()] == before.to_multiset().count(card));
        }
        self.index = self.index + 1;
        self.counter.remove_card(card);
        proof {
            assert(self.remaining() == all.subrange(at + 1, all.len() as int));
            assert forall|c: Card| c.valid() implies self.counter().cards()[c.card_index()]
                == #[trigger] self.remaining().to_multiset().count(c) by {
                lemma_count_after_first(all, at, c);
                assert(counted[c.card_index()] == before.to_multiset().count(c));
                if c.card_index() == card.card_index() {
                    lemma_card_index_is_injective(c, card);
                }
            }
        }
        card
    }

    /// Lays the shoe out anew: `firsts` come first, in their order, and the
    /// other cards follow, shuffled. No card may be among `firsts` more
    /// often than the shoe has decks.
    pub fn shuffle_with_firsts(&mut self, firsts: &[Card])
        requires
            old(self).wf(),
            forall|i: int| 0 <= i < firsts@.len() ==> (#[trigger] firsts@[i]).valid(),
            forall|c: Card|
                c.valid() ==> #[trigger] firsts@.to_multiset().count(c) <= old(self).decks(),
        ensures
            final(self).wf(),
            final(self).position() == 0,
            firsts@.len() <= final(self).cards().len(),
            final(self).cards().subrange(0, firsts@.len() as int) == firsts@,
            final(self).decks() == old(self).decks(),
            final(self).cut_card() == old(self).cut_card(),
    {
        let decks: u32 = self.number_of_decks;
        let mut cards: Vec<Card> = Vec::new();
        let mut card_count: [u32; 52] = [0u32;52];
        let n: usize = firsts.len();
        proof {
            assert forall|c: Card| #[trigger] cards@.to_multiset().count(c) == 0 by {
                broadcast use vstd::seq_lib::group_to_multiset_ensures;

                assert(!cards@.contains(c));
            }
            crate::calculation::counter::lemma_total_of_equal_counts(counts(card_count@), 0, 52);
        }
        let mut i: usize = 0;
        while i < n
            invariant
                i <= n,
                n == firsts@.len(),
                decks <= MAX_DECKS,
                cards@ == firsts@.subrange(0, i as int),
                forall|k: int| 0 <= k < firsts@.len() ==> (#[trigger] firsts@[k]).valid(),
                forall|c: Card| c.valid() ==> #[trigger] firsts@.to_multiset().count(c) <= decks,
                forall|c: Card|
                    c.valid() ==> card_count@[c.card_index()]
                        == #[trigger] cards@.to_multiset().count(c),
                forall|k: int| 0 <= k < 52 ==> #[trigger] card_count@[k] <= decks,
                prefix_sum(counts(card_count@), 52) == i,
            decreases n - i,
        {
            let card = firsts[i];
            let index = card.to_index();
            let ghost before = cards@;
            let ghost counted = counts(card_count@);
            proof {
                assert(card.valid());
                lemma_count_of_prefix(firsts@, i + 1, card);
                lemma_count_after_push(before, card, card);
                assert(firsts@.subrange(0, i + 1) =~= before.push(card));
                assert(card_count@[card.card_index()] == before.to_multiset().count(card));
                assert(firsts@.to_multiset().count(card) <= decks);
                lemma_prefix_sum_update(counted, index as int, counted[index as int] + 1, 52);
            }
            card_count[index] = card_count[index] + 1;
            cards.push(card);
            proof {
                assert(counts(card_count@) =~= counted.update(
                    index as int,
                    counted[index as int] + 1,
                ));
                assert forall|c: Card| c.valid() implies card_count@[c.card_index()]
                    == #[trigger] cards@.to_multiset().count(c) by {
                    lemma_count_after_push(before, card, c);
                    assert(counted[c.card_index()] == before.to_multiset().count(c));
                    if c.card_index() == card.card_index() {
                        lemma_card_index_is_injective(c, card);
                    }
                }
            }
            i += 1;
        }
        assert(cards@ =~= firsts@);
        let ghost cc = counts(card_count@);
        let mut j: usize = 0;
        while j < 52
            invariant
                j <= 52,
                n == firsts@.len(),
                decks <= MAX_DECKS,
                cc == counts(card_count@),
                total(cc) == n,
                n <= cards@.len(),
                cards@.subrange(0, n as int) == firsts@,
                forall|k: int| 0 <= k < cards@.len() ==> (#[trigger] cards@[k]).valid(),
                forall|k: int| 0 <= k < 52 ==> #[trigger] card_count@[k] <= decks,
                forall|c: Card|
                    c.valid() ==> #[trigger] cards@.to_multiset().count(c) == if c.card_index()
                        < j {
                        decks as int
                    } else {
                        cc[c.card_index()]
                    },
                cards@.len() == n + j * decks - prefix_sum(cc, j as int),
            decreases 52 - j,
        {
            let card = Card::from_index(j);
            let mut m: u32 = card_count[j];
            let ghost start = cards@.len();
            assert(cc[j as int] == card_count@[j as int]);
            while m < decks
                invariant
                    j < 52,
                    m <= decks,
                    card_count@[j as int] <= m,
                    card.valid(),
                    card.card_index() == j,
                    n == firsts@.len(),
                    n <= cards@.len(),
                    cc == counts(card_count@),
                    cards@.subrange(0, n as int) == firsts@,
                    forall|k: int| 0 <= k < cards@.len() ==> (#[trigger] cards@[k]).valid(),
                    forall|c: Card|
                        c.valid() ==> #[trigger] cards@.to_multiset().count(c) == if c.card_index()
                            < j {
                            decks as int
                        } else if c.card_index() == j {
                            m as int
                        } else {
                            cc[c.card_index()]
                        },
                    cards@.len() == start + (m - card_count@[j as int]),
                decreases decks - m,
            {
                let ghost before = cards@;
                cards.push(card);
                proof {
                    assert(cards@.subrange(0, n as int) =~= before.subrange(0, n as int));
                    assert forall|c: Card| c.valid() implies #[trigger] cards@.to_multiset().count(
                        c,
                    ) == if c.card_index() < j {
                        decks as int
                    } else if c.card_index() == j {
                        m + 1
                    } else {
                        cc[c.card_index()]
                    } by {
                        lemma_count_after_push(before, card, c);
                        if c.card_index() == j {
                            lemma_card_index_is_injective(c, card);
                        }
                    }
                }
                m += 1;
            }
            proof {
                assert((j + 1) * decks == j * decks + decks) by (nonlinear_arith);
            }
            j += 1;
        }
        proof {
            assert(52 * decks == cards@.len());
        }
        let ghost laid = cards@;
        shuffle_from(&mut cards, n);
        proof {
            broadcast use vstd::seq_lib::group_to_multiset_ensures;

            assert forall|k: int| 0 <= k < cards@.len() implies (#[trigger] cards@[k]).valid() by {
                let c = cards@[k];
                assert(cards@.contains(c));
                assert(laid.to_multiset().count(c) > 0);
                assert(laid.contains(c));
            }
        }
        self.cards = cards;
        self.index = 0;
        self.counter = Counter::new(decks);
        proof {
            assert(self.remaining() =~= self.cards());
        }
    }

    /// Shuffles the whole shoe.
    pub fn shuffle(&mut self)
        requires
            old(self).wf(),
        ensures
            final(self).wf(),
            final(self).position() == 0,
            final(self).decks() == old(self).decks(),
            final(self).cut_card() == old(self).cut_card(),
    {
        let none: [Card; 0] = [];
        proof {
            assert forall|c: Card| #[trigger] none@.to_multiset().count(c) == 0 by {
                broadcast use vstd::seq_lib::group_to_multiset_ensures;

                assert(!none@.contains(c));
            }
        }
        self.shuffle_with_firsts(none.as_slice());
    }

    /// The number of decks.
    pub fn get_number_of_decks(&self) -> (decks: u32)
        ensures
            decks == self.decks(),
    {
        self.number_of_decks
    }

    /// The cards that have not been dealt, in the order in which they come.
    pub fn get_next_cards(&self) -> (next: &[Card])
        requires
            self.wf(),
        ensures
            next@ == self.remaining(),
    {
        vstd::slice::slice_subrange(self.cards.as_slice(), self.index, self.cards.len())
    }

    /// The count of each rank among the cards that have not been dealt.
    pub fn get_value_count(&self) -> (ranks: &[u32; 13])
        ensures
            counts(ranks@) == self.counter().ranks(),
    {
        self.counter.get_value_count()
    }

    /// The count of each card among the cards that have not been dealt.
    pub fn get_card_count(&self) -> (cards: &[u32; 52])
        ensures
            counts(cards@) == self.counter().cards(),
    {
        self.counter.get_card_count()
    }

    /// The number of cards that have been dealt.
    pub fn get_index(&self) -> (index: usize)
        ensures
            index == self.position(),
    {
        self.index
    }

    /// Has the cut card come: have as many cards been dealt as lie before
    /// it?
    pub fn is_cut_card_reached(&self) -> (reached: bool)
        ensures
            reached == (self.position() >= self.cut_card()),
    {
        self.index as u64 >= self.cut_card_index
    }
}

} // verus!
