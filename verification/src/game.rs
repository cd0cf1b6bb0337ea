//! A round at the table: hands, wagers and what they come to.

use vstd::prelude::*;

pub mod hands;

pub use hands::{
    Bets, Hand, HandsBet, HandsResult, HandsResultBonus, RoundBetResult, RoundResult,
};

use crate::calculation::counter::{Counter, MAX_DECKS};
use crate::calculation::deal::{banker_draws, denominator};
use crate::calculation::functional::{rule_chart, solvable, SolveError};
use crate::calculation::solution::Solution;
use crate::calculation::solver::Solver;
use crate::calculation::sums::lemma_count_le_total;
use crate::card::Card;
use crate::game::hands::{detail_of, profit_below};
use crate::{Payouts, Rule};

verus! {

/// The one who holds the shoe. The game asks for one card at a time; it
/// promises nothing of the cards and checks each one it is given.
pub trait DealerProvider {
    fn deal_card(&mut self) -> Card;

    fn discard_cards(&mut self, cards: u32);

    fn is_cut_card_reached(&self) -> bool;

    fn start_new_shoe(&mut self);
}

/// The one who places the stakes and is told what happens at the table.
pub trait GamblerProvider {
    fn place_bet(&mut self, solution: &Solution) -> Bets;

    fn on_new_shoe(&mut self);

    fn on_discard(&mut self, card: Card);

    fn on_round_start(&mut self);

    fn on_round_end(&mut self, player: &Hand, banker: &Hand, round_result: &RoundResult);

    fn on_cut_card_reached(&mut self, cards_before_cut: u32);
}

/// Why a round could not be played.
#[derive(Debug, Clone, Copy, PartialEq, Eq, Structural)]
pub enum GameError {
    /// The dealer dealt a card that is no card, or one of which the shoe
    /// holds no more.
    UnknownCard(Card),
    /// The cards that are left cannot be solved.
    Unsolvable(SolveError),
}

/// How many cards are discarded after the first card of a shoe: as many as
/// its point value, and ten for a ten or a face card.
pub open spec fn discard_count(card: Card) -> int {
    if card.point_value() == 0 {
        10
    } else {
        card.point_value()
    }
}

/// How many cards are discarded after the first card of a shoe.
pub fn cards_to_discard(card: Card) -> (cards: u32)
    requires
        card.valid(),
    ensures
        cards == discard_count(card),
        1 <= cards <= 10,
{
    let point = card.to_bcr_value_index();
    if point == 0 {
        10
    } else {
        point as u32
    }
}

/// The player draws a third card: neither side holds a natural, and the
/// player's two cards sum to five or less.
pub open spec fn player_takes_third(player: Hand, banker: Hand) -> bool {
    player.initial_sum() < 8 && banker.initial_sum() < 8 && player.initial_sum() <= 5
}

/// The banker draws a third card: neither side holds a natural, and either
/// the player drew the card `player_third` and the third-card rule says so,
/// or the player stood and the banker's two cards sum to five or less.
pub open spec fn banker_takes_third(player: Hand, banker: Hand, player_third: Option<Card>) -> bool {
    player.initial_sum() < 8 && banker.initial_sum() < 8 && match player_third {
        Some(c) => banker_draws(banker.initial_sum(), c.point_value()),
        None => banker.initial_sum() <= 5,
    }
}

/// The hands of a finished round were drawn by the rules.
pub open spec fn drawn_by_the_rules(player: Hand, banker: Hand) -> bool {
    &&& player.third() is Some <==> player_takes_third(player, banker)
    &&& banker.third() is Some <==> banker_takes_third(player, banker, player.third())
}

/// Counts a card that was dealt out of the cards that are left. A card that
/// is no card, or of which none is left, is refused with the card, and the
/// count stays as it is.
pub fn take_card(counter: &mut Counter, card: Card) -> (r: Result<(), GameError>)
    ensures
        r is Ok <==> card.valid() && old(counter).cards()[card.card_index()] > 0,
        r is Ok ==> final(counter).count() == old(counter).count() - 1 && old(counter).count()
            >= 1 && final(counter).cards() == old(counter).cards().update(
            card.card_index(),
            old(counter).cards()[card.card_index()] - 1,
        ),
        r is Err ==> r == Err::<(), GameError>(GameError::UnknownCard(card)) && *final(counter)
            == *old(counter) && (card.valid() ==> old(counter).cards()[card.card_index()] == 0),
{
    if card.value < 1 || card.value > 13 {
        return Err(GameError::UnknownCard(card));
    }
    if counter.get_card_count()[card.to_index()] == 0 {
        return Err(GameError::UnknownCard(card));
    }
    proof {
        lemma_count_le_total(counter.cards(), card.card_index());
    }
    counter.remove_card(card);
    Ok(())
}

/// The number of cards of a hand.
pub open spec fn cards_of(hand: Hand) -> int {
    if hand.third() is Some {
        3
    } else {
        2
    }
}

/// Does the player draw a third card on these hands of two cards?
pub fn player_should_draw(player: &Hand, banker: &Hand) -> (draw: bool)
    requires
        player.third() is None,
        banker.third() is None,
    ensures
        draw == player_takes_third(*player, *banker),
{
    !player.is_natural() && !banker.is_natural() && player.get_sum() <= 5
}

/// Does the banker draw a third card, the player having drawn
/// `player_third` or none?
pub fn banker_should_draw(player: &Hand, banker: &Hand, player_third: Option<Card>) -> (draw: bool)
    requires
        player.third() is None,
        banker.third() is None,
        player_third matches Some(c) ==> c.valid(),
    ensures
        draw == banker_takes_third(*player, *banker, player_third),
{
    if player.is_natural() || banker.is_natural() {
        return false;
    }
    match player_third {
        Some(card) => rule_chart(banker.get_sum() as usize, card.to_bcr_value_index()),
        None => banker.get_sum() <= 5,
    }
}

/// A table: a dealer, a gambler, and the count of the cards that are left
/// in the shoe.
#[derive(Debug, Clone)]
pub struct Game<'a, T: DealerProvider, U: GamblerProvider> {
    rule: &'a Rule,
    counter: Counter,
    player: Option<Hand>,
    banker: Option<Hand>,
    solver: Solver<'a>,
    round_result: RoundResult<'a>,
    dealer: T,
    gambler: U,
    discarded_card: Option<Card>,
    should_start_new_shoe: bool,
    cards_before_cut: u32,
    bets: Bets,
}

impl<'a, T: DealerProvider, U: GamblerProvider> Game<'a, T, U> {
    /// The rule of the table.
    pub closed spec fn rule(&self) -> Rule {
        *self.rule
    }

    /// The count of the cards that are left in the shoe.
    pub closed spec fn counter(&self) -> Counter {
        self.counter
    }

    /// The player's hand of the last round.
    pub closed spec fn player(&self) -> Option<Hand> {
        self.player
    }

    /// The banker's hand of the last round.
    pub closed spec fn banker(&self) -> Option<Hand> {
        self.banker
    }

    /// The cards that came before the cut card of this shoe.
    pub closed spec fn before_cut(&self) -> int {
        self.cards_before_cut as int
    }

    /// The next round begins a new shoe.
    pub closed spec fn at_new_shoe(&self) -> bool {
        self.should_start_new_shoe
    }

    /// The cards that the counter holds when the hands of the next round
    /// are dealt: a new shoe less the card that is discarded first, where
    /// one is due, and the cards that are left otherwise.
    pub open spec fn round_start_count(&self) -> int {
        if self.at_new_shoe() {
            52 * self.rule().number_of_decks - if self.rule().discard_at_start {
                1int
            } else {
                0int
            }
        } else {
            self.counter().count()
        }
    }

    /// The game is in order: its shoe has no more decks than can be
    /// counted, its parts go by the rule of the table, and the cards that
    /// came before the cut card and those that are left are no more than a
    /// shoe and the ten cards that may be discarded.
    pub closed spec fn wf(&self) -> bool {
        &&& self.rule.number_of_decks <= MAX_DECKS
        &&& self.solver.rule() == *self.rule
        &&& *self.round_result.rule == *self.rule
        &&& self.cards_before_cut + self.counter.count() <= 52 * self.rule.number_of_decks + 10
    }

    /// A table before its first shoe.
    pub fn new(rule: &'a Rule, dealer: T, gambler: U) -> (game: Self)
        requires
            rule.number_of_decks <= MAX_DECKS,
        ensures
            game.wf(),
            game.rule() == *rule,
            game.at_new_shoe(),
            game.player() is None,
            game.banker() is None,
    {
        Self {
            rule,
            counter: Counter::new(rule.number_of_decks),
            player: None,
            banker: None,
            solver: Solver::new(rule),
            round_result: RoundResult::new(rule),
            dealer,
            gambler,
            discarded_card: None,
            should_start_new_shoe: true,
            cards_before_cut: 0,
            bets: Bets::new(),
        }
    }

    /// Takes the next card from the dealer and counts it out of the shoe.
    /// A card that is no card, or that the count says is not left, ends the
    /// game with the card, and nothing is counted. Where the dealer says
    /// that the cut card came, the next round begins a new shoe.
    fn get_card_from_dealer(&mut self) -> (r: Result<Card, GameError>)
        requires
            old(self).wf(),
        ensures
            final(self).wf(),
            final(self).rule() == old(self).rule(),
            final(self).player() == old(self).player(),
            final(self).banker() == old(self).banker(),
            final(self).solution() == old(self).solution(),
            final(self).round_result() == old(self).round_result(),
            final(self).stakes() == old(self).stakes(),
            old(self).at_new_shoe() ==> final(self).at_new_shoe(),
            match r {
                Ok(card) => {
                    &&& card.valid()
                    &&& old(self).counter().cards()[card.card_index()] > 0
                    &&& final(self).counter().cards() == old(self).counter().cards().update(
                        card.card_index(),
                        old(self).counter().cards()[card.card_index()] - 1,
                    )
                    &&& final(self).counter().count() == old(self).counter().count() - 1
                    &&& final(self).before_cut() == old(self).before_cut() + 1
                },
                Err(e) => {
                    &&& e matches GameError::UnknownCard(card) && (card.valid() ==> old(
                        self
                    ).counter().cards()[card.card_index()] == 0)
                    &&& final(self).counter() == old(self).counter()
                    &&& final(self).before_cut() == old(self).before_cut()
                    &&& final(self).at_new_shoe() == old(self).at_new_shoe()
                },
            },
    {
        let card = self.dealer.deal_card();
        take_card(&mut self.counter, card)?;
        self.cards_before_cut = self.cards_before_cut + 1;
        if self.dealer.is_cut_card_reached() {
            self.gambler.on_cut_card_reached(self.cards_before_cut);
            self.should_start_new_shoe = true;
        }
        Ok(card)
    }

    /// Plays one round: begins a new shoe where one is due, has the shoe
    /// solved and the stakes placed, deals the hands by the rules, and
    /// settles the stakes. A round that cannot be played leaves the hands
    /// and the result of the round before.
    pub fn play_round(&mut self) -> (r: Result<(), GameError>)
        requires
            old(self).wf(),
        ensures
            final(self).wf(),
            final(self).rule() == old(self).rule(),
            solvable(old(self).round_start_count()) is Err ==> r is Err,
            !(old(self).at_new_shoe() && old(self).rule().discard_at_start) ==> (solvable(
                old(self).round_start_count(),
            ) matches Err(e) ==> r == Err::<(), GameError>(GameError::Unsolvable(e))),
            match r {
                Ok(_) => final(self).played_from(old(self).round_start_count()),
                Err(GameError::Unsolvable(e)) => {
                    &&& solvable(old(self).round_start_count()) == Err::<(), SolveError>(e)
                    &&& final(self).counter().count() == old(self).round_start_count()
                    &&& final(self).kept_from(*old(self))
                },
                Err(GameError::UnknownCard(card)) => {
                    &&& card.valid() ==> final(self).counter().cards()[card.card_index()] == 0
                    &&& final(self).kept_from(*old(self))
                },
            },
    {
        self.begin_shoe()?;
        self.gambler.on_round_start();
        self.place_stakes()?;
        let (player, banker) = self.deal_round()?;
        self.player = Some(player);
        self.banker = Some(banker);
        self.round_result.calculate_with_hands_and_bet(&player, &banker, &self.bets);
        self.gambler.on_round_end(&player, &banker, &self.round_result);
        Ok(())
    }

    /// Plays `rounds` rounds, or as many as can be played: the first round
    /// that cannot be played ends the game with its error. No round leaves
    /// the game as it is.
    pub fn start_game_loop(&mut self, rounds: u64) -> (r: Result<(), GameError>)
        requires
            old(self).wf(),
        ensures
            final(self).wf(),
            final(self).rule() == old(self).rule(),
            rounds == 0 ==> r is Ok && *final(self) == *old(self),
            rounds > 0 && solvable(old(self).round_start_count()) is Err ==> r is Err,
            match r {
                Ok(_) => rounds > 0 ==> exists|cards: int| final(self).played_from(cards),
                Err(GameError::Unsolvable(e)) => solvable(final(self).counter().count()) == Err::<
                    (),
                    SolveError,
                >(e),
                Err(GameError::UnknownCard(card)) => card.valid() ==> final(
                    self
                ).counter().cards()[card.card_index()] == 0,
            },
    {
        let mut played: u64 = 0;
        while played < rounds
            invariant
                self.wf(),
                self.rule() == old(self).rule(),
                played <= rounds,
                played == 0 ==> *self == *old(self),
                played > 0 ==> solvable(old(self).round_start_count()) is Ok,
                played > 0 ==> exists|cards: int| self.played_from(cards),
            decreases rounds - played,
        {
            let ghost cards = self.round_start_count();
            self.play_round()?;
            assert(self.played_from(cards));
            played += 1;
        }
        Ok(())
    }
}

/// The result of a round is what the stakes come to on its hands.
pub open spec fn settled(
    result: RoundResult,
    player: Hand,
    banker: Hand,
    bets: Bets,
    payouts: Payouts,
) -> bool {
    &&& forall|k: int|
        0 <= k < 9 ==> #[trigger] result.details[k] == detail_of(
            bets.stakes()[k],
            k,
            player,
            banker,
            payouts,
        )
    &&& result.total_profit == profit_below(bets.stakes(), player, banker, payouts, 9)
}

impl<'a, T: DealerProvider, U: GamblerProvider> Game<'a, T, U> {
    /// The solution of the cards that were left when the stakes of the last
    /// round were placed.
    pub closed spec fn solution(&self) -> Solution {
        self.solver.solution()
    }

    /// What the last round came to.
    pub closed spec fn round_result(&self) -> RoundResult<'a> {
        self.round_result
    }

    /// The stakes that the gambler placed in the last round.
    pub closed spec fn stakes(&self) -> Bets {
        self.bets
    }

    /// A round was played from `cards` cards: they could be solved and the
    /// solution is theirs, the hands were drawn by the rules and counted
    /// out of the cards, and the stakes that the gambler placed were
    /// settled on the hands at the payouts of the rule.
    pub open spec fn played_from(&self, cards: int) -> bool {
        &&& solvable(cards) is Ok
        &&& self.solution().wf()
        &&& self.solution().denominator == denominator(cards)
        &&& self.solution().expectations_follow(self.rule().payouts)
        &&& match (self.player(), self.banker()) {
            (Some(player), Some(banker)) => {
                &&& drawn_by_the_rules(player, banker)
                &&& self.counter().count() == cards - cards_of(player) - cards_of(banker)
                &&& settled(
                    self.round_result(),
                    player,
                    banker,
                    self.stakes(),
                    self.rule().payouts,
                )
            },
            _ => false,
        }
    }

    /// Begins a new shoe where one is due: the count is that of a full
    /// shoe, and where the rule says so the first card is taken and as many
    /// cards are discarded as it says.
    fn begin_shoe(&mut self) -> (r: Result<(), GameError>)
        requires
            old(self).wf(),
        ensures
            final(self).wf(),
            final(self).rule() == old(self).rule(),
            final(self).kept_from(*old(self)),
            !old(self).at_new_shoe() ==> r is Ok && final(self).counter() == old(self).counter(),
            !old(self).rule().discard_at_start ==> r is Ok,
            match r {
                Ok(_) => final(self).counter().count() == old(self).round_start_count(),
                Err(e) => e matches GameError::UnknownCard(card) && (card.valid() ==> final(
                    self
                ).counter().cards()[card.card_index()] == 0),
            },
    {
        if self.should_start_new_shoe {
            self.gambler.on_new_shoe();
            self.should_start_new_shoe = false;
            self.counter = Counter::new(self.rule.number_of_decks);
            self.cards_before_cut = 0;
            self.dealer.start_new_shoe();
            if self.rule.discard_at_start {
                let card = self.get_card_from_dealer()?;
                self.discarded_card = Some(card);
                let discarded_cards = cards_to_discard(card);
                self.cards_before_cut = self.cards_before_cut + discarded_cards;
                self.gambler.on_discard(card);
                self.dealer.discard_cards(discarded_cards);
            }
        }
        Ok(())
    }

    /// Has the cards that are left solved and the gambler place the stakes
    /// on the solution.
    fn place_stakes(&mut self) -> (r: Result<(), GameError>)
        requires
            old(self).wf(),
        ensures
            final(self).wf(),
            final(self).rule() == old(self).rule(),
            final(self).counter() == old(self).counter(),
            final(self).kept_from(*old(self)),
            match r {
                Ok(_) => {
                    &&& solvable(old(self).counter().count()) is Ok
                    &&& final(self).solution().wf()
                    &&& final(self).solution().denominator == denominator(
                        old(self).counter().count(),
                    )
                    &&& final(self).solution().expectations_follow(final(self).rule().payouts)
                },
                Err(e) => e matches GameError::Unsolvable(s) && solvable(
                    old(self).counter().count(),
                ) == Err::<(), SolveError>(s),
            },
    {
        let left: u32 = self.counter.get_total();
        assert(self.counter().wf() && left == self.counter().count());
        let bets = match self.solver.solve(&self.counter) {
            Ok(solution) => self.gambler.place_bet(solution),
            Err(e) => {
                return Err(GameError::Unsolvable(e));
            },
        };
        self.bets = bets;
        Ok(())
    }

    /// Deals the two hands of a round: two cards each, the player first,
    /// and the third cards that the rules ask for.
    fn deal_round(&mut self) -> (r: Result<(Hand, Hand), GameError>)
        requires
            old(self).wf(),
        ensures
            final(self).wf(),
            final(self).rule() == old(self).rule(),
            final(self).solution() == old(self).solution(),
            final(self).stakes() == old(self).stakes(),
            final(self).kept_from(*old(self)),
            match r {
                Ok((player, banker)) => {
                    &&& drawn_by_the_rules(player, banker)
                    &&& final(self).counter().count() == old(self).counter().count() - cards_of(
                        player,
                    ) - cards_of(banker)
                },
                Err(e) => e matches GameError::UnknownCard(card) && (card.valid() ==> final(
                    self
                ).counter().cards()[card.card_index()] == 0),
            },
    {
        let player_first = self.get_card_from_dealer()?;
        let banker_first = self.get_card_from_dealer()?;
        let player_second = self.get_card_from_dealer()?;
        let banker_second = self.get_card_from_dealer()?;
        let player_two = Hand::new([player_first, player_second], None);
        let banker_two = Hand::new([banker_first, banker_second], None);

        let mut player_third: Option<Card> = None;
        if player_should_draw(&player_two, &banker_two) {
            player_third = Some(self.get_card_from_dealer()?);
        }
        let mut banker_third: Option<Card> = None;
        if banker_should_draw(&player_two, &banker_two, player_third) {
            banker_third = Some(self.get_card_from_dealer()?);
        }
        let player = Hand::new([player_first, player_second], player_third);
        let banker = Hand::new([banker_first, banker_second], banker_third);
        Ok((player, banker))
    }

    /// The hands and the result of the last round are those of `before`: a
    /// round that could not be played leaves them.
    pub open spec fn kept_from(&self, before: Self) -> bool {
        &&& self.player() == before.player()
        &&& self.banker() == before.banker()
        &&& self.round_result() == before.round_result()
    }
}

} // verus!
