use baccarat::calculation::{Solution, SolveError};
use baccarat::card::{Card, Shoe, Suit};
use baccarat::game::hands::{bonus_result, resolve_bet, settle};
use baccarat::calculation::Counter;
use baccarat::game::{
    banker_should_draw, cards_to_discard, player_should_draw, take_card, Bets, DealerProvider,
    GamblerProvider, Game, GameError, Hand, HandsBet, HandsResult, HandsResultBonus,
    RoundBetResult, RoundResult,
};
use baccarat::money::MoneyStat;
use baccarat::strategy::{is_pair_worth_it, place_by_expectation, suggest, Suggestion};
use baccarat::{Payouts, Rule};

fn rule() -> Rule {
    Rule {
        number_of_decks: 1,
        cut_card_proportion: 9_000,
        discard_at_start: true,
        payouts: Payouts {
            player_win: 10_000,
            banker_win: 9_500,
            tie: 80_000,
            unsuit_pair: 110_000,
            either_pair: 50_000,
            perfect_pair: [250_000, 2_000_000],
            bonus_unnatural: [10_000, 20_000, 40_000, 60_000, 100_000, 300_000],
            bonus_natural_win: 10_000,
            bonus_natural_tie: 0,
        },
    }
}

fn card(suit: Suit, value: u8) -> Card {
    Card::new(suit, value)
}

fn hand(a: u8, b: u8, third: Option<u8>) -> Hand {
    Hand::new(
        [card(Suit::Diamond, a), card(Suit::Club, b)],
        third.map(|v| card(Suit::Heart, v)),
    )
}

#[test]
fn hand_sums_count_tens_and_faces_as_zero() {
    assert_eq!(hand(11, 5, None).get_sum(), 5);
    assert_eq!(hand(13, 12, None).get_sum(), 0);
    assert_eq!(hand(9, 9, None).get_sum(), 8);
    assert_eq!(hand(7, 6, Some(10)).get_sum(), 3);
    assert_eq!(hand(1, 2, Some(3)).get_sum(), 6);
    assert!(hand(9, 9, None).is_natural());
    assert!(hand(13, 9, None).is_natural());
    assert!(!hand(13, 7, None).is_natural());
    assert!(!hand(4, 4, Some(1)).is_natural());
    assert!(hand(4, 4, None).is_initial_unsuit_pair());
    assert!(!hand(4, 5, None).is_initial_unsuit_pair());
    assert!(!hand(4, 4, None).is_initial_suit_pair());
    let twice = Hand::new([card(Suit::Spade, 4), card(Suit::Spade, 4)], None);
    assert!(twice.is_initial_suit_pair());
    assert!(twice.is_initial_unsuit_pair());
}

#[test]
fn main_wagers_are_resolved() {
    let (low, high) = (hand(1, 2, None), hand(3, 4, None));
    assert_eq!(resolve_bet(HandsBet::PlayerWin, &high, &low), HandsResult::PlayerWin);
    assert_eq!(resolve_bet(HandsBet::PlayerWin, &low, &high), HandsResult::Lose);
    assert_eq!(resolve_bet(HandsBet::PlayerWin, &low, &low), HandsResult::Tie);
    assert_eq!(resolve_bet(HandsBet::BankerWin, &low, &high), HandsResult::BankerWin);
    assert_eq!(resolve_bet(HandsBet::BankerWin, &high, &low), HandsResult::Lose);
    assert_eq!(resolve_bet(HandsBet::BankerWin, &high, &high), HandsResult::Tie);
    assert_eq!(resolve_bet(HandsBet::Tie, &high, &high), HandsResult::Tie);
    assert_eq!(resolve_bet(HandsBet::Tie, &high, &low), HandsResult::Lose);
    assert_eq!(resolve_bet(HandsBet::PlaceHolder, &high, &low), HandsResult::Lose);
}

#[test]
fn pair_wagers_are_resolved() {
    let pair = hand(6, 6, None);
    let none = hand(6, 7, None);
    let perfect = Hand::new([card(Suit::Spade, 2), card(Suit::Spade, 2)], None);
    assert_eq!(
        resolve_bet(HandsBet::PlayerUnsuitPair, &pair, &none),
        HandsResult::PlayerUnsuitPair
    );
    assert_eq!(resolve_bet(HandsBet::PlayerUnsuitPair, &none, &pair), HandsResult::Lose);
    assert_eq!(
        resolve_bet(HandsBet::BankerUnsuitPair, &none, &pair),
        HandsResult::BankerUnsuitPair
    );
    assert_eq!(resolve_bet(HandsBet::BankerUnsuitPair, &pair, &none), HandsResult::Lose);
    assert_eq!(resolve_bet(HandsBet::EitherPair, &none, &pair), HandsResult::EitherPair);
    assert_eq!(resolve_bet(HandsBet::EitherPair, &none, &none), HandsResult::Lose);
    assert_eq!(resolve_bet(HandsBet::PerfectPair, &pair, &none), HandsResult::Lose);
    assert_eq!(
        resolve_bet(HandsBet::PerfectPair, &perfect, &none),
        HandsResult::PerfectPair(1)
    );
    assert_eq!(
        resolve_bet(HandsBet::PerfectPair, &perfect, &perfect),
        HandsResult::PerfectPair(2)
    );
}

#[test]
fn bonus_wagers_are_resolved() {
    assert_eq!(bonus_result(9, 8, true), Some(HandsResultBonus::NaturalWin));
    assert_eq!(bonus_result(8, 8, true), Some(HandsResultBonus::NaturalTie));
    assert_eq!(bonus_result(8, 9, true), None);
    assert_eq!(bonus_result(7, 3, false), Some(HandsResultBonus::UnnaturalBonus(4)));
    assert_eq!(bonus_result(9, 0, false), Some(HandsResultBonus::UnnaturalBonus(9)));
    assert_eq!(bonus_result(7, 4, false), None);
    assert_eq!(bonus_result(7, 7, false), None);
    // A nine made with a third card is no natural.
    let player = hand(2, 3, Some(4));
    let banker = hand(13, 1, Some(2));
    assert_eq!(
        resolve_bet(HandsBet::PlayerBonus, &player, &banker),
        HandsResult::PlayerBonus(HandsResultBonus::UnnaturalBonus(6))
    );
    assert_eq!(resolve_bet(HandsBet::BankerBonus, &player, &banker), HandsResult::Lose);
    let natural = hand(4, 5, None);
    let other = hand(4, 4, None);
    assert_eq!(
        resolve_bet(HandsBet::PlayerBonus, &natural, &other),
        HandsResult::PlayerBonus(HandsResultBonus::NaturalWin)
    );
    assert_eq!(
        resolve_bet(HandsBet::BankerBonus, &other, &natural),
        HandsResult::BankerBonus(HandsResultBonus::NaturalWin)
    );
    assert_eq!(
        resolve_bet(HandsBet::BankerBonus, &natural, &natural),
        HandsResult::BankerBonus(HandsResultBonus::NaturalTie)
    );
}

#[test]
fn stakes_are_settled_at_the_payouts() {
    let p = rule().payouts;
    assert_eq!(settle(HandsBet::PlayerWin, HandsResult::Lose, 100, &p), -100);
    assert_eq!(settle(HandsBet::PlayerWin, HandsResult::Tie, 100, &p), 0);
    assert_eq!(settle(HandsBet::Tie, HandsResult::Tie, 100, &p), 800);
    assert_eq!(settle(HandsBet::PlayerWin, HandsResult::PlayerWin, 100, &p), 100);
    assert_eq!(settle(HandsBet::BankerWin, HandsResult::BankerWin, 100, &p), 95);
    // 0.95 of 7 is 6.65: the whole units are paid.
    assert_eq!(settle(HandsBet::BankerWin, HandsResult::BankerWin, 7, &p), 6);
    assert_eq!(
        settle(HandsBet::PlayerUnsuitPair, HandsResult::PlayerUnsuitPair, 10, &p),
        110
    );
    assert_eq!(settle(HandsBet::EitherPair, HandsResult::EitherPair, 10, &p), 50);
    assert_eq!(settle(HandsBet::PerfectPair, HandsResult::PerfectPair(1), 10, &p), 250);
    assert_eq!(settle(HandsBet::PerfectPair, HandsResult::PerfectPair(2), 10, &p), 2000);
    let six = HandsResult::PlayerBonus(HandsResultBonus::UnnaturalBonus(6));
    assert_eq!(settle(HandsBet::PlayerBonus, six, 100, &p), 400);
    let nine = HandsResult::BankerBonus(HandsResultBonus::UnnaturalBonus(9));
    assert_eq!(settle(HandsBet::BankerBonus, nine, 100, &p), 3000);
    let tie = HandsResult::PlayerBonus(HandsResultBonus::NaturalTie);
    assert_eq!(settle(HandsBet::PlayerBonus, tie, 100, &p), 0);
    let win = HandsResult::PlayerBonus(HandsResultBonus::NaturalWin);
    assert_eq!(settle(HandsBet::PlayerBonus, win, 1_000_000_000_000, &p), 1_000_000_000_000);
}

#[test]
fn bets_hold_one_stake_for_each_wager() {
    let mut bets = Bets::new();
    assert_eq!(bets.len(), 0);
    assert!(bets.insert(HandsBet::Tie, 5));
    assert!(bets.insert(HandsBet::Tie, 6));
    assert!(bets.insert(HandsBet::BankerBonus, 0));
    assert!(!bets.insert(HandsBet::PlaceHolder, 5));
    assert!(!bets.insert(HandsBet::PlayerWin, -1));
    assert!(!bets.insert(HandsBet::PlayerWin, 1_000_000_000_001));
    assert_eq!(bets.len(), 2);
    assert_eq!(bets.get(HandsBet::Tie), Some(6));
    assert_eq!(bets.get(HandsBet::BankerBonus), Some(0));
    assert_eq!(bets.get(HandsBet::PlayerWin), None);
    assert_eq!(bets.get(HandsBet::PlaceHolder), None);
    bets.clear();
    assert_eq!(bets.len(), 0);
    for place in 0..10 {
        assert_eq!(HandsBet::from_index(place).to_index(), place.min(9));
    }
}

#[test]
fn a_round_is_settled() {
    let rule = rule();
    let mut result = RoundResult::new(&rule);
    let mut bets = Bets::new();
    bets.insert(HandsBet::BankerWin, 200);
    bets.insert(HandsBet::PlayerBonus, 100);
    bets.insert(HandsBet::Tie, 10);
    let player = hand(2, 3, Some(4));
    let banker = hand(13, 1, Some(2));
    result.calculate_with_hands_and_bet(&player, &banker, &bets);
    assert_eq!(result.total_profit, -200 + 400 - 10);
    assert_eq!(
        result.get(HandsBet::BankerWin),
        Some(RoundBetResult(HandsResult::Lose, -200))
    );
    assert_eq!(
        result.get(HandsBet::PlayerBonus),
        Some(RoundBetResult(
            HandsResult::PlayerBonus(HandsResultBonus::UnnaturalBonus(6)),
            400
        ))
    );
    assert_eq!(result.get(HandsBet::Tie), Some(RoundBetResult(HandsResult::Lose, -10)));
    assert_eq!(result.get(HandsBet::PlayerWin), None);

    result.calculate_with_hands_and_bet(&player, &banker, &Bets::new());
    assert_eq!(result.total_profit, 0);
    assert_eq!(result.details, [None; 9]);
}

#[test]
fn third_cards_are_drawn_by_the_rules() {
    let five = hand(2, 3, None);
    let six = hand(2, 4, None);
    let three = hand(1, 2, None);
    let natural = hand(4, 5, None);
    assert!(player_should_draw(&five, &six));
    assert!(!player_should_draw(&six, &five));
    assert!(!player_should_draw(&five, &natural));
    assert!(!player_should_draw(&natural, &five));
    // The player stood: the banker draws on five or less.
    assert!(banker_should_draw(&six, &five, None));
    assert!(!banker_should_draw(&six, &six, None));
    assert!(!banker_should_draw(&natural, &five, None));
    // The banker holds three and draws unless the player drew an eight.
    assert!(banker_should_draw(&five, &three, Some(card(Suit::Spade, 9))));
    assert!(!banker_should_draw(&five, &three, Some(card(Suit::Spade, 8))));
    // The banker holds six and draws on a six or a seven.
    assert!(banker_should_draw(&five, &six, Some(card(Suit::Spade, 6))));
    assert!(banker_should_draw(&five, &six, Some(card(Suit::Spade, 7))));
    assert!(!banker_should_draw(&five, &six, Some(card(Suit::Spade, 5))));
    assert!(!banker_should_draw(&five, &six, Some(card(Suit::Spade, 13))));
    assert_eq!(cards_to_discard(card(Suit::Spade, 13)), 10);
    assert_eq!(cards_to_discard(card(Suit::Spade, 10)), 10);
    assert_eq!(cards_to_discard(card(Suit::Spade, 1)), 1);
    assert_eq!(cards_to_discard(card(Suit::Spade, 9)), 9);
}

#[test]
fn money_keeps_its_marks() {
    let mut money = MoneyStat::default();
    assert_eq!(money.cur_money(), 0);
    assert_eq!(money.min_money(), i64::MAX);
    assert_eq!(money.max_money(), i64::MIN);
    money.add(10);
    assert_eq!((money.cur_money(), money.min_money(), money.max_money()), (10, 10, 10));
    money.add(-25);
    assert_eq!((money.cur_money(), money.min_money(), money.max_money()), (-15, -15, 10));
    money.add(5);
    assert_eq!((money.cur_money(), money.min_money(), money.max_money()), (-10, -15, 10));
    assert!(!money.try_add(i64::MIN));
    assert_eq!(money.cur_money(), -10);
    assert!(money.try_add(i64::MAX));
    assert_eq!(money.max_money(), i64::MAX - 10);
}

#[test]
fn advice_goes_by_expectation() {
    let none = (HandsBet::PlaceHolder, i128::MIN);
    assert_eq!(suggest((HandsBet::BankerWin, 5), none), Suggestion::Main(HandsBet::BankerWin));
    assert_eq!(suggest((HandsBet::BankerWin, -5), none), Suggestion::NoBet);
    assert_eq!(suggest(none, none), Suggestion::NoBet);
    assert_eq!(
        suggest((HandsBet::BankerWin, -5), (HandsBet::EitherPair, 11)),
        Suggestion::MainAndSide(HandsBet::BankerWin, HandsBet::EitherPair)
    );
    assert_eq!(
        suggest((HandsBet::BankerWin, -5), (HandsBet::EitherPair, 10)),
        Suggestion::NoBet
    );
    assert_eq!(suggest((HandsBet::BankerWin, 5), (HandsBet::EitherPair, 5)), Suggestion::NoBet);
    assert!(is_pair_worth_it(-5, 11));
    assert!(!is_pair_worth_it(-5, 10));
    assert!(is_pair_worth_it(i128::MAX, i128::MAX));
    assert!(!is_pair_worth_it(i128::MIN, i128::MAX));
    assert!(is_pair_worth_it(i128::MAX, i128::MIN));
    assert!(!is_pair_worth_it(0, 0));

    let bets = place_by_expectation((HandsBet::BankerWin, 5), (HandsBet::EitherPair, 4));
    assert_eq!(bets.get(HandsBet::BankerWin), Some(100));
    assert_eq!(bets.len(), 1);
    let bets = place_by_expectation((HandsBet::BankerWin, -5), (HandsBet::EitherPair, 11));
    assert_eq!(bets.get(HandsBet::BankerWin), Some(200));
    assert_eq!(bets.get(HandsBet::EitherPair), Some(100));
    let bets = place_by_expectation((HandsBet::BankerWin, 5), (HandsBet::EitherPair, 5));
    assert_eq!(bets.len(), 2);
    let bets = place_by_expectation((HandsBet::BankerWin, -5), (HandsBet::EitherPair, 4));
    assert_eq!(bets.len(), 0);
    let bets = place_by_expectation(none, none);
    assert_eq!(bets.len(), 0);
}

struct ShoeDealer {
    shoe: Shoe,
}

impl DealerProvider for ShoeDealer {
    fn deal_card(&mut self) -> Card {
        self.shoe.deal_card()
    }
    fn discard_cards(&mut self, cards: u32) {
        for _ in 0..cards {
            self.shoe.deal_card();
        }
    }
    fn is_cut_card_reached(&self) -> bool {
        self.shoe.is_cut_card_reached()
    }
    fn start_new_shoe(&mut self) {
        self.shoe.shuffle();
    }
}

struct Watcher {
    rounds: u32,
    shoes: u32,
    money: i64,
}

impl GamblerProvider for Watcher {
    fn place_bet(&mut self, solution: &Solution) -> Bets {
        let m = &solution.sol_main;
        assert!(m.p_player_win + m.p_banker_win + m.p_tie <= solution.denominator);
        let mut bets = Bets::new();
        bets.insert(HandsBet::BankerWin, 100);
        bets
    }
    fn on_new_shoe(&mut self) {
        self.shoes += 1;
    }
    fn on_discard(&mut self, _card: Card) {}
    fn on_round_start(&mut self) {}
    fn on_round_end(&mut self, player: &Hand, banker: &Hand, round_result: &RoundResult) {
        self.rounds += 1;
        self.money += round_result.total_profit;
        let expected = if player.get_sum() < banker.get_sum() {
            95
        } else if player.get_sum() == banker.get_sum() {
            0
        } else {
            -100
        };
        assert_eq!(round_result.total_profit, expected);
    }
    fn on_cut_card_reached(&mut self, _cards_before_cut: u32) {}
}

#[test]
fn rounds_are_played_from_a_shoe() {
    let rule = rule();
    let dealer = ShoeDealer { shoe: Shoe::new(1, 5_000) };
    let gambler = Watcher { rounds: 0, shoes: 0, money: 0 };
    let mut game = Game::new(&rule, dealer, gambler);
    assert_eq!(game.start_game_loop(40), Ok(()));
}

struct StuckDealer;

impl DealerProvider for StuckDealer {
    fn deal_card(&mut self) -> Card {
        Card::new(Suit::Heart, 7)
    }
    fn discard_cards(&mut self, _cards: u32) {}
    fn is_cut_card_reached(&self) -> bool {
        false
    }
    fn start_new_shoe(&mut self) {}
}

#[test]
fn a_card_that_the_shoe_has_no_more_of_ends_the_game() {
    let rule = rule();
    let gambler = Watcher { rounds: 0, shoes: 0, money: 0 };
    let mut game = Game::new(&rule, StuckDealer, gambler);
    // One deck holds the seven of hearts once: the discard takes it.
    assert_eq!(
        game.play_round(),
        Err(GameError::UnknownCard(Card::new(Suit::Heart, 7)))
    );
}

struct NoCards;

impl DealerProvider for NoCards {
    fn deal_card(&mut self) -> Card {
        Card::new(Suit::Heart, 0)
    }
    fn discard_cards(&mut self, _cards: u32) {}
    fn is_cut_card_reached(&self) -> bool {
        false
    }
    fn start_new_shoe(&mut self) {}
}

#[test]
fn an_empty_shoe_cannot_be_played() {
    let mut rule = rule();
    rule.number_of_decks = 0;
    rule.discard_at_start = false;
    let gambler = Watcher { rounds: 0, shoes: 0, money: 0 };
    let mut game = Game::new(&rule, NoCards, gambler);
    assert_eq!(
        game.play_round(),
        Err(GameError::Unsolvable(SolveError::TooFewCards))
    );
    rule.number_of_decks = 1;
    let gambler = Watcher { rounds: 0, shoes: 0, money: 0 };
    let mut game = Game::new(&rule, NoCards, gambler);
    assert_eq!(
        game.play_round(),
        Err(GameError::UnknownCard(Card::new(Suit::Heart, 0)))
    );
}

#[test]
fn cards_are_counted_out_of_the_shoe() {
    let mut counter = Counter::new(1);
    let seven = card(Suit::Heart, 7);
    assert_eq!(take_card(&mut counter, seven), Ok(()));
    assert_eq!(counter.get_total(), 51);
    assert_eq!(counter.get_card_count()[26 + 6], 0);
    assert_eq!(take_card(&mut counter, seven), Err(GameError::UnknownCard(seven)));
    assert_eq!(counter.get_total(), 51);
    let none = card(Suit::Heart, 14);
    assert_eq!(take_card(&mut counter, none), Err(GameError::UnknownCard(none)));
    let none = card(Suit::Heart, 0);
    assert_eq!(take_card(&mut counter, none), Err(GameError::UnknownCard(none)));
    assert_eq!(counter.get_total(), 51);
}

#[test]
fn no_round_is_played_where_none_is_asked_for() {
    let mut rule = rule();
    rule.number_of_decks = 0;
    rule.discard_at_start = false;
    let gambler = Watcher { rounds: 0, shoes: 0, money: 0 };
    let mut game = Game::new(&rule, NoCards, gambler);
    // No round: the dealer and the shoe are not asked.
    assert_eq!(game.start_game_loop(0), Ok(()));
    // One round: an empty shoe cannot be solved.
    assert_eq!(
        game.start_game_loop(1),
        Err(GameError::Unsolvable(SolveError::TooFewCards))
    );
}
