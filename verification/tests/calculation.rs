use baccarat::calculation::functional::{calculate, rule_chart};
use baccarat::calculation::{CompositionError, Counter, Solution, SolveError, Solver};
use baccarat::card::{Card, Suit};
use baccarat::game::HandsBet;
use baccarat::{Payouts, Rule};

fn get_typical_rule() -> Rule {
    Rule {
        number_of_decks: 8,
        cut_card_proportion: 9_000,
        discard_at_start: true,

        payouts: Payouts {
            player_win: 10_000,
            banker_win: 9_500,
            tie: 80_000,

            unsuit_pair: 110_000,
            either_pair: 50_000,
            perfect_pair: [250_000, 2_000_000],

            bonus_unnatural: [10_000, 20_000, 40_000, 60_000, 100_000, 300_000],
            bonus_natural_win: 10_000,
            bonus_natural_tie: 0,
        },
    }
}

fn assert_float_equal(mut x: f64, mut y: f64) {
    const EPS: f64 = 0.0001;
    if x > y {
        (x, y) = (y, x);
    }
    assert!((y - x) <= EPS * x.abs());
}

fn ex(solution: &Solution, numerator: i128) -> f64 {
    numerator as f64 / (solution.denominator as f64 * 10_000.0)
}

fn p(solution: &Solution, numerator: u128) -> f64 {
    numerator as f64 / solution.denominator as f64
}

fn counter_of(cards: &[(usize, u32)]) -> Counter {
    let mut count = [0u32; 52];
    for (index, n) in cards {
        count[*index] = *n;
    }
    Counter::with_card_count(&count)
}

#[test]
fn test_calculation_result() {
    // Ground truth RTP based on 8 decks.
    const RTP_BANKER_WIN: f64 = 0.9894;
    const EX_PLAYER_WIN: f64 = -0.012351;
    const EX_TIE: f64 = -0.143596;
    const RTP_UNSUIT_PAIR: f64 = 0.8964;
    const RTP_EITHER_PAIR: f64 = 0.8629;
    const RTP_PERFECT_PAIR: f64 = 0.9195;
    const RTP_PLAYER_BONUS: f64 = 0.9735;
    const RTP_BANKER_BONUS: f64 = 0.9063;

    let rule = get_typical_rule();
    let mut counter = Counter::new(8);
    let mut solution: Solution = Default::default();

    assert_eq!(calculate(&rule, &mut counter, &mut solution), Ok(()));

    let s = &solution;
    assert_float_equal(1.0 + ex(s, s.sol_main.ex_banker_win), RTP_BANKER_WIN);
    assert_float_equal(ex(s, s.sol_main.ex_player_win), EX_PLAYER_WIN);
    assert_float_equal(ex(s, s.sol_main.ex_tie), EX_TIE);
    assert_float_equal(1.0 + ex(s, s.sol_pair.ex_unsuit_pair), RTP_UNSUIT_PAIR);
    assert_float_equal(1.0 + ex(s, s.sol_pair.ex_either_pair), RTP_EITHER_PAIR);
    assert_float_equal(1.0 + ex(s, s.sol_pair.ex_suit_pair), RTP_PERFECT_PAIR);
    assert_float_equal(1.0 + ex(s, s.sol_bonus.ex_player_bonus), RTP_PLAYER_BONUS);
    assert_float_equal(1.0 + ex(s, s.sol_bonus.ex_banker_bonus), RTP_BANKER_BONUS);
}

#[test]
fn full_shoe_probabilities() {
    let rule = get_typical_rule();
    let mut counter = Counter::new(8);
    let mut solution = Solution::default();
    assert_eq!(calculate(&rule, &mut counter, &mut solution), Ok(()));
    let s = &solution;
    // 416 * 415 * 414 * 413 * 412 * 411
    assert_eq!(s.denominator, 4_998_398_275_503_360);
    // The well-known figures of the eight-deck game.
    assert!((p(s, s.sol_main.p_banker_win) - 0.458597).abs() < 1e-6);
    assert!((p(s, s.sol_main.p_player_win) - 0.446247).abs() < 1e-6);
    assert!((p(s, s.sol_main.p_tie) - 0.095156).abs() < 1e-6);
    // 13 ranks of 32 cards: 13 * 32 * 31 / (416 * 415).
    assert_eq!(
        s.sol_pair.p_unsuit_pair * 416 * 415,
        s.denominator * 13 * 32 * 31
    );
}

#[test]
fn main_outcomes_share_out_all_deals() {
    let rule = get_typical_rule();
    for decks in [1u32, 6, 8] {
        let mut counter = Counter::new(decks);
        let mut solution = Solution::default();
        assert_eq!(calculate(&rule, &mut counter, &mut solution), Ok(()));
        let m = &solution.sol_main;
        assert_eq!(
            m.p_player_win + m.p_banker_win + m.p_tie,
            solution.denominator
        );
    }
    let mut counter = counter_of(&[(0, 1), (3, 2), (20, 1), (33, 1), (51, 2)]);
    let mut solution = Solution::default();
    assert_eq!(calculate(&rule, &mut counter, &mut solution), Ok(()));
    let m = &solution.sol_main;
    assert_eq!(solution.denominator, 7 * 6 * 5 * 4 * 3 * 2);
    assert_eq!(
        m.p_player_win + m.p_banker_win + m.p_tie,
        solution.denominator
    );
}

#[test]
fn bonus_and_pair_counts_are_parts_of_the_deals() {
    let rule = get_typical_rule();
    let mut counter = Counter::new(8);
    counter.remove_card(Card::new(Suit::Spade, 9));
    counter.remove_card(Card::new(Suit::Heart, 13));
    let mut solution = Solution::default();
    assert_eq!(calculate(&rule, &mut counter, &mut solution), Ok(()));
    let d = solution.denominator;
    let b = &solution.sol_bonus;
    let player: u128 = b.p_player_bonus_unnatural.iter().sum::<u128>()
        + b.p_player_bonus_natural_win
        + b.p_bonus_natural_tie;
    let banker: u128 = b.p_banker_bonus_unnatural.iter().sum::<u128>()
        + b.p_banker_bonus_natural_win
        + b.p_bonus_natural_tie;
    assert!(player <= d);
    assert!(banker <= d);
    // Every win by a natural or by four and more is a win.
    assert!(player - b.p_bonus_natural_tie <= solution.sol_main.p_player_win);
    assert!(banker - b.p_bonus_natural_tie <= solution.sol_main.p_banker_win);
    assert!(b.p_bonus_natural_tie <= solution.sol_main.p_tie);
    let pair = &solution.sol_pair;
    assert!(pair.p_unsuit_pair <= d);
    assert!(pair.p_either_pair <= d);
    assert!(pair.p_suit_pair[0] + pair.p_suit_pair[1] <= d);
    assert!(pair.p_unsuit_pair <= pair.p_either_pair);
    assert!(pair.p_either_pair <= 2 * pair.p_unsuit_pair);
}

#[test]
fn calculate_leaves_the_counter_as_it_was() {
    let rule = get_typical_rule();
    let mut counter = Counter::new(8);
    counter.remove_card(Card::new(Suit::Club, 4));
    let before = counter;
    let mut solution = Solution::default();
    assert_eq!(calculate(&rule, &mut counter, &mut solution), Ok(()));
    assert_eq!(counter.get_total(), before.get_total());
    assert_eq!(counter.get_bcr_value_count(), before.get_bcr_value_count());
    assert_eq!(counter.get_value_count(), before.get_value_count());
    assert_eq!(counter.get_card_count(), before.get_card_count());
    assert_eq!(counter.get_total(), 415);
}

#[test]
fn a_single_point_value_gives_a_single_outcome() {
    // Six nines: both sides hold 9 + 9 = 18, a natural eight, and tie.
    let rule = get_typical_rule();
    let mut counter = counter_of(&[(8, 2), (21, 2), (34, 2)]);
    let mut solution = Solution::default();
    assert_eq!(calculate(&rule, &mut counter, &mut solution), Ok(()));
    let d = solution.denominator;
    assert_eq!(d, 720);
    assert_eq!(solution.sol_main.p_tie, d);
    assert_eq!(solution.sol_main.p_player_win, 0);
    assert_eq!(solution.sol_main.p_banker_win, 0);
    assert_eq!(solution.sol_bonus.p_bonus_natural_tie, d);
    assert_eq!(solution.sol_bonus.p_player_bonus_natural_win, 0);
    assert_eq!(solution.sol_bonus.p_player_bonus_unnatural, [0; 6]);
    assert_eq!(solution.sol_bonus.p_banker_bonus_unnatural, [0; 6]);
    // Every side holds two nines.
    assert_eq!(solution.sol_pair.p_unsuit_pair, d);
    assert_eq!(solution.sol_pair.p_either_pair, d);

    // Seven fives: 5 + 5 = 0 on both sides, both draw a five, and tie on five.
    let mut counter = counter_of(&[(4, 7)]);
    assert_eq!(calculate(&rule, &mut counter, &mut solution), Ok(()));
    let d = solution.denominator;
    assert_eq!(d, 7 * 6 * 5 * 4 * 3 * 2);
    assert_eq!(solution.sol_main.p_tie, d);
    assert_eq!(solution.sol_bonus.p_bonus_natural_tie, 0);
    assert_eq!(solution.sol_pair.p_suit_pair, [0, d]);
}

#[test]
fn two_eights_and_two_tens() {
    // Of the 24 deals, 16 give each side an eight and a ten: a natural tie.
    // In the other 8 a side holds 8 + 8 = 6 or 0 + 0 = 0 and a card is
    // wanted that is not there.
    let rule = get_typical_rule();
    let mut counter = counter_of(&[(7, 2), (9, 2)]);
    let mut solution = Solution::default();
    assert_eq!(calculate(&rule, &mut counter, &mut solution), Ok(()));
    assert_eq!(solution.denominator, 24);
    assert_eq!(solution.sol_main.p_tie, 16);
    assert_eq!(solution.sol_bonus.p_bonus_natural_tie, 16);
    assert_eq!(solution.sol_main.p_player_win, 0);
    assert_eq!(solution.sol_main.p_banker_win, 0);
    assert_eq!(solution.sol_bonus.p_player_bonus_natural_win, 0);
    assert_eq!(solution.sol_bonus.p_banker_bonus_natural_win, 0);
    // Tie pays 8 on 16 deals and loses on 8.
    assert_eq!(solution.sol_main.ex_tie, 16 * 80_000 - 8 * 10_000);
    assert_eq!(solution.sol_main.ex_player_win, 0);
    // A side holds a pair in 8 deals, both sides in 8.
    assert_eq!(solution.sol_pair.p_unsuit_pair, 8);
    assert_eq!(solution.sol_pair.p_either_pair, 8);
    assert_eq!(solution.sol_pair.p_suit_pair, [0, 8]);
}

#[test]
fn two_nines_and_two_tens_end_in_naturals() {
    // Player 9 + 9 = 8 against 0 + 0: a natural win, four deals each way;
    // 9 + 0 against 9 + 0: a natural tie, 16 deals.
    let rule = get_typical_rule();
    let mut counter = counter_of(&[(8, 2), (9, 2)]);
    let mut solution = Solution::default();
    assert_eq!(calculate(&rule, &mut counter, &mut solution), Ok(()));
    assert_eq!(solution.denominator, 24);
    assert_eq!(solution.sol_main.p_player_win, 4);
    assert_eq!(solution.sol_main.p_banker_win, 4);
    assert_eq!(solution.sol_main.p_tie, 16);
    assert_eq!(solution.sol_bonus.p_player_bonus_natural_win, 4);
    assert_eq!(solution.sol_bonus.p_banker_bonus_natural_win, 4);
    assert_eq!(solution.sol_bonus.p_bonus_natural_tie, 16);
    assert_eq!(solution.sol_bonus.p_player_bonus_unnatural, [0; 6]);
    // Player win: 4 deals paid 1, 4 deals lost.
    assert_eq!(solution.sol_main.ex_player_win, 0);
    // Banker win: 4 deals paid 0.95, 4 deals lost.
    assert_eq!(solution.sol_main.ex_banker_win, 4 * 9_500 - 4 * 10_000);
    // Bonus: 4 deals paid 1, 16 paid 0, 4 lost.
    assert_eq!(solution.sol_bonus.ex_player_bonus, 0);
}

struct Deal {
    player: usize,
    banker: usize,
    natural: bool,
}

fn point(card: usize) -> usize {
    let rank = card % 13 + 1;
    if rank >= 10 {
        0
    } else {
        rank
    }
}

fn banker_draws(banker: usize, third: usize) -> bool {
    const D: bool = true;
    const S: bool = false;
    const CHART: [[bool; 10]; 10] = [
        [D, D, D, D, D, D, D, D, D, D],
        [D, D, D, D, D, D, D, D, D, D],
        [D, D, D, D, D, D, D, D, D, D],
        [D, D, D, D, D, D, D, D, S, D],
        [S, S, D, D, D, D, D, D, S, S],
        [S, S, S, S, D, D, D, D, S, S],
        [S, S, S, S, S, S, D, D, S, S],
        [S, S, S, S, S, S, S, S, S, S],
        [S, S, S, S, S, S, S, S, S, S],
        [S, S, S, S, S, S, S, S, S, S],
    ];
    CHART[banker][third]
}

// Plays the round on six cards in the order in which they lie.
fn play(cards: &[usize]) -> Deal {
    let player = (point(cards[0]) + point(cards[1])) % 10;
    let banker = (point(cards[2]) + point(cards[3])) % 10;
    if player >= 8 || banker >= 8 {
        return Deal { player, banker, natural: true };
    }
    if player >= 6 {
        if banker >= 6 {
            return Deal { player, banker, natural: false };
        }
        return Deal { player, banker: (banker + point(cards[4])) % 10, natural: false };
    }
    let third = point(cards[4]);
    let player = (player + third) % 10;
    if banker_draws(banker, third) {
        return Deal { player, banker: (banker + point(cards[5])) % 10, natural: false };
    }
    Deal { player, banker, natural: false }
}

fn for_each_deal(shoe: &[usize], places: usize, chosen: &mut Vec<usize>, visit: &mut dyn FnMut(&[usize])) {
    if chosen.len() == places {
        let cards: Vec<usize> = chosen.iter().map(|i| shoe[*i]).collect();
        visit(&cards);
        return;
    }
    for i in 0..shoe.len() {
        if !chosen.contains(&i) {
            chosen.push(i);
            for_each_deal(shoe, places, chosen, visit);
            chosen.pop();
        }
    }
}

#[test]
fn every_count_agrees_with_dealing_the_shoe_out() {
    // A shoe of eight cards, two of them alike: all 8!/2! deals of six.
    let shoe: Vec<usize> = vec![0, 2, 2, 5, 19, 33, 47, 51];
    let mut count = [0u32; 52];
    for card in &shoe {
        count[*card] += 1;
    }
    let mut counter = Counter::with_card_count(&count);
    let rule = get_typical_rule();
    let mut solution = Solution::default();
    assert_eq!(calculate(&rule, &mut counter, &mut solution), Ok(()));

    let mut deals = 0u128;
    let (mut pw, mut bw, mut tie) = (0u128, 0u128, 0u128);
    let (mut pn, mut bn, mut nt) = (0u128, 0u128, 0u128);
    let mut pm = [0u128; 6];
    let mut bm = [0u128; 6];
    let (mut unsuit, mut either, mut one_perfect, mut two_perfect) = (0u128, 0u128, 0u128, 0u128);
    for_each_deal(&shoe, 6, &mut Vec::new(), &mut |cards| {
        deals += 1;
        let deal = play(cards);
        if deal.player > deal.banker {
            pw += 1;
            if deal.natural {
                pn += 1;
            } else if deal.player - deal.banker >= 4 {
                pm[deal.player - deal.banker - 4] += 1;
            }
        } else if deal.player < deal.banker {
            bw += 1;
            if deal.natural {
                bn += 1;
            } else if deal.banker - deal.player >= 4 {
                bm[deal.banker - deal.player - 4] += 1;
            }
        } else {
            tie += 1;
            if deal.natural {
                nt += 1;
            }
        }
        let player_pair = cards[0] % 13 == cards[1] % 13;
        let banker_pair = cards[2] % 13 == cards[3] % 13;
        if player_pair {
            unsuit += 1;
        }
        if player_pair || banker_pair {
            either += 1;
        }
        let perfect = (cards[0] == cards[1]) as u32 + (cards[2] == cards[3]) as u32;
        if perfect == 1 {
            one_perfect += 1;
        } else if perfect == 2 {
            two_perfect += 1;
        }
    });
    assert_eq!(solution.denominator, deals);
    assert_eq!(solution.sol_main.p_player_win, pw);
    assert_eq!(solution.sol_main.p_banker_win, bw);
    assert_eq!(solution.sol_main.p_tie, tie);
    assert_eq!(solution.sol_bonus.p_player_bonus_natural_win, pn);
    assert_eq!(solution.sol_bonus.p_banker_bonus_natural_win, bn);
    assert_eq!(solution.sol_bonus.p_bonus_natural_tie, nt);
    assert_eq!(solution.sol_bonus.p_player_bonus_unnatural, pm);
    assert_eq!(solution.sol_bonus.p_banker_bonus_unnatural, bm);
    assert_eq!(solution.sol_pair.p_unsuit_pair, unsuit);
    assert_eq!(solution.sol_pair.p_either_pair, either);
    assert_eq!(solution.sol_pair.p_suit_pair, [one_perfect, two_perfect]);
}

#[test]
fn either_pair_is_twice_one_side_less_both() {
    // A shoe with a lone card of its rank beside pairs: the deals in which
    // at least one side holds a pair, counted by dealing the shoe out.
    let shoe: Vec<usize> = vec![0, 13, 26, 1, 14, 5, 7];
    let mut count = [0u32; 52];
    for card in &shoe {
        count[*card] += 1;
    }
    let mut counter = Counter::with_card_count(&count);
    let rule = get_typical_rule();
    let mut solution = Solution::default();
    assert_eq!(calculate(&rule, &mut counter, &mut solution), Ok(()));
    let (mut one_side, mut only_player, mut both, mut either, mut deals) =
        (0u128, 0u128, 0u128, 0u128, 0u128);
    for_each_deal(&shoe, 6, &mut Vec::new(), &mut |cards| {
        deals += 1;
        let player_pair = cards[0] % 13 == cards[1] % 13;
        let banker_pair = cards[2] % 13 == cards[3] % 13;
        if player_pair {
            one_side += 1;
        }
        if player_pair && !banker_pair {
            only_player += 1;
        }
        if player_pair && banker_pair {
            both += 1;
        }
        if player_pair || banker_pair {
            either += 1;
        }
    });
    assert_eq!(solution.denominator, deals);
    assert_eq!(solution.sol_pair.p_either_pair, either);
    assert_eq!(solution.sol_pair.p_either_pair, 2 * only_player + both);
    assert_eq!(solution.sol_pair.p_unsuit_pair, one_side);
    assert_eq!(solution.sol_pair.p_unsuit_pair, only_player + both);
}

#[test]
fn too_few_and_too_many_cards_are_refused() {
    let rule = get_typical_rule();
    let mut solution = Solution::default();
    solution.sol_main.p_tie = 1;
    let before = solution;

    let mut counter = counter_of(&[(0, 3)]);
    assert_eq!(
        calculate(&rule, &mut counter, &mut solution),
        Err(SolveError::TooFewCards)
    );
    assert_eq!(solution, before);
    let mut counter = Counter::new(0);
    assert_eq!(
        calculate(&rule, &mut counter, &mut solution),
        Err(SolveError::TooFewCards)
    );

    let mut counter = Counter::new(1001);
    assert_eq!(
        calculate(&rule, &mut counter, &mut solution),
        Err(SolveError::TooManyCards)
    );
    assert_eq!(solution, before);

    let mut counter = counter_of(&[(0, 4)]);
    assert_eq!(calculate(&rule, &mut counter, &mut solution), Ok(()));
    assert_eq!(solution.denominator, 24);
}

#[test]
fn a_thousand_decks_are_solved() {
    let rule = get_typical_rule();
    let mut counter = Counter::new(1000);
    let mut solution = Solution::default();
    assert_eq!(calculate(&rule, &mut counter, &mut solution), Ok(()));
    let m = &solution.sol_main;
    assert_eq!(
        m.p_player_win + m.p_banker_win + m.p_tie,
        solution.denominator
    );
    assert!((ex(&solution, m.ex_banker_win) + 0.0106).abs() < 1e-3);
}

#[test]
fn solver_keeps_its_last_solution() {
    let rule = get_typical_rule();
    let mut solver = Solver::new(&rule);
    let counter = Counter::new(8);
    let solution = *solver.solve(&counter).unwrap();
    let mut direct = Solution::default();
    let mut copy = counter;
    assert_eq!(calculate(&rule, &mut copy, &mut direct), Ok(()));
    assert_eq!(solution, direct);
    assert!(matches!(
        solver.solve(&Counter::new(0)),
        Err(SolveError::TooFewCards)
    ));
    assert_eq!(*solver.solve(&counter).unwrap(), direct);
}

fn solution_with(denominator: u128) -> Solution {
    let mut solution = Solution::default();
    solution.denominator = denominator;
    solution
}

#[test]
fn expectations_follow_the_payouts() {
    let rule = get_typical_rule();
    let mut s = solution_with(100);
    s.sol_main.p_player_win = 45;
    s.sol_main.p_banker_win = 46;
    s.sol_main.p_tie = 9;
    s.sol_pair.p_unsuit_pair = 7;
    s.sol_pair.p_either_pair = 14;
    s.sol_pair.p_suit_pair = [3, 1];
    s.sol_bonus.p_player_bonus_unnatural = [6, 5, 4, 3, 2, 1];
    s.sol_bonus.p_player_bonus_natural_win = 16;
    s.sol_bonus.p_banker_bonus_unnatural = [1, 2, 3, 4, 5, 6];
    s.sol_bonus.p_banker_bonus_natural_win = 15;
    s.sol_bonus.p_bonus_natural_tie = 2;
    let before = s;
    s.calculate_ex_based_on_p(&rule);
    assert_eq!(s.sol_main.ex_player_win, 45 * 10_000 - 46 * 10_000);
    assert_eq!(s.sol_main.ex_banker_win, 46 * 9_500 - 45 * 10_000);
    assert_eq!(s.sol_main.ex_tie, 9 * 80_000 - 91 * 10_000);
    assert_eq!(s.sol_pair.ex_unsuit_pair, 7 * 110_000 - 93 * 10_000);
    assert_eq!(s.sol_pair.ex_either_pair, 14 * 50_000 - 86 * 10_000);
    assert_eq!(
        s.sol_pair.ex_suit_pair,
        3 * 250_000 + 2_000_000 - 96 * 10_000
    );
    // Paid: 16 naturals at 1, 2 ties at 0, margins at 1, 2, 4, 6, 10, 30.
    let paid = 16 + 6 + 5 * 2 + 4 * 4 + 3 * 6 + 2 * 10 + 30;
    let lost = 100 - 16 - 2 - 21;
    assert_eq!(s.sol_bonus.ex_player_bonus, (paid - lost) * 10_000);
    let paid = 15 + 1 + 2 * 2 + 3 * 4 + 4 * 6 + 5 * 10 + 6 * 30;
    let lost = 100 - 15 - 2 - 21;
    assert_eq!(s.sol_bonus.ex_banker_bonus, (paid - lost) * 10_000);
    // The counts stay.
    assert_eq!(s.denominator, before.denominator);
    assert_eq!(s.sol_main.p_player_win, before.sol_main.p_player_win);
    assert_eq!(s.sol_pair.p_suit_pair, before.sol_pair.p_suit_pair);
    assert_eq!(
        s.sol_bonus.p_banker_bonus_unnatural,
        before.sol_bonus.p_banker_bonus_unnatural
    );
}

#[test]
fn best_bets_of_a_full_shoe() {
    let rule = get_typical_rule();
    let mut counter = Counter::new(8);
    let mut solution = Solution::default();
    assert_eq!(calculate(&rule, &mut counter, &mut solution), Ok(()));
    let (main, side) = solution.get_best_main_side_bet(0);
    assert_eq!(main, (HandsBet::BankerWin, solution.sol_main.ex_banker_win));
    assert_eq!(side, (HandsBet::PlayerBonus, solution.sol_bonus.ex_player_bonus));
    // Only the main wagers on a side pay in more than half of the deals.
    let (main, side) = solution.get_best_main_side_bet(5_000);
    assert_eq!(main.0, HandsBet::BankerWin);
    assert_eq!(side, (HandsBet::PlaceHolder, i128::MIN));
    // Nothing pays in every deal.
    let (main, side) = solution.get_best_main_side_bet(10_000);
    assert_eq!(main, (HandsBet::PlaceHolder, i128::MIN));
    assert_eq!(side, (HandsBet::PlaceHolder, i128::MIN));
}

#[test]
fn best_bet_is_the_first_of_the_greatest_expectation() {
    let mut s = solution_with(100);
    s.sol_main.p_player_win = 40;
    s.sol_main.p_banker_win = 40;
    s.sol_main.p_tie = 20;
    s.sol_main.ex_player_win = 7;
    s.sol_main.ex_banker_win = 7;
    s.sol_main.ex_tie = 7;
    s.sol_pair.p_unsuit_pair = 10;
    s.sol_pair.ex_unsuit_pair = -5;
    s.sol_pair.p_either_pair = 20;
    s.sol_pair.ex_either_pair = 3;
    s.sol_pair.p_suit_pair = [30, 0];
    s.sol_pair.ex_suit_pair = 3;
    s.sol_bonus.p_player_bonus_natural_win = 50;
    s.sol_bonus.ex_player_bonus = 2;
    s.sol_bonus.p_banker_bonus_natural_win = 5;
    s.sol_bonus.ex_banker_bonus = 100;
    // The threshold is strict: 20 in 100 is not more than 2000 in 10000.
    let (main, side) = s.get_best_main_side_bet(2_000);
    assert_eq!(main, (HandsBet::PlayerWin, 7));
    assert_eq!(side, (HandsBet::PerfectPair, 3));
    let (main, side) = s.get_best_main_side_bet(1_999);
    assert_eq!(main, (HandsBet::PlayerWin, 7));
    assert_eq!(side, (HandsBet::EitherPair, 3));
    let (_, side) = s.get_best_main_side_bet(499);
    assert_eq!(side, (HandsBet::BankerBonus, 100));
    let (_, side) = s.get_best_main_side_bet(3_000);
    assert_eq!(side, (HandsBet::PlayerBonus, 2));
    let (main, _) = s.get_best_main_side_bet(6_000);
    assert_eq!(main, (HandsBet::PlaceHolder, i128::MIN));
}

#[test]
fn counter_counts_three_ways() {
    let mut counter = Counter::new(2);
    assert_eq!(counter.get_total(), 104);
    assert_eq!(counter.get_card_count(), &[2u32; 52]);
    assert_eq!(counter.get_value_count(), &[8u32; 13]);
    assert_eq!(
        counter.get_bcr_value_count(),
        &[32u32, 8, 8, 8, 8, 8, 8, 8, 8, 8]
    );
    counter.remove_card(Card::new(Suit::Heart, 12));
    assert_eq!(counter.get_total(), 103);
    assert_eq!(counter.get_card_count()[26 + 11], 1);
    assert_eq!(counter.get_value_count()[11], 7);
    assert_eq!(counter.get_bcr_value_count()[0], 31);
    counter.remove_card(Card::new(Suit::Diamond, 3));
    assert_eq!(counter.get_bcr_value_count()[3], 7);
    counter.add_card(Card::new(Suit::Heart, 12));
    counter.add_card(Card::new(Suit::Diamond, 3));
    assert_eq!(counter.get_card_count(), &[2u32; 52]);
    assert_eq!(counter.get_total(), 104);
    assert_eq!(counter.get_bcr_value_count()[0], 32);
}

#[test]
fn counter_from_card_counts() {
    let mut count = [0u32; 52];
    count[0] = 1; // ace of diamonds
    count[9] = 2; // ten of diamonds
    count[10] = 3; // jack of diamonds
    count[13 + 11] = 4; // queen of clubs
    count[39 + 12] = 5; // king of spades
    count[26 + 8] = 6; // nine of hearts
    let counter = Counter::with_card_count(&count);
    assert_eq!(counter.get_total(), 21);
    assert_eq!(counter.get_card_count(), &count);
    assert_eq!(
        counter.get_value_count(),
        &[1u32, 0, 0, 0, 0, 0, 0, 0, 6, 2, 3, 4, 5]
    );
    assert_eq!(
        counter.get_bcr_value_count(),
        &[14u32, 1, 0, 0, 0, 0, 0, 0, 0, 6]
    );
    let full = Counter::with_card_count(&[8u32; 52]);
    assert_eq!(full.get_bcr_value_count(), Counter::new(8).get_bcr_value_count());
    assert_eq!(full.get_total(), 416);
}

#[test]
fn lists_of_card_counts_are_checked() {
    assert!(matches!(
        Counter::try_with_card_count(&[1u32; 51]),
        Err(CompositionError::WrongLength)
    ));
    assert!(matches!(
        Counter::try_with_card_count(&[]),
        Err(CompositionError::WrongLength)
    ));
    assert!(matches!(
        Counter::try_with_card_count(&[u32::MAX / 52 + 1; 52]),
        Err(CompositionError::TooManyCards)
    ));
    let counter = Counter::try_with_card_count(&[u32::MAX / 52; 52]).unwrap();
    assert_eq!(counter.get_total(), u32::MAX / 52 * 52);
    let counter = Counter::try_with_card_count(&vec![8u32; 52]).unwrap();
    assert_eq!(counter.get_card_count(), Counter::new(8).get_card_count());
    assert_eq!(counter.get_bcr_value_count(), Counter::new(8).get_bcr_value_count());
}

#[test]
fn third_card_rule_is_the_chart() {
    for banker in 0..10 {
        for third in 0..10 {
            assert_eq!(rule_chart(banker, third), banker_draws(banker, third));
        }
    }
    assert!(rule_chart(0, 8));
    assert!(!rule_chart(3, 8));
    assert!(rule_chart(3, 9));
    assert!(!rule_chart(4, 1));
    assert!(rule_chart(4, 2));
    assert!(!rule_chart(5, 3));
    assert!(rule_chart(6, 6));
    assert!(!rule_chart(6, 8));
    assert!(!rule_chart(7, 7));
}
