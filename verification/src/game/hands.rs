//! Hands, wagers, and what a wager comes to once the hands are dealt.

use vstd::prelude::*;
use crate::card::Card;
use crate::{Payouts, Rule, PAYOUT_SCALE};

verus! {

/// The cards of one side: two at first, and at most a third.
#[derive(Debug, Clone, Copy)]
pub struct Hand {
    initial: [Card; 2],
    third: Option<Card>,
}

/// The wagers of the table. `PlaceHolder` stands for no wager.
#[derive(Debug, Clone, Copy, PartialEq, Eq, Hash, Structural)]
pub enum HandsBet {
    PlayerWin,
    Tie,
    BankerWin,
    PlayerUnsuitPair,
    BankerUnsuitPair,
    EitherPair,
    PerfectPair,
    PlayerBonus,
    BankerBonus,
    PlaceHolder,
}

/// What a bonus wager is paid for: a natural win, a natural tie, or a win
/// by 4 to 9 without a natural.
#[derive(Debug, Clone, Copy, PartialEq, Eq, Structural)]
pub enum HandsResultBonus {
    NaturalWin,
    NaturalTie,
    UnnaturalBonus(u8),
}

/// What a wager came to. `PerfectPair` holds the number of perfect pairs,
/// one or two.
#[derive(Debug, Clone, Copy, PartialEq, Eq, Structural)]
pub enum HandsResult {
    Lose,
    PlayerWin,
    Tie,
    BankerWin,
    PlayerUnsuitPair,
    BankerUnsuitPair,
    EitherPair,
    PerfectPair(u8),
    PlayerBonus(HandsResultBonus),
    BankerBonus(HandsResultBonus),
}

impl Default for HandsResult {
    fn default() -> (result: Self)
        ensures
            result == HandsResult::Lose,
    {
        Self::Lose
    }
}

impl Hand {
    /// The first card.
    pub closed spec fn first(&self) -> Card {
        self.initial[0]
    }

    /// The second card.
    pub closed spec fn second(&self) -> Card {
        self.initial[1]
    }

    /// The third card, where one was drawn.
    pub closed spec fn third(&self) -> Option<Card> {
        self.third
    }

    #[verifier::type_invariant]
    spec fn inv(&self) -> bool {
        &&& self.initial[0].valid()
        &&& self.initial[1].valid()
        &&& self.third matches Some(c) ==> c.valid()
    }

    /// The sum of the first two cards, modulo ten.
    pub open spec fn initial_sum(&self) -> int {
        (self.first().point_value() + self.second().point_value()) % 10
    }

    /// The sum of the hand: the point values of its cards, modulo ten.
    pub open spec fn sum(&self) -> int {
        match self.third() {
            Some(c) => (self.first().point_value() + self.second().point_value()
                + c.point_value()) % 10,
            None => self.initial_sum(),
        }
    }

    /// A natural: two cards that sum to eight or nine.
    pub open spec fn natural(&self) -> bool {
        self.third() is None && self.initial_sum() >= 8
    }

    /// The first two cards are of one rank.
    pub open spec fn unsuit_pair(&self) -> bool {
        self.first().value == self.second().value
    }

    /// The first two cards are the same card.
    pub open spec fn suit_pair(&self) -> bool {
        self.first() == self.second()
    }

    /// A hand of two cards, or of three.
    pub fn new(initial: [Card; 2], third: Option<Card>) -> (hand: Hand)
        requires
            initial[0].valid(),
            initial[1].valid(),
            third matches Some(c) ==> c.valid(),
        ensures
            hand.first() == initial[0],
            hand.second() == initial[1],
            hand.third() == third,
    {
        Hand { initial, third }
    }

    pub fn is_natural(&self) -> (natural: bool)
        ensures
            natural == self.natural(),
    {
        proof {
            use_type_invariant(self);
        }
        if self.third.is_some() {
            return false;
        }
        (self.initial[0].to_bcr_value_index() + self.initial[1].to_bcr_value_index()) % 10 >= 8
    }

    pub fn get_sum(&self) -> (sum: u8)
        ensures
            sum == self.sum(),
            sum < 10,
    {
        proof {
            use_type_invariant(self);
        }
        let mut sum: usize = self.initial[0].to_bcr_value_index()
            + self.initial[1].to_bcr_value_index();
        if let Some(ref third_card) = self.third {
            sum = sum + third_card.to_bcr_value_index();
        }
        (sum % 10) as u8
    }

    pub fn is_initial_unsuit_pair(&self) -> (pair: bool)
        ensures
            pair == self.unsuit_pair(),
    {
        self.initial[0].value == self.initial[1].value
    }

    pub fn is_initial_suit_pair(&self) -> (pair: bool)
        ensures
            pair == self.suit_pair(),
    {
        self.initial[0] == self.initial[1]
    }
}

/// What a wager comes to on the hands of a round. A main wager on a side is
/// a `Tie` where the sums are equal; a bonus wager is paid on a natural win,
/// on a natural tie, and on a win by four or more without a natural.
pub open spec fn result_of(bet: HandsBet, player: Hand, banker: Hand) -> HandsResult {
    let p = player.sum();
    let b = banker.sum();
    match bet {
        HandsBet::PlayerWin => if p < b {
            HandsResult::Lose
        } else if p == b {
            HandsResult::Tie
        } else {
            HandsResult::PlayerWin
        },
        HandsBet::Tie => if p == b {
            HandsResult::Tie
        } else {
            HandsResult::Lose
        },
        HandsBet::BankerWin => if p < b {
            HandsResult::BankerWin
        } else if p == b {
            HandsResult::Tie
        } else {
            HandsResult::Lose
        },
        HandsBet::PlayerUnsuitPair => if player.unsuit_pair() {
            HandsResult::PlayerUnsuitPair
        } else {
            HandsResult::Lose
        },
        HandsBet::BankerUnsuitPair => if banker.unsuit_pair() {
            HandsResult::BankerUnsuitPair
        } else {
            HandsResult::Lose
        },
        HandsBet::EitherPair => if player.unsuit_pair() || banker.unsuit_pair() {
            HandsResult::EitherPair
        } else {
            HandsResult::Lose
        },
        HandsBet::PerfectPair => if player.suit_pair() && banker.suit_pair() {
            HandsResult::PerfectPair(2)
        } else if player.suit_pair() || banker.suit_pair() {
            HandsResult::PerfectPair(1)
        } else {
            HandsResult::Lose
        },
        HandsBet::PlayerBonus => match bonus_of(p, b, player.natural()) {
            Some(bonus) => HandsResult::PlayerBonus(bonus),
            None => HandsResult::Lose,
        },
        HandsBet::BankerBonus => match bonus_of(b, p, banker.natural()) {
            Some(bonus) => HandsResult::BankerBonus(bonus),
            None => HandsResult::Lose,
        },
        HandsBet::PlaceHolder => HandsResult::Lose,
    }
}

/// What the bonus wager on a side is paid for, where it is paid: `own` and
/// `other` are the sums of the side and of the other side.
pub open spec fn bonus_of(own: int, other: int, natural: bool) -> Option<HandsResultBonus> {
    if own < other {
        None
    } else if natural {
        if own > other {
            Some(HandsResultBonus::NaturalWin)
        } else {
            Some(HandsResultBonus::NaturalTie)
        }
    } else if own - other >= 4 {
        Some(HandsResultBonus::UnnaturalBonus((own - other) as u8))
    } else {
        None
    }
}

/// What the bonus wager on a side is paid for, where it is paid.
pub fn bonus_result(own: u8, other: u8, natural: bool) -> (bonus: Option<HandsResultBonus>)
    requires
        own < 10,
        other < 10,
    ensures
        bonus == bonus_of(own as int, other as int, natural),
{
    if own < other {
        None
    } else if natural {
        if own > other {
            Some(HandsResultBonus::NaturalWin)
        } else {
            Some(HandsResultBonus::NaturalTie)
        }
    } else if own - other >= 4 {
        Some(HandsResultBonus::UnnaturalBonus(own - other))
    } else {
        None
    }
}

/// What a wager comes to on the hands of a round.
pub fn resolve_bet(bet: HandsBet, player: &Hand, banker: &Hand) -> (result: HandsResult)
    ensures
        result == result_of(bet, *player, *banker),
{
    let player_sum = player.get_sum();
    let banker_sum = banker.get_sum();
    match bet {
        HandsBet::PlayerWin => {
            if player_sum < banker_sum {
                HandsResult::Lose
            } else if player_sum == banker_sum {
                HandsResult::Tie
            } else {
                HandsResult::PlayerWin
            }
        },
        HandsBet::Tie => {
            if player_sum == banker_sum {
                HandsResult::Tie
            } else {
                HandsResult::Lose
            }
        },
        HandsBet::BankerWin => {
            if player_sum < banker_sum {
                HandsResult::BankerWin
            } else if player_sum == banker_sum {
                HandsResult::Tie
            } else {
                HandsResult::Lose
            }
        },
        HandsBet::PlayerUnsuitPair => {
            if player.is_initial_unsuit_pair() {
                HandsResult::PlayerUnsuitPair
            } else {
                HandsResult::Lose
            }
        },
        HandsBet::BankerUnsuitPair => {
            if banker.is_initial_unsuit_pair() {
                HandsResult::BankerUnsuitPair
            } else {
                HandsResult::Lose
            }
        },
        HandsBet::EitherPair => {
            if player.is_initial_unsuit_pair() || banker.is_initial_unsuit_pair() {
                HandsResult::EitherPair
            } else {
                HandsResult::Lose
            }
        },
        HandsBet::PerfectPair => {
            let player_perfect = player.is_initial_suit_pair();
            let banker_perfect = banker.is_initial_suit_pair();
            if player_perfect && banker_perfect {
                HandsResult::PerfectPair(2)
            } else if player_perfect || banker_perfect {
                HandsResult::PerfectPair(1)
            } else {
                HandsResult::Lose
            }
        },
        HandsBet::PlayerBonus => {
            match bonus_result(player_sum, banker_sum, player.is_natural()) {
                Some(bonus) => HandsResult::PlayerBonus(bonus),
                None => HandsResult::Lose,
            }
        },
        HandsBet::BankerBonus => {
            match bonus_result(banker_sum, player_sum, banker.is_natural()) {
                Some(bonus) => HandsResult::BankerBonus(bonus),
                None => HandsResult::Lose,
            }
        },
        HandsBet::PlaceHolder => HandsResult::Lose,
    }
}


/// The greatest stake that can be placed on a wager.
pub const MAX_STAKE: i64 = 1_000_000_000_000;

impl HandsBet {
    /// The place of the wager in the order of the table; `PlaceHolder`
    /// comes last and has no stake.
    pub open spec fn place(self) -> int {
        match self {
            HandsBet::PlayerWin => 0,
            HandsBet::Tie => 1,
            HandsBet::BankerWin => 2,
            HandsBet::PlayerUnsuitPair => 3,
            HandsBet::BankerUnsuitPair => 4,
            HandsBet::EitherPair => 5,
            HandsBet::PerfectPair => 6,
            HandsBet::PlayerBonus => 7,
            HandsBet::BankerBonus => 8,
            HandsBet::PlaceHolder => 9,
        }
    }

    /// The wager at a place of the table.
    pub open spec fn at(place: int) -> HandsBet {
        if place == 0 {
            HandsBet::PlayerWin
        } else if place == 1 {
            HandsBet::Tie
        } else if place == 2 {
            HandsBet::BankerWin
        } else if place == 3 {
            HandsBet::PlayerUnsuitPair
        } else if place == 4 {
            HandsBet::BankerUnsuitPair
        } else if place == 5 {
            HandsBet::EitherPair
        } else if place == 6 {
            HandsBet::PerfectPair
        } else if place == 7 {
            HandsBet::PlayerBonus
        } else if place == 8 {
            HandsBet::BankerBonus
        } else {
            HandsBet::PlaceHolder
        }
    }

    /// The place of the wager in the order of the table.
    pub fn to_index(self) -> (place: usize)
        ensures
            place == self.place(),
            place <= 9,
            HandsBet::at(place as int) == self,
    {
        match self {
            HandsBet::PlayerWin => 0,
            HandsBet::Tie => 1,
            HandsBet::BankerWin => 2,
            HandsBet::PlayerUnsuitPair => 3,
            HandsBet::BankerUnsuitPair => 4,
            HandsBet::EitherPair => 5,
            HandsBet::PerfectPair => 6,
            HandsBet::PlayerBonus => 7,
            HandsBet::BankerBonus => 8,
            HandsBet::PlaceHolder => 9,
        }
    }

    /// The wager at a place of the table.
    pub fn from_index(place: usize) -> (bet: HandsBet)
        ensures
            bet == HandsBet::at(place as int),
            place < 9 ==> bet.place() == place,
    {
        if place == 0 {
            HandsBet::PlayerWin
        } else if place == 1 {
            HandsBet::Tie
        } else if place == 2 {
            HandsBet::BankerWin
        } else if place == 3 {
            HandsBet::PlayerUnsuitPair
        } else if place == 4 {
            HandsBet::BankerUnsuitPair
        } else if place == 5 {
            HandsBet::EitherPair
        } else if place == 6 {
            HandsBet::PerfectPair
        } else if place == 7 {
            HandsBet::PlayerBonus
        } else if place == 8 {
            HandsBet::BankerBonus
        } else {
            HandsBet::PlaceHolder
        }
    }
}

/// The stakes of a round: at most one on each wager, none on `PlaceHolder`,
/// each between zero and `MAX_STAKE`.
#[derive(Debug, Clone, Copy)]
pub struct Bets {
    stakes: [Option<i64>; 9],
}

impl Bets {
    /// The stake on each wager, in the order of the table.
    pub closed spec fn stakes(&self) -> Seq<Option<i64>> {
        self.stakes@
    }

    /// Every stake lies between zero and `MAX_STAKE`. This holds of all
    /// `Bets`.
    pub open spec fn wf(&self) -> bool {
        &&& self.stakes().len() == 9
        &&& forall|k: int|
            0 <= k < 9 ==> ((#[trigger] self.stakes()[k]) matches Some(m) ==> 0 <= m <= MAX_STAKE)
    }

    #[verifier::type_invariant]
    spec fn inv(&self) -> bool {
        self.wf()
    }

    /// No stakes.
    pub fn new() -> (bets: Bets)
        ensures
            bets.wf(),
            forall|k: int| 0 <= k < 9 ==> #[trigger] bets.stakes()[k] is None,
    {
        Bets { stakes: [None;9] }
    }

    /// Takes all stakes back.
    pub fn clear(&mut self)
        ensures
            final(self).wf(),
            forall|k: int| 0 <= k < 9 ==> #[trigger] final(self).stakes()[k] is None,
    {
        *self = Bets::new();
    }

    /// Places `money` on a wager, in place of what was on it, and says
    /// whether it did: no stake goes on `PlaceHolder`, and none that is
    /// negative or more than `MAX_STAKE`.
    pub fn insert(&mut self, bet: HandsBet, money: i64) -> (placed: bool)
        ensures
            final(self).wf(),
            placed == (bet != HandsBet::PlaceHolder && 0 <= money <= MAX_STAKE),
            placed ==> final(self).stakes() == old(self).stakes().update(
                bet.place(),
                Some(money),
            ),
            !placed ==> final(self).stakes() == old(self).stakes(),
    {
        proof {
            use_type_invariant(&*self);
        }
        let place = bet.to_index();
        if place >= 9 || money < 0 || money > MAX_STAKE {
            return false;
        }
        let mut stakes = self.stakes;
        stakes[place] = Some(money);
        *self = Bets { stakes };
        true
    }

    /// The stake on a wager, where one was placed.
    pub fn get(&self, bet: HandsBet) -> (stake: Option<i64>)
        ensures
            self.wf(),
            stake == if bet == HandsBet::PlaceHolder {
                None
            } else {
                self.stakes()[bet.place()]
            },
            stake matches Some(m) ==> 0 <= m <= MAX_STAKE,
    {
        proof {
            use_type_invariant(self);
        }
        let place = bet.to_index();
        if place >= 9 {
            None
        } else {
            self.stakes[place]
        }
    }

    /// The number of wagers with a stake.
    pub fn len(&self) -> (n: usize)
        ensures
            n == placed_below(self.stakes(), 9),
            n <= 9,
    {
        let mut n: usize = 0;
        let mut k: usize = 0;
        while k < 9
            invariant
                k <= 9,
                n <= k,
                n == placed_below(self.stakes(), k as int),
            decreases 9 - k,
        {
            if self.stakes[k].is_some() {
                n += 1;
            }
            k += 1;
        }
        n
    }
}

/// The number of stakes at the first `n` places of the table.
pub open spec fn placed_below(stakes: Seq<Option<i64>>, n: int) -> int
    decreases n,
{
    if n <= 0 {
        0
    } else {
        placed_below(stakes, n - 1) + if stakes[n - 1] is Some {
            1int
        } else {
            0int
        }
    }
}

/// What a stake is paid at a rate: the whole units of `money * rate` parts
/// in `PAYOUT_SCALE`.
pub open spec fn paid_at(money: int, rate: int) -> int {
    money * rate / (PAYOUT_SCALE as int)
}

/// The rate at which a bonus wager is paid.
pub open spec fn bonus_rate(bonus: HandsResultBonus, payouts: Payouts) -> int {
    match bonus {
        HandsResultBonus::NaturalWin => payouts.bonus_natural_win as int,
        HandsResultBonus::NaturalTie => payouts.bonus_natural_tie as int,
        HandsResultBonus::UnnaturalBonus(margin) => payouts.bonus_unnatural[margin - 4] as int,
    }
}

/// A result is one that `result_of` gives: a perfect pair counts one or two
/// pairs, a margin lies between four and nine.
pub open spec fn is_result(result: HandsResult) -> bool {
    match result {
        HandsResult::PerfectPair(n) => 1 <= n <= 2,
        HandsResult::PlayerBonus(HandsResultBonus::UnnaturalBonus(m)) => 4 <= m <= 9,
        HandsResult::BankerBonus(HandsResultBonus::UnnaturalBonus(m)) => 4 <= m <= 9,
        _ => true,
    }
}

/// What a wager with the stake `money` brings: the stake is lost where the
/// wager loses, handed back where a wager on a side meets a tie, and paid
/// at the rate of the result otherwise.
pub open spec fn profit_of(bet: HandsBet, result: HandsResult, money: int, payouts: Payouts) -> int {
    match result {
        HandsResult::Lose => -money,
        HandsResult::Tie => if bet == HandsBet::Tie {
            paid_at(money, payouts.tie as int)
        } else {
            0
        },
        HandsResult::PlayerWin => paid_at(money, payouts.player_win as int),
        HandsResult::BankerWin => paid_at(money, payouts.banker_win as int),
        HandsResult::PlayerUnsuitPair => paid_at(money, payouts.unsuit_pair as int),
        HandsResult::BankerUnsuitPair => paid_at(money, payouts.unsuit_pair as int),
        HandsResult::EitherPair => paid_at(money, payouts.either_pair as int),
        HandsResult::PerfectPair(n) => paid_at(money, payouts.perfect_pair[n - 1] as int),
        HandsResult::PlayerBonus(bonus) => paid_at(money, bonus_rate(bonus, payouts)),
        HandsResult::BankerBonus(bonus) => paid_at(money, bonus_rate(bonus, payouts)),
    }
}

/// No stake brings or costs more than this.
pub const MAX_PROFIT: i64 = 429_496_729_500_000_000;

pub proof fn lemma_result_of_is_result(bet: HandsBet, player: Hand, banker: Hand)
    ensures
        is_result(result_of(bet, player, banker)),
{
}

/// What a stake is paid at a rate.
fn pay(money: i64, rate: u32) -> (paid: i64)
    requires
        0 <= money <= MAX_STAKE,
    ensures
        paid == paid_at(money as int, rate as int),
        0 <= paid <= MAX_PROFIT,
{
    assert(0 <= money * rate <= MAX_STAKE * 0xffff_ffff) by (nonlinear_arith)
        requires
            0 <= money <= MAX_STAKE,
            0 <= rate <= 0xffff_ffff,
    ;
    let product: i128 = (money as i128) * (rate as i128);
    (product / (PAYOUT_SCALE as i128)) as i64
}

/// What a wager with the stake `money` brings on a result.
pub fn settle(bet: HandsBet, result: HandsResult, money: i64, payouts: &Payouts) -> (profit: i64)
    requires
        0 <= money <= MAX_STAKE,
        is_result(result),
    ensures
        profit == profit_of(bet, result, money as int, *payouts),
        -MAX_PROFIT <= profit <= MAX_PROFIT,
{
    match result {
        HandsResult::Lose => -money,
        HandsResult::Tie => {
            match bet {
                HandsBet::Tie => pay(money, payouts.tie),
                _ => 0,
            }
        },
        HandsResult::PlayerWin => pay(money, payouts.player_win),
        HandsResult::BankerWin => pay(money, payouts.banker_win),
        HandsResult::PlayerUnsuitPair => pay(money, payouts.unsuit_pair),
        HandsResult::BankerUnsuitPair => pay(money, payouts.unsuit_pair),
        HandsResult::EitherPair => pay(money, payouts.either_pair),
        HandsResult::PerfectPair(n) => pay(money, payouts.perfect_pair[(n - 1) as usize]),
        HandsResult::PlayerBonus(bonus) => pay(money, bonus_payout(bonus, payouts)),
        HandsResult::BankerBonus(bonus) => pay(money, bonus_payout(bonus, payouts)),
    }
}

/// The rate at which a bonus wager is paid.
fn bonus_payout(bonus: HandsResultBonus, payouts: &Payouts) -> (rate: u32)
    requires
        bonus matches HandsResultBonus::UnnaturalBonus(m) ==> 4 <= m <= 9,
    ensures
        rate == bonus_rate(bonus, *payouts),
{
    match bonus {
        HandsResultBonus::NaturalWin => payouts.bonus_natural_win,
        HandsResultBonus::NaturalTie => payouts.bonus_natural_tie,
        HandsResultBonus::UnnaturalBonus(margin) => payouts.bonus_unnatural[(margin - 4) as usize],
    }
}

/// What one wager came to, and what it brought.
#[derive(Debug, Clone, Copy, PartialEq, Eq, Structural)]
pub struct RoundBetResult(pub HandsResult, pub i64);

impl Default for RoundBetResult {
    fn default() -> (result: Self)
        ensures
            result == RoundBetResult(HandsResult::Lose, 0),
    {
        RoundBetResult(HandsResult::Lose, 0)
    }
}

/// What the wager at a place of the table comes to on the hands of a round,
/// where a stake was placed on it.
pub open spec fn detail_of(stake: Option<i64>, place: int, player: Hand, banker: Hand, payouts: Payouts)
    -> Option<RoundBetResult> {
    match stake {
        Some(money) => {
            let bet = HandsBet::at(place);
            let result = result_of(bet, player, banker);
            Some(RoundBetResult(result, profit_of(bet, result, money as int, payouts) as i64))
        },
        None => None,
    }
}

/// What the stakes at the first `n` places of the table bring in all.
pub open spec fn profit_below(stakes: Seq<Option<i64>>, player: Hand, banker: Hand, payouts: Payouts, n: int)
    -> int
    decreases n,
{
    if n <= 0 {
        0
    } else {
        profit_below(stakes, player, banker, payouts, n - 1) + match stakes[n - 1] {
            Some(money) => {
                let bet = HandsBet::at(n - 1);
                profit_of(bet, result_of(bet, player, banker), money as int, payouts)
            },
            None => 0,
        }
    }
}

/// What a round came to: for every wager with a stake its result, and what
/// the stakes brought in all.
#[derive(Debug, Clone)]
pub struct RoundResult<'a> {
    /// The rule by which wagers are paid.
    pub rule: &'a Rule,
    /// How much the stakes brought: negative where they cost more than they
    /// won.
    pub total_profit: i64,
    /// The results, in the order of the table.
    pub details: [Option<RoundBetResult>; 9],
}

impl<'a> RoundResult<'a> {
    /// The result of no round under a rule.
    pub fn new(rule: &'a Rule) -> (result: Self)
        ensures
            *result.rule == *rule,
            result.total_profit == 0,
            forall|k: int| 0 <= k < 9 ==> #[trigger] result.details[k] is None,
    {
        Self { rule, total_profit: 0, details: [None;9] }
    }

    /// The result of a wager, where it had a stake.
    pub fn get(&self, bet: HandsBet) -> (detail: Option<RoundBetResult>)
        ensures
            detail == if bet == HandsBet::PlaceHolder {
                None
            } else {
                self.details[bet.place()]
            },
    {
        let place = bet.to_index();
        if place >= 9 {
            None
        } else {
            self.details[place]
        }
    }

    /// Settles the stakes of a round on its hands.
    pub fn calculate_with_hands_and_bet(&mut self, player: &Hand, banker: &Hand, bets: &Bets)
        ensures
            *final(self).rule == *old(self).rule,
            forall|k: int|
                0 <= k < 9 ==> #[trigger] final(self).details[k] == detail_of(
                    bets.stakes()[k],
                    k,
                    *player,
                    *banker,
                    old(self).rule.payouts,
                ),
            final(self).total_profit == profit_below(
                bets.stakes(),
                *player,
                *banker,
                old(self).rule.payouts,
                9,
            ),
    {
        let payouts = &self.rule.payouts;
        let mut total: i64 = 0;
        let mut details: [Option<RoundBetResult>; 9] = [None;9];
        let mut k: usize = 0;
        while k < 9
            invariant
                k <= 9,
                *payouts == self.rule.payouts,
                total == profit_below(bets.stakes(), *player, *banker, *payouts, k as int),
                -k * MAX_PROFIT <= total <= k * MAX_PROFIT,
                forall|j: int|
                    0 <= j < k ==> #[trigger] details[j] == detail_of(
                        bets.stakes()[j],
                        j,
                        *player,
                        *banker,
                        *payouts,
                    ),
                forall|j: int| k <= j < 9 ==> #[trigger] details[j] is None,
            decreases 9 - k,
        {
            let bet = HandsBet::from_index(k);
            match bets.get(bet) {
                Some(money) => {
                    let result = resolve_bet(bet, player, banker);
                    let profit = settle(bet, result, money, payouts);
                    details[k] = Some(RoundBetResult(result, profit));
                    total = total + profit;
                },
                None => {},
            }
            k += 1;
        }
        self.total_profit = total;
        self.details = details;
    }
}

} // verus!
