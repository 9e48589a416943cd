//! The interface a bot implements, and the view of the game it is given.
//!
//! ```rust
//! use coup::bot::BotInterface;
//!
//! pub struct MyBot;
//!
//! impl BotInterface for MyBot {
//!     fn get_name(&self) -> String {
//!         String::from("Kate")
//!     }
//! }
//! ```
use vstd::prelude::*;

use crate::score::Score;
use crate::types::{Action, Card, History};

verus! {

/// A bot struct can be used to implement the [BotInterface] trait.
#[derive(Debug, Clone, Copy)]
pub struct Bot;

/// The public face of a bot that is still in the game.
#[derive(Debug, Clone, PartialEq)]
pub struct OtherBot {
    /// The bot's unique name.
    pub name: String,
    /// Its coins.
    pub coins: u8,
    /// How many cards it still holds.
    pub cards: u8,
}

/// What a bot is shown when it is asked to decide: its own hand and coins,
/// the public face of every other living bot, the discard pile, the history
/// and the score. It is a snapshot, built afresh for each question.
#[derive(Debug, Clone, PartialEq)]
pub struct Context {
    /// The bot's own name, as the engine made it unique.
    pub name: String,
    /// The bot's own cards.
    pub cards: Vec<Card>,
    /// The bot's own coins.
    pub coins: u8,
    /// Every other bot still in this game, in seating order.
    pub playing_bots: Vec<OtherBot>,
    /// Every card discarded so far in this game.
    pub discard_pile: Vec<Card>,
    /// Every event of this game so far.
    pub history: Vec<History>,
    /// The running score, in sixtieths of a point.
    pub score: Score,
}

/// Index of the first bot of `others` that is not called `own`, if any.
pub fn first_other(others: &Vec<OtherBot>, own: &String) -> (r: Option<usize>)
    ensures
        match r {
            Some(i) => i < others@.len() && others@[i as int].name@ != own@ && forall|j: int|
                0 <= j < i ==> (#[trigger] others@[j]).name@ == own@,
            None => forall|j: int| 0 <= j < others@.len() ==> (#[trigger] others@[j]).name@ == own@,
        },
{
    let mut i: usize = 0;
    while i < others.len()
        invariant
            i <= others@.len(),
            forall|j: int| 0 <= j < i ==> (#[trigger] others@[j]).name@ == own@,
        decreases others@.len() - i,
    {
        if !(others[i].name == *own) {
            return Some(i);
        }
        i = i + 1;
    }
    None
}

/// The two cards to hand back in a swap so as to keep the drawn cards
/// `new_cards`: the hand itself, or with a single card in hand, that card and
/// the second drawn one.
pub fn keep_drawn(new_cards: [Card; 2], hand: &Vec<Card>) -> (r: [Card; 2])
    ensures
        hand@.len() >= 2 ==> r@ == seq![hand@[0], hand@[1]],
        hand@.len() == 1 ==> r@ == seq![hand@[0], new_cards[1]],
        hand@.len() == 0 ==> r == new_cards,
{
    let n = hand.len();
    if n >= 2 {
        let r = [hand[0], hand[1]];
        assert(r@ =~= seq![hand@[0], hand@[1]]);
        r
    } else if n == 1 {
        let r = [hand[0], new_cards[1]];
        assert(r@ =~= seq![hand@[0], new_cards[1]]);
        r
    } else {
        new_cards
    }
}

/// What drives a bot. Every method but [BotInterface::get_name] has a
/// default: the behaviour of a bot that only ever takes income.
///
/// The engine assumes nothing of the answers: an answer that breaks the rules
/// is met with a penalty.
pub trait BotInterface {
    /// Called once when the game is created, to name the bot. A number is
    /// appended when another bot already has the name.
    fn get_name(&self) -> String;

    /// Called when it is the bot's turn. By default: [Action::Income].
    fn on_turn(&self, _context: &Context) -> Action {
        Action::Income
    }

    /// Called when the bot has ten coins or more and must coup; returns the
    /// target's name. By default: the first other bot in the game.
    fn on_auto_coup(&self, context: &Context) -> String {
        match first_other(&context.playing_bots, &context.name) {
            Some(i) => context.playing_bots[i].name.clone(),
            None => String::new(),
        }
    }

    /// Called when another bot declared an action that claims a card: does
    /// this bot challenge it? By default: never.
    fn on_challenge_action_round(&self, _action: &Action, _by: String, _context: &Context) -> bool {
        false
    }

    /// Called when an action may be blocked by this bot: does it counter? By
    /// default: never.
    fn on_counter(&self, _action: &Action, _by: String, _context: &Context) -> bool {
        false
    }

    /// Called when a bot countered: does this bot challenge the counter? By
    /// default: never.
    fn on_challenge_counter_round(&self, _action: &Action, _by: String, _context: &Context) -> bool {
        false
    }

    /// Called when the bot swaps with the Ambassador: it is shown the two
    /// cards drawn from the deck and returns the two cards, out of its hand
    /// and those two, that it hands back. It keeps the rest, so its number of
    /// cards does not change. By default it keeps the drawn cards: it hands
    /// back its own hand (with a single card, that card and the second drawn
    /// one).
    fn on_swapping_cards(&self, new_cards: [Card; 2], context: &Context) -> [Card; 2] {
        keep_drawn(new_cards, &context.cards)
    }

    /// Called when the bot must lose a card: which one. Naming a card it does
    /// not hold costs it its whole hand. By default: its last card.
    fn on_card_loss(&self, context: &Context) -> Card {
        let n = context.cards.len();
        if n > 0 {
            context.cards[n - 1]
        } else {
            Card::Duke
        }
    }
}

} // verus!
