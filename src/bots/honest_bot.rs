//! A bot that never bluffs.
use vstd::prelude::*;

use crate::bot::{BotInterface, Context, OtherBot};
use crate::types::{
    action_claim, action_counter, backs_counter, claim_of, counter_of, hand_backs_counter, holds,
    Action, Card, Counter,
};

verus! {

broadcast use vstd::seq_lib::group_to_multiset_ensures;

/// Acts on the cards it holds, counters only with the card to do it, and
/// challenges only what it knows to be a bluff.
pub struct HonestBot;

/// Index of the first bot of `others`, other than `own`, with the fewest
/// cards.
pub fn fewest_cards(others: &Vec<OtherBot>, own: &String) -> (r: Option<usize>)
    ensures
        match r {
            Some(i) => {
                &&& i < others@.len()
                &&& others@[i as int].name@ != own@
                &&& forall|j: int|
                    0 <= j < others@.len() && (#[trigger] others@[j]).name@ != own@
                        ==> others@[i as int].cards <= others@[j].cards
                &&& forall|j: int|
                    0 <= j < i && (#[trigger] others@[j]).name@ != own@ ==> others@[i as int].cards
                        < others@[j].cards
            },
            None => forall|j: int| 0 <= j < others@.len() ==> (#[trigger] others@[j]).name@ == own@,
        },
{
    let mut best: Option<usize> = None;
    let mut k: usize = 0;
    while k < others.len()
        invariant
            k <= others@.len(),
            match best {
                Some(i) => {
                    &&& i < k
                    &&& others@[i as int].name@ != own@
                    &&& forall|j: int|
                        0 <= j < k && (#[trigger] others@[j]).name@ != own@
                            ==> others@[i as int].cards <= others@[j].cards
                    &&& forall|j: int|
                        0 <= j < i && (#[trigger] others@[j]).name@ != own@
                            ==> others@[i as int].cards < others@[j].cards
                },
                None => forall|j: int| 0 <= j < k ==> (#[trigger] others@[j]).name@ == own@,
            },
        decreases others@.len() - k,
    {
        if !(others[k].name == *own) {
            match best {
                Some(i) => {
                    if others[k].cards < others[i].cards {
                        best = Some(k);
                    }
                },
                None => {
                    best = Some(k);
                },
            }
        }
        k = k + 1;
    }
    best
}

/// How many copies of `card` a bot sees: in its hand and in the discard pile.
pub open spec fn visible(context: Context, card: Card) -> nat {
    context.cards@.to_multiset().count(card) + context.discard_pile@.to_multiset().count(card)
}

/// How many copies of `card` are in `cards`.
pub fn count_of(cards: &Vec<Card>, card: Card) -> (r: usize)
    ensures
        r == cards@.to_multiset().count(card),
{
    let mut n: usize = 0;
    let mut i: usize = 0;
    while i < cards.len()
        invariant
            i <= cards@.len(),
            n == cards@.take(i as int).to_multiset().count(card),
            n <= i,
        decreases cards@.len() - i,
    {
        assert(cards@.take(i + 1) =~= cards@.take(i as int).push(cards@[i as int]));
        if cards[i] == card {
            n = n + 1;
        }
        i = i + 1;
    }
    assert(cards@.take(i as int) =~= cards@);
    n
}

/// Whether the bot of `context` sees all three copies of `card`, so that
/// nobody else can hold one.
pub fn sees_all(context: &Context, card: Card) -> (r: bool)
    ensures
        r == (visible(*context, card) == 3),
{
    let in_hand = count_of(&context.cards, card);
    let in_pile = count_of(&context.discard_pile, card);
    in_hand <= 3 && in_pile == 3 - in_hand
}

/// What an honest bot does on its turn: assassinates (with an Assassin and
/// three coins), else steals (with a Captain), else takes tax (with a Duke),
/// else takes income. Its target is the other bot with the fewest cards.
pub fn honest_action(context: &Context) -> (r: Action)
    ensures
        ({
            let hand = context.cards@;
            match r {
                Action::Assassination(_) => hand.contains(Card::Assassin) && context.coins >= 3,
                Action::Stealing(_) => hand.contains(Card::Captain) && !(hand.contains(Card::Assassin)
                    && context.coins >= 3),
                Action::Tax => hand.contains(Card::Duke) && !hand.contains(Card::Captain) && !(
                hand.contains(Card::Assassin) && context.coins >= 3),
                Action::Income => !hand.contains(Card::Duke) && !hand.contains(Card::Captain) && !(
                hand.contains(Card::Assassin) && context.coins >= 3),
                _ => false,
            }
        }),
{
    let target = match fewest_cards(&context.playing_bots, &context.name) {
        Some(i) => context.playing_bots[i].name.clone(),
        None => String::new(),
    };
    if holds(&context.cards, Card::Assassin) && context.coins >= 3 {
        Action::Assassination(target)
    } else if holds(&context.cards, Card::Captain) {
        Action::Stealing(target)
    } else if holds(&context.cards, Card::Duke) {
        Action::Tax
    } else {
        Action::Income
    }
}

impl BotInterface for HonestBot {
    fn get_name(&self) -> (r: String)
        ensures
            r@ == "HonestBot"@,
    {
        String::from_str("HonestBot")
    }

    fn on_turn(&self, context: &Context) -> Action {
        honest_action(context)
    }

    fn on_auto_coup(&self, context: &Context) -> String {
        match fewest_cards(&context.playing_bots, &context.name) {
            Some(i) => context.playing_bots[i].name.clone(),
            None => String::new(),
        }
    }

    fn on_challenge_action_round(&self, action: &Action, _by: String, context: &Context) -> (r: bool)
        ensures
            r == (action_claim(*action) is Some && visible(*context, action_claim(*action)->0) == 3),
    {
        match claim_of(action) {
            Some(card) => sees_all(context, card),
            None => false,
        }
    }

    fn on_counter(&self, action: &Action, _by: String, context: &Context) -> (r: bool)
        ensures
            r == (action_counter(*action) is Some && hand_backs_counter(
                context.cards@,
                action_counter(*action)->0,
            )),
    {
        match counter_of(action) {
            Some(counter) => backs_counter(&context.cards, counter),
            None => false,
        }
    }

    fn on_challenge_counter_round(&self, action: &Action, _by: String, context: &Context) -> bool {
        match action {
            Action::Assassination(_) => sees_all(context, Card::Contessa),
            Action::ForeignAid => holds(&context.cards, Card::Duke),
            Action::Stealing(_) => sees_all(context, Card::Captain) && sees_all(
                context,
                Card::Ambassador,
            ),
            _ => false,
        }
    }

    fn on_swapping_cards(&self, new_cards: [Card; 2], context: &Context) -> [Card; 2] {
        if context.cards.len() >= 2 && context.cards[0] == context.cards[1] {
            [context.cards[0], new_cards[1]]
        } else {
            new_cards
        }
    }
}

} // verus!
