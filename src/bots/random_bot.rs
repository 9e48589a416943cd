//! A bot that answers at random.
use vstd::prelude::*;

use crate::bot::{BotInterface, Context, OtherBot};
use crate::deck::shuffle;
use crate::types::{Action, Card};

verus! {

broadcast use vstd::seq_lib::group_to_multiset_ensures;

/// Answers every question at random, within what it can name: a help to
/// test other bots, and the engine, against nonsense.
pub struct RandomBot;

/// The names of the bots of `others` that are not called `own`, shuffled.
fn other_names(others: &Vec<OtherBot>, own: &String) -> (r: Vec<String>)
    ensures
        forall|i: int| 0 <= i < r@.len() ==> (#[trigger] r@[i])@ != own@,
{
    let mut names: Vec<String> = Vec::new();
    let mut k: usize = 0;
    while k < others.len()
        invariant
            k <= others@.len(),
            forall|i: int| 0 <= i < names@.len() ==> (#[trigger] names@[i])@ != own@,
        decreases others@.len() - k,
    {
        if !(others[k].name == *own) {
            names.push(others[k].name.clone());
        }
        k = k + 1;
    }
    let ghost before = names@;
    shuffle(&mut names);
    proof {
        assert forall|i: int| 0 <= i < names@.len() implies (#[trigger] names@[i])@ != own@ by {
            assert(names@.to_multiset().count(names@[i]) > 0);
            assert(before.to_multiset().count(names@[i]) > 0);
            assert(before.contains(names@[i]));
        }
    }
    names
}

/// A random yes or no.
fn coin_flip() -> bool {
    let mut v: Vec<bool> = Vec::new();
    v.push(true);
    v.push(false);
    shuffle(&mut v);
    v[0]
}

impl BotInterface for RandomBot {
    fn get_name(&self) -> (r: String)
        ensures
            r@ == "RandomBot"@,
    {
        String::from_str("RandomBot")
    }

    fn on_turn(&self, context: &Context) -> Action {
        let targets = other_names(&context.playing_bots, &context.name);
        let target = if targets.len() > 0 {
            targets[0].clone()
        } else {
            String::new()
        };
        let mut actions: Vec<Action> = Vec::new();
        actions.push(Action::Assassination(target.clone()));
        actions.push(Action::Coup(target.clone()));
        actions.push(Action::ForeignAid);
        actions.push(Action::Swapping);
        actions.push(Action::Income);
        actions.push(Action::Stealing(target));
        actions.push(Action::Tax);
        shuffle(&mut actions);
        actions[0].duplicate()
    }

    fn on_auto_coup(&self, context: &Context) -> String {
        let targets = other_names(&context.playing_bots, &context.name);
        if targets.len() > 0 {
            targets[0].clone()
        } else {
            String::new()
        }
    }

    fn on_challenge_action_round(&self, _action: &Action, _by: String, _context: &Context) -> bool {
        coin_flip()
    }

    fn on_counter(&self, _action: &Action, _by: String, _context: &Context) -> bool {
        coin_flip()
    }

    fn on_challenge_counter_round(&self, _action: &Action, _by: String, _context: &Context) -> bool {
        coin_flip()
    }

    fn on_swapping_cards(&self, new_cards: [Card; 2], context: &Context) -> [Card; 2] {
        let mut pool = context.cards.clone();
        pool.push(new_cards[0]);
        pool.push(new_cards[1]);
        shuffle(&mut pool);
        [pool[0], pool[1]]
    }

    fn on_card_loss(&self, context: &Context) -> Card {
        let mut cards = context.cards.clone();
        if cards.len() == 0 {
            return Card::Duke;
        }
        shuffle(&mut cards);
        cards[0]
    }
}

} // verus!
