//! A bot that only ever takes income.
use vstd::prelude::*;

use crate::bot::BotInterface;

verus! {

/// Takes income on every turn, until the engine forces it to coup. It never
/// challenges or counters.
pub struct StaticBot;

impl BotInterface for StaticBot {
    fn get_name(&self) -> (r: String)
        ensures
            r@ == "StaticBot"@,
    {
        String::from_str("StaticBot")
    }
}

} // verus!
