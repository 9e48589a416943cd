//! Cards, actions, counters and the history log of a game.
use vstd::prelude::*;

verus! {

/// One of the five character cards; the deck holds three of each.
#[derive(Debug, Clone, Copy, PartialEq, Eq, Structural)]
pub enum Card {
    /// Swaps cards with the deck; blocks stealing.
    Ambassador,
    /// Pays three coins to assassinate.
    Assassin,
    /// Steals up to two coins; blocks stealing.
    Captain,
    /// Blocks an assassination.
    Contessa,
    /// Takes tax; blocks foreign aid.
    Duke,
}

/// What a participant declares on its turn. Targets are participant names.
#[derive(Debug, Clone, PartialEq, Eq)]
pub enum Action {
    Assassination(String),
    Coup(String),
    ForeignAid,
    Swapping,
    Income,
    Stealing(String),
    Tax,
}

/// A block declared against an action.
#[derive(Debug, Clone, Copy, PartialEq, Eq, Structural)]
pub enum Counter {
    /// Claims a Contessa.
    Assassination,
    /// Claims a Duke.
    ForeignAid,
    /// Claims a Captain or an Ambassador.
    Stealing,
}

/// Which claim a challenge round disputes.
#[derive(Debug, Clone, Copy, PartialEq, Eq, Structural)]
pub enum ChallengeRound {
    Action,
    Counter,
}

/// One entry of the append-only log that every participant sees.
#[derive(Debug, Clone, PartialEq, Eq)]
pub enum History {
    ActionAssassination { by: String, target: String },
    ActionCoup { by: String, target: String },
    ActionForeignAid { by: String },
    ActionSwapping { by: String },
    ActionIncome { by: String },
    ActionStealing { by: String, target: String },
    ActionTax { by: String },
    ChallengeAssassin { by: String, target: String },
    ChallengeAmbassador { by: String, target: String },
    ChallengeCaptain { by: String, target: String },
    ChallengeDuke { by: String, target: String },
    CounterAssassination { by: String, target: String },
    CounterForeignAid { by: String, target: String },
    CounterStealing { by: String, target: String },
    CounterChallengeContessa { by: String, target: String },
    CounterChallengeDuke { by: String, target: String },
    CounterChallengeCaptainAmbassedor { by: String, target: String },
}

/// The card that an action implicitly claims, if it claims one.
pub open spec fn action_claim(action: Action) -> Option<Card> {
    match action {
        Action::Assassination(_) => Some(Card::Assassin),
        Action::Swapping => Some(Card::Ambassador),
        Action::Stealing(_) => Some(Card::Captain),
        Action::Tax => Some(Card::Duke),
        _ => None,
    }
}

/// The block that the target (or, for foreign aid, anyone) may declare.
pub open spec fn action_counter(action: Action) -> Option<Counter> {
    match action {
        Action::Assassination(_) => Some(Counter::Assassination),
        Action::ForeignAid => Some(Counter::ForeignAid),
        Action::Stealing(_) => Some(Counter::Stealing),
        _ => None,
    }
}

/// Whether holding `card` backs up the claim of `counter`.
pub open spec fn counter_backed_by(counter: Counter, card: Card) -> bool {
    match counter {
        Counter::Assassination => card == Card::Contessa,
        Counter::ForeignAid => card == Card::Duke,
        Counter::Stealing => card == Card::Captain || card == Card::Ambassador,
    }
}

/// Whether a hand backs up the claim of `counter`.
pub open spec fn hand_backs_counter(hand: Seq<Card>, counter: Counter) -> bool {
    exists|i: int| 0 <= i < hand.len() && counter_backed_by(counter, #[trigger] hand[i])
}

pub fn claim_of(action: &Action) -> (r: Option<Card>)
    ensures
        r == action_claim(*action),
{
    match action {
        Action::Assassination(_) => Some(Card::Assassin),
        Action::Swapping => Some(Card::Ambassador),
        Action::Stealing(_) => Some(Card::Captain),
        Action::Tax => Some(Card::Duke),
        _ => None,
    }
}

pub fn counter_of(action: &Action) -> (r: Option<Counter>)
    ensures
        r == action_counter(*action),
{
    match action {
        Action::Assassination(_) => Some(Counter::Assassination),
        Action::ForeignAid => Some(Counter::ForeignAid),
        Action::Stealing(_) => Some(Counter::Stealing),
        _ => None,
    }
}

/// Whether `hand` holds `card`.
pub fn holds(hand: &Vec<Card>, card: Card) -> (r: bool)
    ensures
        r == hand@.contains(card),
{
    let mut i: usize = 0;
    while i < hand.len()
        invariant
            i <= hand@.len(),
            forall|j: int| 0 <= j < i ==> hand@[j] != card,
        decreases hand@.len() - i,
    {
        if hand[i] == card {
            return true;
        }
        i = i + 1;
    }
    false
}

/// The log entry of `action` declared by `by`.
pub open spec fn action_event(action: Action, by: String) -> History {
    match action {
        Action::Assassination(target) => History::ActionAssassination { by, target },
        Action::Coup(target) => History::ActionCoup { by, target },
        Action::ForeignAid => History::ActionForeignAid { by },
        Action::Swapping => History::ActionSwapping { by },
        Action::Income => History::ActionIncome { by },
        Action::Stealing(target) => History::ActionStealing { by, target },
        Action::Tax => History::ActionTax { by },
    }
}

/// The target `action` names, if it names one.
pub open spec fn action_target(action: Action) -> Option<String> {
    match action {
        Action::Assassination(target) => Some(target),
        Action::Coup(target) => Some(target),
        Action::Stealing(target) => Some(target),
        _ => None,
    }
}

/// The log entry of a challenge by `by` of the card that `action` claims for
/// `target`.
pub open spec fn challenge_event(action: Action, by: String, target: String) -> History {
    match action {
        Action::Assassination(_) => History::ChallengeAssassin { by, target },
        Action::Swapping => History::ChallengeAmbassador { by, target },
        Action::Stealing(_) => History::ChallengeCaptain { by, target },
        _ => History::ChallengeDuke { by, target },
    }
}

/// The log entry of a challenge by `by` of the block `counter` declared by
/// `target`.
pub open spec fn counter_challenge_event(counter: Counter, by: String, target: String) -> History {
    match counter {
        Counter::Assassination => History::CounterChallengeContessa { by, target },
        Counter::ForeignAid => History::CounterChallengeDuke { by, target },
        Counter::Stealing => History::CounterChallengeCaptainAmbassedor { by, target },
    }
}

/// The log entry of a block `counter` declared by `by` against `target`.
pub open spec fn counter_event(counter: Counter, by: String, target: String) -> History {
    match counter {
        Counter::Assassination => History::CounterAssassination { by, target },
        Counter::ForeignAid => History::CounterForeignAid { by, target },
        Counter::Stealing => History::CounterStealing { by, target },
    }
}

pub fn make_challenge_event(action: &Action, by: String, target: String) -> (r: History)
    requires
        action_claim(*action) is Some,
    ensures
        r == challenge_event(*action, by, target),
{
    match action {
        Action::Assassination(_) => History::ChallengeAssassin { by, target },
        Action::Swapping => History::ChallengeAmbassador { by, target },
        Action::Stealing(_) => History::ChallengeCaptain { by, target },
        _ => History::ChallengeDuke { by, target },
    }
}

pub fn make_counter_challenge_event(counter: Counter, by: String, target: String) -> (r: History)
    ensures
        r == counter_challenge_event(counter, by, target),
{
    match counter {
        Counter::Assassination => History::CounterChallengeContessa { by, target },
        Counter::ForeignAid => History::CounterChallengeDuke { by, target },
        Counter::Stealing => History::CounterChallengeCaptainAmbassedor { by, target },
    }
}

pub fn make_counter_event(counter: Counter, by: String, target: String) -> (r: History)
    ensures
        r == counter_event(counter, by, target),
{
    match counter {
        Counter::Assassination => History::CounterAssassination { by, target },
        Counter::ForeignAid => History::CounterForeignAid { by, target },
        Counter::Stealing => History::CounterStealing { by, target },
    }
}

/// Whether `hand` holds a card that backs up `counter`.
pub fn backs_counter(hand: &Vec<Card>, counter: Counter) -> (r: bool)
    ensures
        r == hand_backs_counter(hand@, counter),
{
    let mut i: usize = 0;
    while i < hand.len()
        invariant
            i <= hand@.len(),
            forall|j: int| 0 <= j < i ==> !counter_backed_by(counter, #[trigger] hand@[j]),
        decreases hand@.len() - i,
    {
        let c = hand[i];
        let backed = match counter {
            Counter::Assassination => c == Card::Contessa,
            Counter::ForeignAid => c == Card::Duke,
            Counter::Stealing => c == Card::Captain || c == Card::Ambassador,
        };
        if backed {
            return true;
        }
        i = i + 1;
    }
    false
}


impl History {
    /// A copy of this event.
    pub fn duplicate(&self) -> (r: History)
        ensures
            r == *self,
    {
        match self {
            History::ActionAssassination { by, target } => History::ActionAssassination { by: by.clone(), target: target.clone() },
            History::ActionCoup { by, target } => History::ActionCoup { by: by.clone(), target: target.clone() },
            History::ActionStealing { by, target } => History::ActionStealing { by: by.clone(), target: target.clone() },
            History::ChallengeAssassin { by, target } => History::ChallengeAssassin { by: by.clone(), target: target.clone() },
            History::ChallengeAmbassador { by, target } => History::ChallengeAmbassador { by: by.clone(), target: target.clone() },
            History::ChallengeCaptain { by, target } => History::ChallengeCaptain { by: by.clone(), target: target.clone() },
            History::ChallengeDuke { by, target } => History::ChallengeDuke { by: by.clone(), target: target.clone() },
            History::CounterAssassination { by, target } => History::CounterAssassination { by: by.clone(), target: target.clone() },
            History::CounterForeignAid { by, target } => History::CounterForeignAid { by: by.clone(), target: target.clone() },
            History::CounterStealing { by, target } => History::CounterStealing { by: by.clone(), target: target.clone() },
            History::CounterChallengeContessa { by, target } => History::CounterChallengeContessa { by: by.clone(), target: target.clone() },
            History::CounterChallengeDuke { by, target } => History::CounterChallengeDuke { by: by.clone(), target: target.clone() },
            History::CounterChallengeCaptainAmbassedor { by, target } => History::CounterChallengeCaptainAmbassedor { by: by.clone(), target: target.clone() },
            History::ActionForeignAid { by } => History::ActionForeignAid { by: by.clone() },
            History::ActionSwapping { by } => History::ActionSwapping { by: by.clone() },
            History::ActionIncome { by } => History::ActionIncome { by: by.clone() },
            History::ActionTax { by } => History::ActionTax { by: by.clone() },

        }
    }
}

impl Action {
    /// A copy of this action.
    pub fn duplicate(&self) -> (r: Action)
        ensures
            r == *self,
    {
        match self {
            Action::Assassination(t) => Action::Assassination(t.clone()),
            Action::Coup(t) => Action::Coup(t.clone()),
            Action::ForeignAid => Action::ForeignAid,
            Action::Swapping => Action::Swapping,
            Action::Income => Action::Income,
            Action::Stealing(t) => Action::Stealing(t.clone()),
            Action::Tax => Action::Tax,
        }
    }
}

/// A copy of a history log.
pub fn copy_history(h: &Vec<History>) -> (r: Vec<History>)
    ensures
        r@ == h@,
{
    let mut r: Vec<History> = Vec::new();
    let mut i: usize = 0;
    while i < h.len()
        invariant
            i <= h@.len(),
            r@ == h@.take(i as int),
        decreases h@.len() - i,
    {
        r.push(h[i].duplicate());
        i = i + 1;
        assert(r@ =~= h@.take(i as int));
    }
    assert(h@.take(i as int) =~= h@);
    r
}

} // verus!
