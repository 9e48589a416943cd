//! The game engine: the table and its bounds, the bots' views of it, card
//! loss and penalties, challenges, dealing and the turn order.
use vstd::multiset::Multiset;
use vstd::prelude::*;

use crate::bot::{BotInterface, Context, OtherBot};
use crate::deck::{is_full_set, push_three, shuffle, DECK_SIZE};
use crate::names::{registered_as, taken, unique_name};
use crate::score::{Score, MAX_SEATS};
use crate::types::{
    action_claim, backs_counter, challenge_event, claim_of, copy_history, counter_challenge_event,
    hand_backs_counter, holds, make_challenge_event, make_counter_challenge_event, Action, Card,
    ChallengeRound, Counter, History,
};

verus! {

broadcast use {vstd::seq_lib::group_to_multiset_ensures, vstd::multiset::group_multiset_axioms};

/// Coins every bot holds at the start of a game.
pub const STARTING_COINS: u8 = 2;

/// Cards every seated bot is dealt.
pub const HAND_SIZE: usize = 2;

/// A bot with this many coins must coup.
pub const FORCED_COUP_COINS: u8 = 10;

/// Price of an assassination.
pub const ASSASSINATION_COST: u8 = 3;

/// Price of a coup.
pub const COUP_COST: u8 = 7;

/// A game is stopped after this many turns.
pub const MAX_MOVES: usize = 1000;

/// A registered bot: its unique name, and its coins and cards in the
/// current game.
#[derive(Debug, Clone, PartialEq)]
pub struct Player {
    pub name: String,
    pub coins: u8,
    pub cards: Vec<Card>,
}

/// The Coup game engine.
pub struct Coup {
    /// Every registered bot, in registration order.
    pub bots: Vec<Player>,
    /// The decision logic of each registered bot, in registration order.
    pub interfaces: Vec<Box<dyn BotInterface>>,
    /// Indices into `bots` of the bots seated at this game, in turn order.
    pub playing_bots: Vec<usize>,
    /// The deck; its top is its end.
    pub deck: Vec<Card>,
    /// Cards lost for good in this game.
    pub discard_pile: Vec<Card>,
    /// Every event of this game.
    pub history: Vec<History>,
    /// The running score of every registered bot, in registration order.
    pub score: Score,
    /// Position in `playing_bots` of the bot whose turn it is.
    pub turn: usize,
    /// Turns played in this game.
    pub moves: usize,
}

/// Why a game could not start.
#[derive(Debug, Clone, Copy, PartialEq, Eq, Structural)]
pub enum GameError {
    /// Fewer than two bots are registered.
    NotEnoughBots,
}

/// The names of `bots`.
pub open spec fn names_of(bots: Seq<Player>) -> Seq<Seq<char>> {
    bots.map_values(|p: Player| p.name@)
}

/// Whether some bot of `bots` is called `name`.
pub open spec fn has_name(bots: Seq<Player>, name: Seq<char>) -> bool {
    names_of(bots).contains(name)
}

/// Index of the first copy of `name` in `names`.
pub open spec fn first_of(names: Seq<Seq<char>>, name: Seq<char>) -> int {
    choose|i: int|
        0 <= i < names.len() && names[i] == name && forall|j: int| 0 <= j < i ==> names[j] != name
}

/// Index of the first bot of `bots` called `name`.
pub open spec fn named_index(bots: Seq<Player>, name: Seq<char>) -> int {
    first_of(names_of(bots), name)
}

/// A name that occurs has a first occurrence.
pub(crate) proof fn lemma_first_of(names: Seq<Seq<char>>, name: Seq<char>)
    requires
        names.contains(name),
    ensures
        0 <= first_of(names, name) < names.len(),
        names[first_of(names, name)] == name,
        forall|j: int| 0 <= j < first_of(names, name) ==> names[j] != name,
{
    names.index_of_first_ensures(name);
    let k = names.index_of_first(name)->0;
    assert(0 <= k < names.len() && names[k] == name && forall|j: int| 0 <= j < k ==> names[j] != name);
}

/// In a table with distinct names, a bot's own name leads back to it.
pub(crate) proof fn lemma_own_name(bots: Seq<Player>, a: int)
    requires
        0 <= a < bots.len(),
        forall|i: int, j: int|
            0 <= i < j < bots.len() ==> (#[trigger] bots[i]).name@ != (#[trigger] bots[j]).name@,
    ensures
        has_name(bots, bots[a].name@),
        named_index(bots, bots[a].name@) == a,
{
    let ns = names_of(bots);
    assert(ns[a] == bots[a].name@);
    lemma_first_of(ns, bots[a].name@);
    let k = first_of(ns, bots[a].name@);
    if k < a {
        assert(bots[k].name@ != bots[a].name@);
    } else if k > a {
        assert(ns[a] != bots[a].name@);
    }
}

/// The names of the first `i` bots of `bots`.
pub open spec fn names_before(bots: Seq<Player>, i: int) -> Seq<String> {
    bots.take(i).map_values(|p: Player| p.name)
}

/// Each bot of `bots` is registered under the name its rank and `bases`,
/// the names the bots gave, make for it after the bots before it.
pub open spec fn registered_in_order(bots: Seq<Player>, bases: Seq<Seq<char>>) -> bool {
    &&& bases.len() == bots.len()
    &&& forall|i: int|
        0 <= i < bots.len() ==> #[trigger] registered_as(bots[i].name@, bases[i], names_before(bots, i))
}

/// The poll over `d` seats is a prefix of the poll over all `n` seats.
pub(crate) proof fn lemma_polled_prefix(t: &Coup, start: int, d: int, n: int, by: Seq<char>)
    requires
        0 <= d <= n,
    ensures
        t.polled(start, d, by).len() <= t.polled(start, n, by).len(),
        forall|i: int|
            0 <= i < t.polled(start, d, by).len() ==> #[trigger] t.polled(start, d, by)[i] == t.polled(
                start,
                n,
                by,
            )[i],
    decreases n - d,
{
    if d < n {
        lemma_polled_prefix(t, start, d + 1, n, by);
        let p = t.polled(start, d, by);
        let q = t.polled(start, d + 1, by);
        assert(q == p || q == p.push(q.last()));
        assert forall|i: int| 0 <= i < p.len() implies #[trigger] p[i] == t.polled(start, n, by)[i] by {
            assert(p[i] == q[i]);
        }
    }
}

/// All cards held by `bots`.
pub open spec fn hand_total(bots: Seq<Player>) -> Multiset<Card>
    decreases bots.len(),
{
    if bots.len() == 0 {
        Multiset::empty()
    } else {
        hand_total(bots.drop_last()).add(bots.last().cards@.to_multiset())
    }
}

/// `new` is `old` with its first copy of `card` taken out.
pub open spec fn removes_first(old: Seq<Card>, card: Card, new: Seq<Card>) -> bool {
    exists|k: int|
        0 <= k < old.len() && old[k] == card && new == old.remove(k) && forall|j: int|
            0 <= j < k ==> old[j] != card
}

/// The card-loss protocol on a hand and the discard pile, when the bot
/// names `lost`: a card it holds goes to the discard pile; naming one it does
/// not hold sends its whole hand there, last card first.
pub open spec fn loses(
    hand: Seq<Card>,
    pile: Seq<Card>,
    lost: Card,
    new_hand: Seq<Card>,
    new_pile: Seq<Card>,
) -> bool {
    if hand.contains(lost) {
        removes_first(hand, lost, new_hand) && new_pile == pile.push(lost)
    } else {
        new_hand == Seq::<Card>::empty() && new_pile == pile + hand.reverse()
    }
}

/// `new` is what is left of `pool` when the first copies of `r0`, then of
/// `r1`, are taken out.
pub open spec fn pool_minus(pool: Seq<Card>, r0: Card, r1: Card, new: Seq<Card>) -> bool {
    exists|mid: Seq<Card>| removes_first(pool, r0, mid) && removes_first(mid, r1, new)
}

/// Whether `r0` and `r1` can both be taken out of `pool`.
pub open spec fn can_hand_back(pool: Seq<Card>, r0: Card, r1: Card) -> bool {
    pool.to_multiset().count(r0) > 0 && pool.to_multiset().remove(r0).count(r1) > 0
}

/// `a` and `b` are the same bot, but for its cards.
pub open spec fn same_but_cards(a: Player, b: Player) -> bool {
    a.name == b.name && a.coins == b.coins
}

pub(crate) proof fn lemma_hand_total_update(bots: Seq<Player>, i: int, p: Player)
    requires
        0 <= i < bots.len(),
    ensures
        hand_total(bots.update(i, p)).add(bots[i].cards@.to_multiset()) == hand_total(bots).add(
            p.cards@.to_multiset(),
        ),
    decreases bots.len(),
{
    let u = bots.update(i, p);
    let old_i = bots[i].cards@.to_multiset();
    let new_i = p.cards@.to_multiset();
    assert(hand_total(u) == hand_total(u.drop_last()).add(u.last().cards@.to_multiset()));
    assert(hand_total(bots) == hand_total(bots.drop_last()).add(bots.last().cards@.to_multiset()));
    if i == bots.len() - 1 {
        assert(u.drop_last() =~= bots.drop_last());
        let h0 = hand_total(bots.drop_last());
        assert(h0.add(new_i).add(old_i) =~= h0.add(old_i).add(new_i));
    } else {
        let b0 = bots.drop_last();
        assert(u.drop_last() =~= b0.update(i, p));
        assert(b0[i] == bots[i]);
        lemma_hand_total_update(b0, i, p);
        let last = bots.last().cards@.to_multiset();
        assert(u.last() == bots.last());
        let hu = hand_total(b0.update(i, p));
        let hb = hand_total(b0);
        assert(hu.add(old_i) == hb.add(new_i));
        assert(hu.add(last).add(old_i) =~= hu.add(old_i).add(last));
        assert(hb.add(new_i).add(last) =~= hb.add(last).add(new_i));
    }
}

/// Changing only the bots' cards and coins, within the bounds of a hand,
/// keeps a table well formed.
pub(crate) proof fn lemma_wf_keeps(old: &Coup, new: &Coup)
    requires
        old.wf(),
        new.playing_bots@ == old.playing_bots@,
        new.score@ == old.score@,
        new.turn == old.turn,
        new.bots@.len() == old.bots@.len(),
        new.interfaces@.len() == old.interfaces@.len(),
        forall|j: int| 0 <= j < old.bots@.len() ==> (#[trigger] new.bots@[j]).name == old.bots@[j].name,
        forall|j: int| 0 <= j < old.bots@.len() ==> (#[trigger] new.bots@[j]).cards@.len() <= HAND_SIZE,
    ensures
        new.wf(),
{
    assert forall|i: int, j: int| 0 <= i < j < new.bots@.len() implies (#[trigger] new.bots@[i]).name@
        != (#[trigger] new.bots@[j]).name@ by {
        assert(old.bots@[i].name@ != old.bots@[j].name@);
    }
}

/// Takes the first copy of `card` out of `hand`.
pub(crate) fn remove_first(hand: &mut Vec<Card>, card: Card)
    requires
        old(hand)@.contains(card),
    ensures
        removes_first(old(hand)@, card, final(hand)@),
        final(hand)@.to_multiset().insert(card) == old(hand)@.to_multiset(),
{
    let ghost h = hand@;
    let n = hand.len();
    let mut k: usize = 0;
    while hand[k] != card
        invariant
            hand@ == h,
            n == h.len(),
            h.contains(card),
            k < h.len(),
            forall|j: int| 0 <= j < k ==> h[j] != card,
        decreases h.len() - k,
    {
        assert(k + 1 < h.len()) by {
            let w = choose|w: int| 0 <= w < h.len() && h[w] == card;
            assert(w > k);
        }
        k = k + 1;
    }
    hand.remove(k);
    proof {
        assert(h.remove(k as int).to_multiset() == h.to_multiset().remove(card));
        assert(hand@.to_multiset().insert(card) =~= h.to_multiset());
    }
}

pub(crate) proof fn lemma_exchange_total(
    hb: Multiset<Card>,
    hn: Multiset<Card>,
    mo: Multiset<Card>,
    mn: Multiset<Card>,
    pool: Multiset<Card>,
    deck0: Multiset<Card>,
    deck1: Multiset<Card>,
    pile: Multiset<Card>,
    drawn: [Card; 2],
    back: [Card; 2],
)
    requires
        hn.add(mo) == hb.add(mn),
        pool == mo.insert(drawn[0]).insert(drawn[1]),
        mn.insert(back[1]).insert(back[0]) == pool,
        deck1 == deck0.insert(back[0]).insert(back[1]),
    ensures
        deck1.add(pile).add(hn) == deck0.add(pile).add(hb).insert(drawn[0]).insert(drawn[1]),
{
    assert forall|x: Card|
        #[trigger] deck1.add(pile).add(hn).count(x) == deck0.add(pile).add(hb).insert(drawn[0]).insert(
            drawn[1],
        ).count(x) by {
        let e0: int = if x == drawn[0] {
            1
        } else {
            0
        };
        let e1: int = if x == drawn[1] {
            1
        } else {
            0
        };
        let f0: int = if x == back[0] {
            1
        } else {
            0
        };
        let f1: int = if x == back[1] {
            1
        } else {
            0
        };
        assert(hn.add(mo).count(x) == hn.count(x) + mo.count(x));
        assert(hb.add(mn).count(x) == hb.count(x) + mn.count(x));
        assert(hn.add(mo).count(x) == hb.add(mn).count(x));
        assert(mn.insert(back[1]).insert(back[0]).count(x) == mn.count(x) + f1 + f0);
        assert(pool.count(x) == mn.count(x) + f1 + f0);
        assert(mo.insert(drawn[0]).insert(drawn[1]).count(x) == mo.count(x) + e0 + e1);
        assert(pool.count(x) == mo.count(x) + e0 + e1);
        assert(deck1.count(x) == deck0.count(x) + f0 + f1);
        assert(deck1.add(pile).add(hn).count(x) == deck1.count(x) + pile.count(x) + hn.count(x));
        assert(deck0.add(pile).add(hb).insert(drawn[0]).insert(drawn[1]).count(x) == deck0.count(x)
            + pile.count(x) + hb.count(x) + e0 + e1);
    }
    assert(deck1.add(pile).add(hn) =~= deck0.add(pile).add(hb).insert(drawn[0]).insert(drawn[1]));
}

pub(crate) proof fn lemma_hand_total_empty(bots: Seq<Player>)
    requires
        forall|i: int| 0 <= i < bots.len() ==> (#[trigger] bots[i]).cards@.len() == 0,
    ensures
        hand_total(bots) =~= Multiset::empty(),
    decreases bots.len(),
{
    if bots.len() > 0 {
        lemma_hand_total_empty(bots.drop_last());
        assert(bots.last().cards@ =~= Seq::<Card>::empty());
    }
}

pub(crate) proof fn lemma_prefix_index(h: Seq<History>, p: Seq<History>, i: int)
    requires
        p.len() <= h.len(),
        h.take(p.len() as int) == p,
        0 <= i < p.len(),
    ensures
        h[i] == p[i],
{
    assert(h.take(p.len() as int)[i] == h[i]);
}

/// A settled challenge of a block, taken from a table that differs from
/// `old` by its history alone, is one taken from `old`.
pub(crate) proof fn lemma_block_challenged_from(
    old: &Coup,
    mid: &Coup,
    new: &Coup,
    counter: Counter,
    by: Seq<char>,
    c: Seq<char>,
    then: spec_fn(Coup) -> bool,
)
    requires
        new.block_challenged(mid, counter, by, c, then),
        mid.bots == old.bots,
        mid.same_table(old),
        mid.same_cards_except(old, -1),
        mid.discard_pile@ == old.discard_pile@,
    ensures
        new.block_challenged(old, counter, by, c, then),
{
    if hand_backs_counter(old.bots@[named_index(old.bots@, by)].cards@, counter) {
        lemma_after_card_loss_from(old, mid, new, c);
    } else {
        let m = choose|m: Coup| m.after_card_loss(mid, by) && m.same_coins(mid) && then(m);
        lemma_after_card_loss_from(old, mid, &m, by);
        assert(m.after_card_loss(old, by) && m.same_coins(old) && then(m));
    }
}

/// A card-loss step taken from a table that agrees with `old` on every
/// part the protocol reads is a card-loss step from `old`.
#[verifier::rlimit(40)]
pub(crate) proof fn lemma_after_card_loss_from(old: &Coup, mid: &Coup, new: &Coup, name: Seq<char>)
    requires
        new.after_card_loss(mid, name),
        mid.same_table(old),
        mid.same_cards_except(old, -1),
        mid.discard_pile@ == old.discard_pile@,
    ensures
        new.after_card_loss(old, name),
{
    assert(names_of(mid.bots@) =~= names_of(old.bots@));
    let i = named_index(old.bots@, name);
    assert(named_index(mid.bots@, name) == i);
    assert(has_name(mid.bots@, name) == has_name(old.bots@, name));
    if has_name(old.bots@, name) {
        lemma_first_of(names_of(old.bots@), name);
        assert(0 <= i < old.bots@.len());
        assert(mid.bots@[i].cards@ == old.bots@[i].cards@);
        assert(mid.seated(i) == old.seated(i));
    }
    assert(mid.target_valid(name) == old.target_valid(name));
    if old.target_valid(name) {
        let lost = choose|lost: Card|
            loses(mid.bots@[i].cards@, mid.discard_pile@, lost, new.bots@[i].cards@, new.discard_pile@);
        assert(loses(old.bots@[i].cards@, old.discard_pile@, lost, new.bots@[i].cards@, new.discard_pile@));
    }
}

impl Coup {
    /// The rules' bounds on the table that every method relies on.
    pub open spec fn wf(&self) -> bool {
        &&& self.playing_bots@.len() <= MAX_SEATS
        &&& forall|k: int|
            0 <= k < self.playing_bots@.len() ==> #[trigger] self.playing_bots@[k]
                < self.bots@.len()
        &&& forall|i: int|
            0 <= i < self.bots@.len() ==> (#[trigger] self.bots@[i]).cards@.len() <= HAND_SIZE
        &&& forall|i: int, j: int|
            0 <= i < j < self.bots@.len() ==> (#[trigger] self.bots@[i]).name@ != (
            #[trigger] self.bots@[j]).name@
        &&& self.score@.len() == self.bots@.len()
        &&& self.interfaces@.len() == self.bots@.len()
        &&& forall|i: int|
            0 <= i < self.bots@.len() ==> (#[trigger] self.score@[i]).0@ == self.bots@[i].name@
        &&& (self.turn < self.playing_bots@.len() || self.playing_bots@.len() == 0)
    }

    /// Every card in the game: in the deck, in the discard pile and in hands.
    pub open spec fn card_total(&self) -> Multiset<Card> {
        self.deck@.to_multiset().add(self.discard_pile@.to_multiset()).add(
            hand_total(self.bots@),
        )
    }

    /// Whether bot `i` is seated at this game.
    pub open spec fn seated(&self, i: int) -> bool {
        self.playing_bots@.contains(i as usize)
    }

    /// Whether bot `i` is seated and still holds a card.
    pub open spec fn in_game(&self, i: int) -> bool {
        self.seated(i) && self.bots@[i].cards@.len() > 0
    }

    /// Whether `name` is the name of a bot still in this game.
    pub open spec fn target_valid(&self, name: Seq<char>) -> bool {
        has_name(self.bots@, name) && self.in_game(named_index(self.bots@, name))
    }

    /// The bot whose turn it is.
    pub open spec fn actor(&self) -> int {
        self.playing_bots@[self.turn as int] as int
    }

    /// The public face of bot `i`.
    pub open spec fn summary(&self, i: int) -> OtherBot {
        OtherBot {
            name: self.bots@[i].name,
            coins: self.bots@[i].coins,
            cards: self.bots@[i].cards@.len() as u8,
        }
    }

    /// The public faces of the bots in game among the first `n` seats,
    /// leaving out bot `skip`.
    pub open spec fn summaries(&self, n: int, skip: int) -> Seq<OtherBot>
        decreases n,
    {
        if n <= 0 {
            Seq::empty()
        } else {
            let rest = self.summaries(n - 1, skip);
            let b = self.playing_bots@[n - 1] as int;
            if self.bots@[b].cards@.len() > 0 && b != skip {
                rest.push(self.summary(b))
            } else {
                rest
            }
        }
    }

    /// The seats, deck, score, turn and move count are as in `old`, and the
    /// bots are the same bots.
    pub open spec fn same_table(&self, old: &Coup) -> bool {
        &&& self.playing_bots@ == old.playing_bots@
        &&& self.deck@ == old.deck@
        &&& self.score@ == old.score@
        &&& self.turn == old.turn
        &&& self.moves == old.moves
        &&& self.same_bots(old)
    }

    /// The bots are those of `old`, under the same names.
    pub open spec fn same_bots(&self, old: &Coup) -> bool {
        &&& self.bots@.len() == old.bots@.len()
        &&& self.interfaces@ == old.interfaces@
        &&& forall|j: int|
            0 <= j < old.bots@.len() ==> (#[trigger] self.bots@[j]).name == old.bots@[j].name
    }

    /// Every bot has the coins it had in `old`.
    pub open spec fn same_coins(&self, old: &Coup) -> bool {
        forall|j: int| 0 <= j < old.bots@.len() ==> (#[trigger] self.bots@[j]).coins == old.bots@[j].coins
    }

    /// Every bot but `i` has the cards it had in `old`.
    pub open spec fn same_cards_except(&self, old: &Coup, i: int) -> bool {
        forall|j: int| 0 <= j < old.bots@.len() && j != i ==> (#[trigger] self.bots@[j]).cards@ == old.bots@[j].cards@
    }

    /// The cards of `self` are those of `old` after bot `name` went through
    /// the card-loss protocol: when it is in the game it names a card and
    /// loses it (or its whole hand); otherwise nothing happens.
    pub open spec fn after_card_loss(&self, old: &Coup, name: Seq<char>) -> bool {
        &&& self.same_table(old)
        &&& if old.target_valid(name) {
            let i = named_index(old.bots@, name);
            &&& self.same_cards_except(old, i)
            &&& exists|lost: Card|
                loses(
                    old.bots@[i].cards@,
                    old.discard_pile@,
                    lost,
                    self.bots@[i].cards@,
                    self.discard_pile@,
                )
        } else {
            self.same_cards_except(old, -1) && self.discard_pile@ == old.discard_pile@
        }
    }

    /// Index of the bot called `name`, if there is one.
    pub fn find_bot(&self, name: &String) -> (r: Option<usize>)
        ensures
            match r {
                Some(i) => has_name(self.bots@, name@) && i == named_index(self.bots@, name@) && i
                    < self.bots@.len(),
                None => !has_name(self.bots@, name@),
            },
    {
        let mut i: usize = 0;
        while i < self.bots.len()
            invariant
                i <= self.bots@.len(),
                forall|j: int| 0 <= j < i ==> (#[trigger] self.bots@[j]).name@ != name@,
            decreases self.bots@.len() - i,
        {
            if self.bots[i].name == *name {
                proof {
                    let ns = names_of(self.bots@);
                    assert(ns[i as int] == name@);
                    assert(forall|j: int| 0 <= j < i ==> ns[j] != name@);
                    let c = first_of(ns, name@);
                    if c < i {
                        assert(ns[c] == name@);
                    }
                    if c > i {
                        assert(ns[i as int] != name@);
                    }
                }
                return Some(i);
            }
            i = i + 1;
        }
        proof {
            let ns = names_of(self.bots@);
            assert(forall|j: int| 0 <= j < ns.len() ==> ns[j] != name@);
        }
        None
    }

    /// Whether bot `i` is seated.
    pub fn is_seated(&self, i: usize) -> (r: bool)
        ensures
            r == self.seated(i as int),
    {
        let mut k: usize = 0;
        while k < self.playing_bots.len()
            invariant
                k <= self.playing_bots@.len(),
                forall|j: int| 0 <= j < k ==> self.playing_bots@[j] != i,
            decreases self.playing_bots@.len() - k,
        {
            if self.playing_bots[k] == i {
                return true;
            }
            k = k + 1;
        }
        false
    }

    /// The public faces of the bots in game, in seating order, leaving out
    /// bot `skip`.
    pub(crate) fn summaries_except(&self, skip: usize) -> (r: Vec<OtherBot>)
        requires
            self.wf(),
        ensures
            r@ == self.summaries(self.playing_bots@.len() as int, skip as int),
    {
        let mut r: Vec<OtherBot> = Vec::new();
        let mut k: usize = 0;
        while k < self.playing_bots.len()
            invariant
                self.wf(),
                k <= self.playing_bots@.len(),
                r@ == self.summaries(k as int, skip as int),
            decreases self.playing_bots@.len() - k,
        {
            let b = self.playing_bots[k];
            let n = self.bots[b].cards.len();
            if n > 0 && b != skip {
                r.push(
                    OtherBot { name: self.bots[b].name.clone(), coins: self.bots[b].coins, cards: n as u8 },
                );
            }
            k = k + 1;
        }
        r
    }

    /// The public faces of all bots still in this game, in seating order.
    pub fn get_other_bots(&self) -> (r: Vec<OtherBot>)
        requires
            self.wf(),
        ensures
            r@ == self.summaries(self.playing_bots@.len() as int, self.bots@.len() as int),
    {
        self.summaries_except(self.bots.len())
    }

    /// A copy of the score.
    pub(crate) fn copy_score(&self) -> (r: Score)
        ensures
            r@ == self.score@,
    {
        let mut r: Score = Vec::new();
        let mut i: usize = 0;
        while i < self.score.len()
            invariant
                i <= self.score@.len(),
                r@ == self.score@.take(i as int),
            decreases self.score@.len() - i,
        {
            let entry = (self.score[i].0.clone(), self.score[i].1);
            r.push(entry);
            i = i + 1;
            assert(r@ =~= self.score@.take(i as int));
        }
        assert(self.score@.take(i as int) =~= self.score@);
        r
    }

    /// The snapshot of the game shown to bot `i`.
    pub open spec fn context_of(&self, i: int, c: Context) -> bool {
        &&& c.name@ == self.bots@[i].name@
        &&& c.cards@ == self.bots@[i].cards@
        &&& c.coins == self.bots@[i].coins
        &&& c.playing_bots@ == self.summaries(self.playing_bots@.len() as int, i)
        &&& c.discard_pile@ == self.discard_pile@
        &&& c.history@ == self.history@
        &&& c.score@ == self.score@
    }

    pub(crate) fn context_for(&self, i: usize) -> (c: Context)
        requires
            self.wf(),
            i < self.bots@.len(),
        ensures
            self.context_of(i as int, c),
    {
        let cards = self.bots[i].cards.clone();
        let discard_pile = self.discard_pile.clone();
        proof {
            assert(cards@ =~= self.bots@[i as int].cards@);
            assert(discard_pile@ =~= self.discard_pile@);
        }
        Context {
            name: self.bots[i].name.clone(),
            cards,
            coins: self.bots[i].coins,
            playing_bots: self.summaries_except(i),
            discard_pile,
            history: copy_history(&self.history),
            score: self.copy_score(),
        }
    }

    /// The snapshot of the game shown to the bot called `name`.
    pub fn get_context(&self, name: String) -> (c: Context)
        requires
            self.wf(),
            has_name(self.bots@, name@),
        ensures
            self.context_of(named_index(self.bots@, name@), c),
    {
        let i = self.find_bot(&name).unwrap();
        self.context_for(i)
    }

    /// The bot called `name`.
    pub fn get_bot_by_name(&self, name: String) -> (r: &Player)
        requires
            has_name(self.bots@, name@),
        ensures
            *r == self.bots@[named_index(self.bots@, name@)],
    {
        let i = self.find_bot(&name).unwrap();
        &self.bots[i]
    }

    /// Bot `i` names `lost` as the card it loses: a card it holds goes to the
    /// discard pile; any other answer sends its whole hand there.
    pub fn discard_card(&mut self, i: usize, lost: Card)
        requires
            old(self).wf(),
            i < old(self).bots@.len(),
        ensures
            final(self).wf(),
            final(self).same_table(old(self)),
            final(self).history@ == old(self).history@,
            same_but_cards(final(self).bots@[i as int], old(self).bots@[i as int]),
            forall|j: int|
                0 <= j < old(self).bots@.len() && j != i ==> final(self).bots@[j] == old(
                    self,
                ).bots@[j],
            loses(
                old(self).bots@[i as int].cards@,
                old(self).discard_pile@,
                lost,
                final(self).bots@[i as int].cards@,
                final(self).discard_pile@,
            ),
            final(self).card_total() == old(self).card_total(),
    {
        let ghost old_bots = self.bots@;
        let ghost old_hand = self.bots@[i as int].cards@;
        let ghost old_pile = self.discard_pile@;
        if holds(&self.bots[i].cards, lost) {
            remove_first(&mut self.bots[i].cards, lost);
            self.discard_pile.push(lost);
            proof {
                lemma_hand_total_update(old_bots, i as int, self.bots@[i as int]);
                assert(self.bots@ == old_bots.update(i as int, self.bots@[i as int]));
                let hn = hand_total(self.bots@);
                let ho = hand_total(old_bots);
                let mn = self.bots@[i as int].cards@.to_multiset();
                let mo = old_hand.to_multiset();
                assert(mo =~= mn.insert(lost));
                assert(hn.add(mo) == ho.add(mn));
                assert(self.discard_pile@.to_multiset() == old_pile.to_multiset().insert(lost));
                assert forall|x: Card| hn.insert(lost).count(x) == ho.count(x) by {
                    assert(hn.add(mo).count(x) == ho.add(mn).count(x));
                    assert(mo.count(x) == mn.insert(lost).count(x));
                }
                assert(hn.insert(lost) =~= ho);
                assert(self.card_total() =~= old(self).card_total());
                lemma_wf_keeps(old(self), self);
            }
        } else {
            while self.bots[i].cards.len() > 0
                invariant
                    i < self.bots@.len(),
                    self.same_table(old(self)),
                    self.history@ == old(self).history@,
                    self.bots@.len() == old_bots.len(),
                    same_but_cards(self.bots@[i as int], old_bots[i as int]),
                    forall|j: int|
                        0 <= j < old_bots.len() && j != i ==> self.bots@[j] == old_bots[j],
                    self.bots@[i as int].cards@.len() <= old_hand.len(),
                    self.bots@[i as int].cards@ == old_hand.take(
                        self.bots@[i as int].cards@.len() as int,
                    ),
                    self.discard_pile@ == old_pile + old_hand.skip(
                        self.bots@[i as int].cards@.len() as int,
                    ).reverse(),
                decreases self.bots@[i as int].cards@.len(),
            {
                let c = self.bots[i].cards.pop().unwrap();
                self.discard_pile.push(c);
                proof {
                    let m = self.bots@[i as int].cards@.len() as int;
                    assert(self.bots@[i as int].cards@ =~= old_hand.take(m));
                    assert(old_hand.skip(m).reverse() =~= old_hand.skip(m + 1).reverse().push(c));
                    assert(self.discard_pile@ =~= old_pile + old_hand.skip(m).reverse());
                }
            }
            proof {
                assert(old_hand.skip(0) =~= old_hand);
                assert(self.bots@[i as int].cards@ =~= Seq::<Card>::empty());
                lemma_hand_total_update(old_bots, i as int, self.bots@[i as int]);
                assert(self.bots@ =~= old_bots.update(i as int, self.bots@[i as int]));
                old_hand.lemma_reverse_to_multiset();
                vstd::seq_lib::lemma_multiset_commutative(old_pile, old_hand.reverse());
                let hn = hand_total(self.bots@);
                let ho = hand_total(old_bots);
                let mo = old_hand.to_multiset();
                assert(self.bots@[i as int].cards@.to_multiset() =~= Multiset::empty());
                assert forall|x: Card| hn.add(mo).count(x) == ho.count(x) by {
                    assert(hn.add(mo).count(x) == ho.add(Multiset::empty()).count(x));
                }
                assert(hn.add(mo) =~= ho);
                assert(self.discard_pile@.to_multiset() =~= old_pile.to_multiset().add(mo));
                assert(self.card_total() =~= old(self).card_total());
                lemma_wf_keeps(old(self), self);
            }
        }
    }

    /// Bot `name` goes through the card-loss protocol, if it is still in the
    /// game: it is asked which card to lose, and loses it, or its whole hand
    /// when it names a card it does not hold.
    pub fn card_loss(&mut self, name: String)
        requires
            old(self).wf(),
        ensures
            final(self).wf(),
            final(self).after_card_loss(old(self), name@),
            final(self).same_coins(old(self)),
            final(self).history@ == old(self).history@,
            final(self).card_total() == old(self).card_total(),
    {
        match self.find_bot(&name) {
            Some(i) => {
                if self.is_seated(i) && self.bots[i].cards.len() > 0 {
                    let context = self.context_for(i);
                    let lost = self.interfaces[i].on_card_loss(&context);
                    self.discard_card(i, lost);
                }
            },
            None => {},
        }
    }

    /// Bot `name` broke a rule: it loses a card.
    pub fn penalize_bot(&mut self, name: String)
        requires
            old(self).wf(),
        ensures
            final(self).wf(),
            final(self).after_card_loss(old(self), name@),
            final(self).same_coins(old(self)),
            final(self).history@ == old(self).history@,
            final(self).card_total() == old(self).card_total(),
    {
        self.card_loss(name);
    }

    /// `self` is `old` after bot `name` showed `card` and swapped it: when
    /// it holds the card, the card went into the deck and the bot drew one in
    /// its place; otherwise nothing changed.
    pub open spec fn swapped_back(&self, old: &Coup, name: Seq<char>, card: Card) -> bool {
        &&& self.playing_bots@ == old.playing_bots@
        &&& self.score@ == old.score@
        &&& self.turn == old.turn
        &&& self.moves == old.moves
        &&& self.history@ == old.history@
        &&& self.discard_pile@ == old.discard_pile@
        &&& self.same_bots(old)
        &&& self.same_coins(old)
        &&& self.deck@.len() == old.deck@.len()
        &&& ({
            let i = named_index(old.bots@, name);
            if has_name(old.bots@, name) && old.bots@[i].cards@.contains(card) {
                &&& self.same_cards_except(old, i)
                &&& exists|drawn: Card, rest: Seq<Card>|
                    removes_first(old.bots@[i].cards@, card, rest) && self.bots@[i].cards@ == rest.push(
                        drawn,
                    ) && self.deck@.to_multiset().insert(drawn) == old.deck@.to_multiset().insert(card)
            } else {
                self.same_cards_except(old, -1) && self.deck@ == old.deck@
            }
        })
    }

    /// Bot `swopee` shows `card` after a failed challenge: the card goes back
    /// into the deck, which is shuffled, and the bot draws a new card.
    pub fn swap_card(&mut self, card: Card, swopee: String)
        requires
            old(self).wf(),
        ensures
            final(self).wf(),
            final(self).card_total() == old(self).card_total(),
            final(self).swapped_back(old(self), swopee@, card),
    {
        let i = match self.find_bot(&swopee) {
            Some(i) => i,
            None => {
                return;
            },
        };
        if !holds(&self.bots[i].cards, card) {
            return;
        }
        let ghost before = self.card_total();
        let ghost bots0 = self.bots@;
        let ghost deck0 = self.deck@;
        remove_first(&mut self.bots[i].cards, card);
        let ghost rest = self.bots@[i as int].cards@;
        self.deck.push(card);
        shuffle(&mut self.deck);
        let ghost shuffled = self.deck@;
        let drawn = self.deck.pop().unwrap();
        proof {
            assert(shuffled =~= self.deck@.push(drawn));
        }
        self.bots[i].cards.push(drawn);
        proof {
            let old_hand = bots0[i as int].cards@;
            let new_hand = self.bots@[i as int].cards@;
            assert(self.bots@ == bots0.update(i as int, self.bots@[i as int]));
            lemma_hand_total_update(bots0, i as int, self.bots@[i as int]);
            let hb = hand_total(bots0);
            let hn = hand_total(self.bots@);
            assert(new_hand == rest.push(drawn));
            assert(new_hand.to_multiset() == rest.to_multiset().insert(drawn));
            assert(self.deck@.to_multiset().insert(drawn) == deck0.to_multiset().insert(card));
            assert forall|x: Card| hn.insert(card).count(x) == hb.insert(drawn).count(x) by {
                assert(hn.add(old_hand.to_multiset()).count(x) == hb.add(new_hand.to_multiset()).count(x));
            }
            assert forall|x: Card| self.card_total().count(x) == before.count(x) by {
                assert(self.deck@.to_multiset().insert(drawn).count(x) == deck0.to_multiset().insert(card).count(x));
                assert(hn.insert(card).count(x) == hb.insert(drawn).count(x));
            }
            assert(self.card_total() =~= before);
            lemma_wf_keeps(old(self), self);
            assert(removes_first(bots0[i as int].cards@, card, rest));
        }
    }

    /// Bot `challenger` challenges the card that `action` claims for bot
    /// `player`. When `player` holds it, the challenge fails and the
    /// challenger loses a card; otherwise the challenge succeeds and `player`
    /// loses a card. Returns whether the challenge succeeded.
    pub fn resolve_challenge(&mut self, action: Action, player: String, challenger: String) -> (r: bool)
        requires
            old(self).wf(),
            action_claim(action) is Some,
        ensures
            final(self).wf(),
            r == !(has_name(old(self).bots@, player@) && old(self).bots@[named_index(
                old(self).bots@,
                player@,
            )].cards@.contains(action_claim(action)->0)),
            final(self).history@ == old(self).history@.push(
                challenge_event(action, challenger, player),
            ),
            final(self).after_card_loss(
                old(self),
                if r {
                    player@
                } else {
                    challenger@
                },
            ),
            final(self).same_coins(old(self)),
            final(self).card_total() == old(self).card_total(),
    {
        let ghost p = player;
        let ghost ch = challenger;
        let card = claim_of(&action).unwrap();
        let held = match self.find_bot(&player) {
            Some(i) => holds(&self.bots[i].cards, card),
            None => false,
        };
        let event = make_challenge_event(&action, challenger.clone(), player.clone());
        self.history.push(event);
        if held {
            self.card_loss(challenger);
            false
        } else {
            self.card_loss(player);
            true
        }
    }

    /// Bot `challenger` challenges the block `counter` declared by bot
    /// `counterer`. When `counterer` holds a card that backs the block, the
    /// challenge fails and the challenger loses a card; otherwise it succeeds
    /// and `counterer` loses a card. Returns whether the challenge succeeded.
    pub fn resolve_counter_challenge(&mut self, counter: Counter, counterer: String, challenger: String) -> (r: bool)
        requires
            old(self).wf(),
        ensures
            final(self).wf(),
            r == !(has_name(old(self).bots@, counterer@) && hand_backs_counter(
                old(self).bots@[named_index(old(self).bots@, counterer@)].cards@,
                counter,
            )),
            final(self).history@ == old(self).history@.push(
                counter_challenge_event(counter, challenger, counterer),
            ),
            final(self).after_card_loss(
                old(self),
                if r {
                    counterer@
                } else {
                    challenger@
                },
            ),
            final(self).same_coins(old(self)),
            final(self).card_total() == old(self).card_total(),
    {
        let backed = match self.find_bot(&counterer) {
            Some(i) => backs_counter(&self.bots[i].cards, counter),
            None => false,
        };
        let event = make_counter_challenge_event(counter, challenger.clone(), counterer.clone());
        self.history.push(event);
        if backed {
            self.card_loss(challenger);
            false
        } else {
            self.card_loss(counterer);
            true
        }
    }

    /// The names of the seated bots, in seating order.
    pub open spec fn seat_names(&self) -> Seq<Seq<char>> {
        self.playing_bots@.map_values(|b: usize| self.bots@[b as int].name@)
    }

    /// The seat polling starts from when `by` makes a claim: the one after
    /// the seat of `by`, or the first seat when `by` is not seated.
    pub open spec fn poll_start(&self, by: Seq<char>) -> int {
        if self.seat_names().contains(by) {
            first_of(self.seat_names(), by) + 1
        } else {
            0
        }
    }

    /// The bots still in the game but `by`, over `d` seats going round from
    /// seat `start`, in that order.
    pub open spec fn polled(&self, start: int, d: int, by: Seq<char>) -> Seq<usize>
        decreases d,
    {
        if d <= 0 {
            Seq::empty()
        } else {
            let prev = self.polled(start, d - 1, by);
            let b = self.playing_bots@[Self::wrap(start + d - 1, self.playing_bots@.len() as int)];
            if self.bots@[b as int].cards@.len() > 0 && self.bots@[b as int].name@ != by {
                prev.push(b)
            } else {
                prev
            }
        }
    }

    /// The bots asked, in order, whether they challenge a claim of `by`.
    pub open spec fn poll_order(&self, by: Seq<char>) -> Seq<usize> {
        self.polled(self.poll_start(by), self.playing_bots@.len() as int, by)
    }

    /// `answers` are the answers of the first bots of the poll order for a
    /// claim of `by`, all no but maybe the last, and `r` is what the poll
    /// returns: the bot that answered yes, or none when every bot said no.
    pub open spec fn poll_record(&self, by: Seq<char>, answers: Seq<bool>, r: Option<String>) -> bool {
        self.poll_record_at(self.poll_start(by), self.playing_bots@.len() as int, by, answers, r)
    }

    /// `answers` are the answers of the first bots of the poll over `d`
    /// seats from seat `start`, leaving out `by`, all no but maybe the last,
    /// and `r` names the bot that answered yes, or is none when every bot
    /// said no.
    pub open spec fn poll_record_at(
        &self,
        start: int,
        d: int,
        by: Seq<char>,
        answers: Seq<bool>,
        r: Option<String>,
    ) -> bool {
        let order = self.polled(start, d, by);
        &&& answers.len() <= order.len()
        &&& forall|i: int| 0 <= i < answers.len() - 1 ==> !(#[trigger] answers[i])
        &&& match r {
            Some(n) => answers.len() > 0 && answers.last() && n@ == self.bots@[order[answers.len()
                - 1] as int].name@,
            None => answers.len() == order.len() && forall|i: int|
                0 <= i < answers.len() ==> !(#[trigger] answers[i]),
        }
    }

    /// Asks every bot still in the game but `by`, in turn order starting just
    /// after the seat of `by` (from the first seat when `by` is not seated),
    /// whether it challenges the claim of `by` (its action's card, or its
    /// block). The first that does is named; the others are not asked.
    pub fn challenge_round(&self, challenge_type: ChallengeRound, action: &Action, by: String) -> (r: Option<String>)
        requires
            self.wf(),
        ensures
            match r {
                Some(n) => n@ != by@ && self.target_valid(n@),
                None => true,
            },
            exists|answers: Seq<bool>| #[trigger] self.poll_record(by@, answers, r),
    {
        let n = self.playing_bots.len();
        let mut start: usize = 0;
        let mut k: usize = 0;
        while k < n
            invariant_except_break
                start == 0,
            invariant
                self.wf(),
                n == self.playing_bots@.len(),
                k <= n,
                forall|j: int| 0 <= j < k ==> self.seat_names()[j] != by@,
            ensures
                start == 0 ==> forall|j: int| 0 <= j < n ==> self.seat_names()[j] != by@,
                start != 0 ==> start == self.poll_start(by@) && start <= n,
            decreases n - k,
        {
            if self.bots[self.playing_bots[k]].name == by {
                proof {
                    let ns = self.seat_names();
                    assert(ns[k as int] == by@);
                    lemma_first_of(ns, by@);
                    let f = first_of(ns, by@);
                    if f < k {
                        assert(ns[f] != by@);
                    }
                    if f > k {
                        assert(ns[k as int] != by@);
                    }
                    assert(ns.contains(by@));
                }
                start = k + 1;
                break;
            }
            k = k + 1;
        }
        proof {
            if start == 0 {
                assert(self.seat_names().len() == n);
                assert(!self.seat_names().contains(by@));
            }
            assert(start == self.poll_start(by@));
        }
        let ghost mut answers: Seq<bool> = Seq::empty();
        let mut d: usize = 0;
        while d < n
            invariant
                self.wf(),
                n == self.playing_bots@.len(),
                d <= n,
                start <= n,
                start == self.poll_start(by@),
                answers.len() == self.polled(start as int, d as int, by@).len(),
                forall|i: int| 0 <= i < answers.len() ==> !(#[trigger] answers[i]),
            decreases n - d,
        {
            let seat = if start + d < n {
                start + d
            } else {
                start + d - n
            };
            let b = self.playing_bots[seat];
            proof {
                assert(seat == Self::wrap(start + d, n as int));
                lemma_polled_prefix(self, start as int, d as int + 1, n as int, by@);
            }
            let ghost prev = self.polled(start as int, d as int, by@);
            if self.bots[b].cards.len() > 0 && !(self.bots[b].name == by) {
                proof {
                    assert(self.polled(start as int, d + 1, by@) == prev.push(b));
                }
                let context = self.context_for(b);
                let challenging = match challenge_type {
                    ChallengeRound::Action => self.interfaces[b].on_challenge_action_round(
                        action,
                        by.clone(),
                        &context,
                    ),
                    ChallengeRound::Counter => self.interfaces[b].on_challenge_counter_round(
                        action,
                        by.clone(),
                        &context,
                    ),
                };
                if challenging {
                    let name = self.bots[b].name.clone();
                    proof {
                        let ns = names_of(self.bots@);
                        assert(ns[b as int] == name@);
                        assert(self.playing_bots@[seat as int] == b);
                        assert(named_index(self.bots@, name@) == b) by {
                            lemma_own_name(self.bots@, b as int);
                        }
                        let order = self.poll_order(by@);
                        let ans = answers.push(true);
                        assert(order[answers.len() as int] == self.polled(start as int, d + 1, by@)[answers.len() as int]);
                        assert(ans.last());
                        assert(self.poll_record(by@, ans, Some(name)));
                    }
                    return Some(name);
                }
                proof {
                    answers = answers.push(false);
                }
            } else {
                proof {
                    assert(self.polled(start as int, d + 1, by@) == prev);
                }
            }
            d = d + 1;
        }
        proof {
            assert(self.poll_record(by@, answers, None));
        }
        None
    }

    /// `self` is `old` dealt afresh: the bots are seated in some order, at
    /// most six of them, each seated bot holding two cards, the others none;
    /// every bot has two coins; the history is empty; the deck holds what
    /// dealing left and all fifteen cards are in play.
    pub open spec fn dealt(&self, old: &Coup) -> bool {
        &&& self.same_bots(old)
        &&& self.score@ == old.score@
        &&& self.playing_bots@.len() == if old.bots@.len() < MAX_SEATS {
            old.bots@.len()
        } else {
            MAX_SEATS as nat
        }
        &&& self.playing_bots@.no_duplicates()
        &&& forall|k: int|
            #![trigger self.playing_bots@[k]]
            0 <= k < self.playing_bots@.len()
                ==> self.bots@[self.playing_bots@[k] as int].cards@.len() == HAND_SIZE
        &&& forall|i: int|
            0 <= i < self.bots@.len() && !self.seated(i)
                ==> (#[trigger] self.bots@[i]).cards@.len() == 0
        &&& forall|i: int| 0 <= i < self.bots@.len() ==> (#[trigger] self.bots@[i]).coins == STARTING_COINS
        &&& self.deck@.len() == DECK_SIZE - HAND_SIZE * self.playing_bots@.len()
        &&& self.discard_pile@.len() == 0
        &&& self.history@.len() == 0
        &&& self.turn == 0
        &&& self.moves == 0
        &&& is_full_set(self.card_total())
    }

    /// Starts a game: the bots are seated in a random order, at most six of
    /// them; every bot gets two coins; every seated bot is dealt two cards
    /// from a fresh, shuffled deck, and the others hold none.
    pub fn setup(&mut self)
        requires
            old(self).wf(),
        ensures
            final(self).wf(),
            final(self).dealt(old(self)),
    {
        let mut deck = Coup::new_deck();
        let ghost full = deck@.to_multiset();
        let n = self.bots.len();
        let mut seats: Vec<usize> = Vec::new();
        let mut i: usize = 0;
        while i < n
            invariant
                i <= n,
                seats@ == Seq::new(i as nat, |j: int| j as usize),
            decreases n - i,
        {
            seats.push(i);
            i = i + 1;
            assert(seats@ =~= Seq::new(i as nat, |j: int| j as usize));
        }
        let ghost ordered = seats@;
        proof {
            assert(ordered.no_duplicates());
            ordered.lemma_multiset_has_no_duplicates();
        }
        shuffle(&mut seats);
        proof {
            assert forall|x: usize| seats@.to_multiset().contains(x) implies seats@.to_multiset().count(x) == 1 by {
                assert(ordered.to_multiset().contains(x));
            }
            seats@.lemma_multiset_has_no_duplicates_conv();
            assert forall|k: int| 0 <= k < seats@.len() implies seats@[k] < n by {
                assert(seats@.to_multiset().count(seats@[k]) > 0);
                assert(ordered.to_multiset().count(seats@[k]) > 0);
                assert(ordered.contains(seats@[k]));
            }
        }
        if seats.len() > MAX_SEATS {
            seats.truncate(MAX_SEATS);
        }
        proof {
            assert(seats@.no_duplicates());
        }
        let ghost bots0 = self.bots@;
        let mut i: usize = 0;
        while i < n
            invariant
                i <= n,
                n == self.bots@.len(),
                self.same_bots(old(self)),
                self.score@ == old(self).score@,
                forall|j: int| 0 <= j < i ==> (#[trigger] self.bots@[j]).cards@.len() == 0,
                forall|j: int| 0 <= j < i ==> (#[trigger] self.bots@[j]).coins == STARTING_COINS,
            decreases n - i,
        {
            self.bots[i].cards = Vec::new();
            self.bots[i].coins = STARTING_COINS;
            i = i + 1;
        }
        proof {
            lemma_hand_total_empty(self.bots@);
        }
        let mut k: usize = 0;
        while k < seats.len()
            invariant
                k <= seats@.len() <= MAX_SEATS,
                n == self.bots@.len(),
                seats@.no_duplicates(),
                forall|j: int| 0 <= j < seats@.len() ==> #[trigger] seats@[j] < n,
                self.same_bots(old(self)),
                self.score@ == old(self).score@,
                deck@.len() == DECK_SIZE - HAND_SIZE * k,
                deck@.to_multiset().add(hand_total(self.bots@)) == full,
                forall|j: int| 0 <= j < n ==> (#[trigger] self.bots@[j]).coins == STARTING_COINS,
                forall|j: int| 0 <= j < k ==> self.bots@[#[trigger] seats@[j] as int].cards@.len() == HAND_SIZE,
                forall|j: int|
                    0 <= j < n && !(exists|m: int| 0 <= m < k && seats@[m] == j)
                        ==> (#[trigger] self.bots@[j]).cards@.len() == 0,
            decreases seats@.len() - k,
        {
            let b = seats[k];
            let ghost deck0 = deck@;
            let ghost bots0 = self.bots@;
            let c1 = deck.pop().unwrap();
            let c2 = deck.pop().unwrap();
            self.bots[b].cards.push(c1);
            self.bots[b].cards.push(c2);
            proof {
                assert(deck0 =~= deck@.push(c2).push(c1));
                assert(bots0[b as int].cards@.len() == 0) by {
                    if exists|m: int| 0 <= m < k && seats@[m] == b {
                        let m = choose|m: int| 0 <= m < k && seats@[m] == b;
                        assert(seats@[m] == seats@[k as int]);
                    }
                }
                assert(self.bots@ == bots0.update(b as int, self.bots@[b as int]));
                lemma_hand_total_update(bots0, b as int, self.bots@[b as int]);
                let hb = hand_total(bots0);
                let hn = hand_total(self.bots@);
                assert(bots0[b as int].cards@ =~= Seq::<Card>::empty());
                assert(self.bots@[b as int].cards@ =~= seq![c1, c2]);
                assert forall|x: Card| deck@.to_multiset().add(hn).count(x) == full.count(x) by {
                    assert(hn.add(bots0[b as int].cards@.to_multiset()).count(x) == hb.add(
                        self.bots@[b as int].cards@.to_multiset(),
                    ).count(x));
                    assert(deck0.to_multiset().add(hb).count(x) == full.count(x));
                    assert(self.bots@[b as int].cards@ =~= Seq::<Card>::empty().push(c1).push(c2));
                }
                assert(deck@.to_multiset().add(hn) =~= full);
                assert forall|j: int| 0 <= j < k + 1 implies self.bots@[#[trigger] seats@[j] as int].cards@.len() == HAND_SIZE by {
                    if j < k {
                        assert(seats@[j] != seats@[k as int]);
                    }
                }
                assert forall|j: int|
                    0 <= j < n && !(exists|m: int| 0 <= m < k + 1 && seats@[m] == j) implies (
                    #[trigger] self.bots@[j]).cards@.len() == 0 by {
                    assert(j != b);
                }
            }
            k = k + 1;
        }
        self.playing_bots = seats;
        self.deck = deck;
        self.discard_pile = Vec::new();
        self.history = Vec::new();
        self.turn = 0;
        self.moves = 0;
        proof {
            assert forall|i: int|
                0 <= i < self.bots@.len() && !self.seated(i) implies (#[trigger] self.bots@[i]).cards@.len() == 0 by {
                if exists|m: int| 0 <= m < k && self.playing_bots@[m] == i {
                    let m = choose|m: int| 0 <= m < k && self.playing_bots@[m] == i;
                    assert(self.playing_bots@.contains(i as usize));
                }
            }
            assert(self.card_total() =~= full);
            assert forall|i: int| 0 <= i < self.bots@.len() implies (#[trigger] self.bots@[i]).cards@.len() <= HAND_SIZE by {
                if self.seated(i) {
                    let m = choose|m: int| 0 <= m < self.playing_bots@.len() && self.playing_bots@[m] == i;
                    assert(self.bots@[self.playing_bots@[m] as int].cards@.len() == HAND_SIZE);
                }
            }
            assert forall|i: int, j: int| 0 <= i < j < self.bots@.len() implies (#[trigger] self.bots@[i]).name@
                != (#[trigger] self.bots@[j]).name@ by {
                assert(old(self).bots@[i].name@ != old(self).bots@[j].name@);
            }
        }
    }

    /// A new engine for `user_bots`, in that order. Each bot is named by its
    /// own answer, with a number appended when an earlier bot already has
    /// that name; it starts with two coins and no card, and a score of zero.
    pub fn new(user_bots: Vec<Box<dyn BotInterface>>) -> (r: Coup)
        ensures
            r.wf(),
            r.bots@.len() == user_bots@.len(),
            r.interfaces@ == user_bots@,
            exists|bases: Seq<Seq<char>>|
                #![trigger registered_in_order(r.bots@, bases)]
                registered_in_order(r.bots@, bases),
            forall|i: int| 0 <= i < r.bots@.len() ==> (#[trigger] r.bots@[i]).coins == STARTING_COINS,
            forall|i: int| 0 <= i < r.bots@.len() ==> (#[trigger] r.bots@[i]).cards@.len() == 0,
            forall|i: int| 0 <= i < r.score@.len() ==> (#[trigger] r.score@[i]).1 == 0,
            r.playing_bots@.len() == 0,
            r.deck@.len() == 0,
            r.discard_pile@.len() == 0,
            r.history@.len() == 0,
            r.turn == 0,
            r.moves == 0,
    {
        let mut bots: Vec<Player> = Vec::new();
        let mut names: Vec<String> = Vec::new();
        let mut score: Score = Vec::new();
        let ghost mut bases: Seq<Seq<char>> = Seq::empty();
        let mut k: usize = 0;
        while k < user_bots.len()
            invariant
                k <= user_bots@.len(),
                bots@.len() == k,
                names@.len() == k,
                score@.len() == k,
                bases.len() == k,
                names@ == bots@.map_values(|p: Player| p.name),
                registered_in_order(bots@, bases),
                forall|i: int| 0 <= i < k ==> (#[trigger] bots@[i]).coins == STARTING_COINS,
                forall|i: int| 0 <= i < k ==> (#[trigger] bots@[i]).cards@.len() == 0,
                forall|i: int| 0 <= i < k ==> (#[trigger] score@[i]).0@ == bots@[i].name@,
                forall|i: int| 0 <= i < k ==> (#[trigger] score@[i]).1 == 0,
                forall|i: int, j: int|
                    0 <= i < j < k ==> (#[trigger] bots@[i]).name@ != (#[trigger] bots@[j]).name@,
            decreases user_bots@.len() - k,
        {
            let base = user_bots[k].get_name();
            let name = unique_name(&base, &names);
            proof {
                assert forall|i: int| 0 <= i < k implies (#[trigger] bots@[i]).name@ != name@ by {
                    assert(names@[i] == bots@[i].name);
                    if bots@[i].name@ == name@ {
                        assert(taken(names@, name@));
                    }
                }
            }
            let ghost old_bots = bots@;
            proof {
                assert(names_before(old_bots, k as int) =~= names@);
                bases = bases.push(base@);
            }
            names.push(name.clone());
            score.push((name.clone(), 0));
            bots.push(Player { name, coins: STARTING_COINS, cards: Vec::new() });
            proof {
                assert forall|i: int| 0 <= i <= k implies names_before(bots@, i) =~= names_before(
                    old_bots,
                    i,
                ) by {}
                assert(names@ =~= bots@.map_values(|p: Player| p.name));
                assert forall|i: int| 0 <= i < bots@.len() implies #[trigger] registered_as(
                    bots@[i].name@,
                    bases[i],
                    names_before(bots@, i),
                ) by {
                    if i < k {
                        assert(registered_as(old_bots[i].name@, bases[i], names_before(old_bots, i)));
                    }
                }
            }
            k = k + 1;
        }
        Coup {
            bots,
            interfaces: user_bots,
            playing_bots: Vec::new(),
            deck: Vec::new(),
            discard_pile: Vec::new(),
            history: Vec::new(),
            score,
            turn: 0,
            moves: 0,
        }
    }

    /// Seat `i` of a table of `n` seats, counting round past the last seat.
    pub open spec fn wrap(i: int, n: int) -> int {
        if i < n {
            i
        } else {
            i - n
        }
    }

    /// The seat after `turn`'s, going round, whose bot is still in the game
    /// (`turn`'s own when there is no other).
    pub open spec fn is_next_turn(&self, from: int, r: int) -> bool {
        let n = self.playing_bots@.len() as int;
        exists|d: int|
            1 <= d <= n && r == #[trigger] Self::wrap(from + d, n) && (d == n || self.in_game(
                self.playing_bots@[r] as int,
            )) && forall|e: int|
                1 <= e < d ==> !self.in_game(
                    self.playing_bots@[#[trigger] Self::wrap(from + e, n)] as int,
                )
    }

    /// Position of the next seat, going round from the current turn, whose
    /// bot is still in the game.
    pub fn next_turn(&self) -> (r: usize)
        requires
            self.wf(),
            self.playing_bots@.len() > 0,
        ensures
            r < self.playing_bots@.len(),
            self.is_next_turn(self.turn as int, r as int),
    {
        let n = self.playing_bots.len();
        let mut d: usize = 1;
        while d < n
            invariant
                1 <= d <= n,
                n == self.playing_bots@.len(),
                self.wf(),
                forall|e: int|
                    1 <= e < d ==> !self.in_game(
                        self.playing_bots@[#[trigger] Self::wrap(self.turn + e, n as int)] as int,
                    ),
            decreases n - d,
        {
            let r = if self.turn + d < n {
                self.turn + d
            } else {
                self.turn + d - n
            };
            let b = self.playing_bots[r];
            if self.bots[b].cards.len() > 0 && self.is_seated(b) {
                proof {
                    assert(r == Self::wrap(self.turn + d, n as int));
                    assert(self.in_game(self.playing_bots@[r as int] as int));
                }
                return r;
            }
            proof {
                assert(r == Self::wrap(self.turn + d, n as int));
            }
            d = d + 1;
        }
        proof {
            assert(self.turn == Self::wrap(self.turn + n, n as int));
        }
        self.turn
    }

    /// A freshly shuffled deck of fifteen cards, three of each kind: the deck
    /// the engine deals from, for bots that want to reason about it.
    pub fn new_deck() -> (deck: Vec<Card>)
        ensures
            deck@.len() == DECK_SIZE,
            is_full_set(deck@.to_multiset()),
    {
        let mut deck: Vec<Card> = Vec::new();
        push_three(&mut deck, Card::Ambassador);
        push_three(&mut deck, Card::Assassin);
        push_three(&mut deck, Card::Captain);
        push_three(&mut deck, Card::Contessa);
        push_three(&mut deck, Card::Duke);
        shuffle(&mut deck);
        deck
    }

    /// Whether `target` names no bot that is still in this game.
    pub fn target_not_found(&self, target: String) -> (r: bool)
        ensures
            r == !self.target_valid(target@),
    {
        match self.find_bot(&target) {
            Some(i) => !(self.is_seated(i) && self.bots[i].cards.len() > 0),
            None => true,
        }
    }
}

} // verus!
