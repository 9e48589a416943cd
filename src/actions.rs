//! The actions that take effect: coins, strikes, thefts and swaps.
use vstd::multiset::Multiset;
use vstd::prelude::*;

use crate::deck::shuffle;
use crate::engine::{
    can_hand_back, hand_total, lemma_after_card_loss_from, lemma_exchange_total,
    lemma_hand_total_update, lemma_wf_keeps, named_index, names_of, pool_minus, remove_first, Coup,
    ASSASSINATION_COST, COUP_COST, FORCED_COUP_COINS,
};
use crate::types::{holds, Action, Card};

verus! {

broadcast use {vstd::seq_lib::group_to_multiset_ensures, vstd::multiset::group_multiset_axioms};

impl Coup {
    /// Only the coins of bot `i` changed from `old`, to `coins`.
    pub open spec fn coins_set(&self, old: &Coup, i: int, coins: u8) -> bool {
        &&& self.history@ == old.history@
        &&& self.only_coins_of(old, i, coins)
    }

    /// But for the history, only the coins of bot `i` changed from `old`, to
    /// `coins`.
    pub open spec fn only_coins_of(&self, old: &Coup, i: int, coins: u8) -> bool {
        &&& self.same_table(old)
        &&& self.discard_pile@ == old.discard_pile@
        &&& self.same_cards_except(old, -1)
        &&& self.bots@[i].coins == coins
        &&& forall|j: int| 0 <= j < old.bots@.len() && j != i ==> (#[trigger] self.bots@[j]).coins == old.bots@[j].coins
    }

    /// `self` is `old` after the bot whose turn it is stole from `target`:
    /// two of the target's coins, or all of them when it has fewer, went to
    /// the thief; nothing happens when `target` is not in the game or is the
    /// thief itself.
    pub open spec fn after_stealing(&self, old: &Coup, target: Seq<char>) -> bool {
        let a = old.actor();
        let t = named_index(old.bots@, target);
        let booty = if old.bots@[t].coins < 2 {
            old.bots@[t].coins as int
        } else {
            2int
        };
        if old.target_valid(target) && t != a {
            &&& self.same_table(old)
            &&& self.discard_pile@ == old.discard_pile@
            &&& self.same_cards_except(old, -1)
            &&& self.bots@[a].coins == old.bots@[a].coins + booty
            &&& self.bots@[t].coins == old.bots@[t].coins - booty
            &&& forall|j: int|
                0 <= j < old.bots@.len() && j != a && j != t
                    ==> (#[trigger] self.bots@[j]).coins == old.bots@[j].coins
        } else {
            self.only_coins_of(old, a, old.bots@[a].coins)
        }
    }

    /// `self` is `old` after the bot whose turn it is swapped with the
    /// Ambassador. It drew the two top cards of the deck and named two cards
    /// to hand back. When they can be taken out of its hand and the drawn
    /// cards, it keeps the rest and the deck is the old deck without the
    /// drawn cards and with the two handed back; otherwise the deck is as it
    /// was and the bot is penalized. With fewer than two cards in the deck
    /// nothing changes.
    pub open spec fn after_swapping(&self, old: &Coup) -> bool {
        let a = old.actor();
        let d = old.deck@;
        &&& self.playing_bots@ == old.playing_bots@
        &&& self.score@ == old.score@
        &&& self.turn == old.turn
        &&& self.moves == old.moves
        &&& self.same_bots(old)
        &&& self.same_coins(old)
        &&& if d.len() < 2 {
            &&& self.same_cards_except(old, -1)
            &&& self.deck@ == d
            &&& self.discard_pile@ == old.discard_pile@
        } else {
            let pool = old.bots@[a].cards@ + seq![d[d.len() - 1], d[d.len() - 2]];
            exists|r0: Card, r1: Card|
                #![trigger can_hand_back(pool, r0, r1)]
                if can_hand_back(pool, r0, r1) {
                    &&& pool_minus(pool, r0, r1, self.bots@[a].cards@)
                    &&& self.same_cards_except(old, a)
                    &&& self.discard_pile@ == old.discard_pile@
                    &&& self.deck@.to_multiset() == d.drop_last().drop_last().to_multiset().insert(
                        r0,
                    ).insert(r1)
                } else {
                    self.after_card_loss(old, old.bots@[a].name@)
                }
        }
    }

    /// `self` is `old` after the bot whose turn it is paid `cost` to make
    /// `target` lose a card; when it cannot pay, or the target is not in the
    /// game, it is penalized instead and keeps its coins.
    pub open spec fn after_strike(&self, old: &Coup, target: Seq<char>, cost: u8) -> bool {
        let a = old.actor();
        let c = old.bots@[a].coins;
        if c >= cost && old.target_valid(target) {
            &&& self.after_card_loss(old, target)
            &&& self.bots@[a].coins == c - cost
            &&& forall|j: int|
                0 <= j < old.bots@.len() && j != a ==> (#[trigger] self.bots@[j]).coins
                    == old.bots@[j].coins
        } else {
            self.after_card_loss(old, old.bots@[a].name@)
                && self.same_coins(old)
        }
    }

    /// `self` is `old` after the bot whose turn it is carried out `action`
    /// (an assassination or a theft) on `target`.
    pub open spec fn carried_out(&self, old: &Coup, action: Action, target: Seq<char>) -> bool {
        if action is Assassination {
            self.after_strike(old, target, ASSASSINATION_COST)
        } else {
            self.after_stealing(old, target)
        }
    }

    /// Only the history changed from `old`.
    pub open spec fn only_logged(&self, old: &Coup) -> bool {
        &&& self.same_table(old)
        &&& self.same_cards_except(old, -1)
        &&& self.same_coins(old)
        &&& self.discard_pile@ == old.discard_pile@
    }

    pub(crate) fn add_coins(&mut self, i: usize, amount: u8)
        requires
            old(self).wf(),
            i < old(self).bots@.len(),
            old(self).bots@[i as int].coins + amount <= u8::MAX,
        ensures
            final(self).wf(),
            final(self).coins_set(old(self), i as int, (old(self).bots@[i as int].coins + amount) as u8),
            final(self).card_total() == old(self).card_total(),
    {
        let c = self.bots[i].coins;
        self.bots[i].coins = c + amount;
        proof {
            assert(self.bots@ =~= old(self).bots@.update(i as int, self.bots@[i as int]));
            assert(hand_total(self.bots@) == hand_total(old(self).bots@)) by {
                lemma_hand_total_update(old(self).bots@, i as int, self.bots@[i as int]);
                assert(hand_total(self.bots@).add(old(self).bots@[i as int].cards@.to_multiset())
                    == hand_total(old(self).bots@).add(old(self).bots@[i as int].cards@.to_multiset()));
                assert forall|x: Card| hand_total(self.bots@).count(x) == hand_total(old(self).bots@).count(x) by {
                    assert(hand_total(self.bots@).add(old(self).bots@[i as int].cards@.to_multiset()).count(x)
                        == hand_total(old(self).bots@).add(old(self).bots@[i as int].cards@.to_multiset()).count(x));
                }
                assert(hand_total(self.bots@) =~= hand_total(old(self).bots@));
            }
            lemma_wf_keeps(old(self), self);
        }
    }

    pub(crate) fn take_coins(&mut self, i: usize, amount: u8)
        requires
            old(self).wf(),
            i < old(self).bots@.len(),
            old(self).bots@[i as int].coins >= amount,
        ensures
            final(self).wf(),
            final(self).coins_set(old(self), i as int, (old(self).bots@[i as int].coins - amount) as u8),
            final(self).card_total() == old(self).card_total(),
    {
        let c = self.bots[i].coins;
        self.bots[i].coins = c - amount;
        proof {
            assert(self.bots@ =~= old(self).bots@.update(i as int, self.bots@[i as int]));
            assert(hand_total(self.bots@) == hand_total(old(self).bots@)) by {
                lemma_hand_total_update(old(self).bots@, i as int, self.bots@[i as int]);
                assert forall|x: Card| hand_total(self.bots@).count(x) == hand_total(old(self).bots@).count(x) by {
                    assert(hand_total(self.bots@).add(old(self).bots@[i as int].cards@.to_multiset()).count(x)
                        == hand_total(old(self).bots@).add(old(self).bots@[i as int].cards@.to_multiset()).count(x));
                }
                assert(hand_total(self.bots@) =~= hand_total(old(self).bots@));
            }
            lemma_wf_keeps(old(self), self);
        }
    }

    /// The bot whose turn it is takes income: one coin.
    pub fn action_income(&mut self)
        requires
            old(self).wf(),
            old(self).playing_bots@.len() > 0,
            old(self).bots@[old(self).actor()].coins < FORCED_COUP_COINS,
        ensures
            final(self).wf(),
            final(self).coins_set(old(self), old(self).actor(), (old(self).bots@[old(self).actor()].coins + 1) as u8),
            final(self).card_total() == old(self).card_total(),
    {
        let a = self.playing_bots[self.turn];
        self.add_coins(a, 1);
    }

    /// The bot whose turn it is takes foreign aid: two coins.
    pub fn action_foraign_aid(&mut self)
        requires
            old(self).wf(),
            old(self).playing_bots@.len() > 0,
            old(self).bots@[old(self).actor()].coins < FORCED_COUP_COINS,
        ensures
            final(self).wf(),
            final(self).coins_set(old(self), old(self).actor(), (old(self).bots@[old(self).actor()].coins + 2) as u8),
            final(self).card_total() == old(self).card_total(),
    {
        let a = self.playing_bots[self.turn];
        self.add_coins(a, 2);
    }

    /// The bot whose turn it is takes tax: three coins.
    pub fn action_tax(&mut self)
        requires
            old(self).wf(),
            old(self).playing_bots@.len() > 0,
            old(self).bots@[old(self).actor()].coins < FORCED_COUP_COINS,
        ensures
            final(self).wf(),
            final(self).coins_set(old(self), old(self).actor(), (old(self).bots@[old(self).actor()].coins + 3) as u8),
            final(self).card_total() == old(self).card_total(),
    {
        let a = self.playing_bots[self.turn];
        self.add_coins(a, 3);
    }

    /// The bot whose turn it is steals from `target`: it takes two of the
    /// target's coins, or all of them when the target has fewer. Nothing
    /// happens when `target` is not in the game or is the thief itself.
    pub fn action_stealing(&mut self, target: String)
        requires
            old(self).wf(),
            old(self).playing_bots@.len() > 0,
            old(self).bots@[old(self).actor()].coins < FORCED_COUP_COINS,
        ensures
            final(self).wf(),
            final(self).card_total() == old(self).card_total(),
            final(self).after_stealing(old(self), target@),
            final(self).history@ == old(self).history@,
    {
        let a = self.playing_bots[self.turn];
        if self.target_not_found(target.clone()) {
            self.add_coins(a, 0);
            return;
        }
        let t = self.find_bot(&target).unwrap();
        if t == a {
            self.add_coins(a, 0);
            return;
        }
        let target_coins = self.bots[t].coins;
        let booty: u8 = if target_coins < 2 {
            target_coins
        } else {
            2
        };
        self.add_coins(a, booty);
        self.take_coins(t, booty);
    }

    /// The bot whose turn it is pays three coins to assassinate `target`, who
    /// loses a card. With fewer than three coins, or a target that is not in
    /// the game, the assassin is penalized instead and keeps its coins.
    pub fn action_assassination(&mut self, target: String)
        requires
            old(self).wf(),
            old(self).playing_bots@.len() > 0,
        ensures
            final(self).wf(),
            final(self).card_total() == old(self).card_total(),
            final(self).history@ == old(self).history@,
            final(self).after_strike(old(self), target@, ASSASSINATION_COST),
    {
        self.pay_and_strike(target, ASSASSINATION_COST);
    }

    /// The bot whose turn it is pays seven coins to coup `target`, who loses
    /// a card. With fewer than seven coins, or a target that is not in the
    /// game, the bot is penalized instead and keeps its coins.
    pub fn action_couping(&mut self, target: String)
        requires
            old(self).wf(),
            old(self).playing_bots@.len() > 0,
        ensures
            final(self).wf(),
            final(self).card_total() == old(self).card_total(),
            final(self).history@ == old(self).history@,
            final(self).after_strike(old(self), target@, COUP_COST),
    {
        self.pay_and_strike(target, COUP_COST);
    }

    /// The bot whose turn it is pays `cost` to make `target` lose a card, or
    /// is penalized when it cannot pay or the target is not in the game.
    pub(crate) fn pay_and_strike(&mut self, target: String, cost: u8)
        requires
            old(self).wf(),
            old(self).playing_bots@.len() > 0,
        ensures
            final(self).wf(),
            final(self).card_total() == old(self).card_total(),
            final(self).history@ == old(self).history@,
            final(self).after_strike(old(self), target@, cost),
    {
        let a = self.playing_bots[self.turn];
        let coins = self.bots[a].coins;
        if coins < cost || self.target_not_found(target.clone()) {
            let name = self.bots[a].name.clone();
            self.penalize_bot(name);
        } else {
            let ghost before = *self;
            self.take_coins(a, cost);
            proof {
                assert(names_of(self.bots@) =~= names_of(before.bots@));
                assert(self.target_valid(target@) == before.target_valid(target@));
            }
            self.card_loss(target);
        }
    }

    /// Bot `i` answers a swap: `drawn` are the two cards it drew, `back` the
    /// two it hands back. When `back` can be taken out of its hand and the
    /// drawn cards, it keeps the rest and `back` goes into the deck, which is
    /// shuffled; otherwise nothing changes but the drawn cards going back on
    /// top of the deck, and the answer is refused.
    pub fn exchange(&mut self, i: usize, drawn: [Card; 2], back: [Card; 2]) -> (r: bool)
        requires
            old(self).wf(),
            i < old(self).bots@.len(),
        ensures
            final(self).wf(),
            final(self).discard_pile@ == old(self).discard_pile@,
            final(self).history@ == old(self).history@,
            final(self).playing_bots@ == old(self).playing_bots@,
            final(self).score@ == old(self).score@,
            final(self).turn == old(self).turn,
            final(self).moves == old(self).moves,
            final(self).same_bots(old(self)),
            final(self).same_coins(old(self)),
            final(self).same_cards_except(old(self), i as int),
            final(self).card_total() == old(self).card_total().insert(drawn[0]).insert(drawn[1]),
            r == can_hand_back(old(self).bots@[i as int].cards@ + seq![drawn[0], drawn[1]], back[0], back[1]),
            r ==> pool_minus(
                old(self).bots@[i as int].cards@ + seq![drawn[0], drawn[1]],
                back[0],
                back[1],
                final(self).bots@[i as int].cards@,
            ),
            r ==> final(self).deck@.len() == old(self).deck@.len() + 2,
            r ==> final(self).deck@.to_multiset() == old(self).deck@.to_multiset().insert(back[0]).insert(
                back[1],
            ),
            !r ==> final(self).bots@[i as int].cards@ == old(self).bots@[i as int].cards@,
            !r ==> final(self).deck@ == old(self).deck@.push(drawn[1]).push(drawn[0]),
    {
        let ghost pool0 = self.bots@[i as int].cards@ + seq![drawn[0], drawn[1]];
        let mut pool = self.bots[i].cards.clone();
        pool.push(drawn[0]);
        pool.push(drawn[1]);
        proof {
            assert(pool@ =~= pool0);
        }
        if !holds(&pool, back[0]) {
            self.deck.push(drawn[1]);
            self.deck.push(drawn[0]);
            proof {
                assert(!can_hand_back(pool0, back[0], back[1]));
                assert(self.card_total() =~= old(self).card_total().insert(drawn[0]).insert(drawn[1]));
            }
            return false;
        }
        remove_first(&mut pool, back[0]);
        if !holds(&pool, back[1]) {
            self.deck.push(drawn[1]);
            self.deck.push(drawn[0]);
            proof {
                assert(!can_hand_back(pool0, back[0], back[1]));
                assert(self.card_total() =~= old(self).card_total().insert(drawn[0]).insert(drawn[1]));
            }
            return false;
        }
        let ghost mid = pool@;
        remove_first(&mut pool, back[1]);
        let ghost bots0 = self.bots@;
        let ghost deck0 = self.deck@;
        self.bots[i].cards = pool;
        self.deck.push(back[0]);
        self.deck.push(back[1]);
        shuffle(&mut self.deck);
        proof {
            let new_hand = self.bots@[i as int].cards@;
            assert(pool_minus(pool0, back[0], back[1], new_hand));
            assert(can_hand_back(pool0, back[0], back[1]));
            assert(self.bots@ == bots0.update(i as int, self.bots@[i as int]));
            lemma_hand_total_update(bots0, i as int, self.bots@[i as int]);
            let hb = hand_total(bots0);
            let hn = hand_total(self.bots@);
            let mo = bots0[i as int].cards@.to_multiset();
            let mn = new_hand.to_multiset();
            assert(pool0.to_multiset() =~= mo.insert(drawn[0]).insert(drawn[1])) by {
                assert(pool0 =~= bots0[i as int].cards@.push(drawn[0]).push(drawn[1]));
            }
            assert(mn.insert(back[1]).insert(back[0]) == pool0.to_multiset());
            lemma_exchange_total(
                hb,
                hn,
                mo,
                mn,
                pool0.to_multiset(),
                deck0.to_multiset(),
                self.deck@.to_multiset(),
                self.discard_pile@.to_multiset(),
                drawn,
                back,
            );
            lemma_wf_keeps(old(self), self);
        }
        true
    }

    /// The bot whose turn it is swaps with the Ambassador: it draws two cards,
    /// hands two back out of its hand and those, and keeps the rest. Handing
    /// back cards it does not have is penalized. With fewer than two cards in
    /// the deck, which a dealt game never has, nothing happens.
    pub fn action_swapping(&mut self)
        requires
            old(self).wf(),
            old(self).playing_bots@.len() > 0,
        ensures
            final(self).wf(),
            final(self).card_total() == old(self).card_total(),
            final(self).history@ == old(self).history@,
            final(self).after_swapping(old(self)),
    {
        let a = self.playing_bots[self.turn];
        if self.deck.len() < 2 {
            return;
        }
        let ghost before = *self;
        let d0 = self.deck.pop().unwrap();
        let d1 = self.deck.pop().unwrap();
        proof {
            assert(before.deck@ =~= self.deck@.push(d1).push(d0));
            assert(before.card_total() =~= self.card_total().insert(d0).insert(d1));
            lemma_wf_keeps(&before, self);
        }
        let ghost mid_deck = self.deck@;
        let context = self.context_for(a);
        let back = self.interfaces[a].on_swapping_cards([d0, d1], &context);
        let ok = self.exchange(a, [d0, d1], back);
        if !ok {
            proof {
                assert(self.deck@ =~= before.deck@);
            }
            let ghost mid = *self;
            let name = self.bots[a].name.clone();
            self.penalize_bot(name);
            proof {
                lemma_after_card_loss_from(&before, &mid, self, before.bots@[a as int].name@);
                let d = before.deck@;
                assert(d[d.len() - 1] == d0 && d[d.len() - 2] == d1);
                let pool = before.bots@[a as int].cards@ + seq![d[d.len() - 1], d[d.len() - 2]];
                assert(!can_hand_back(pool, back[0], back[1]));
                assert(self.after_card_loss(&before, before.bots@[a as int].name@));
                assert(self.same_coins(&before));
                assert(self.same_bots(&before));
                assert(a as int == before.actor());
                assert(self.playing_bots@ == before.playing_bots@);
                assert(self.turn == before.turn && self.moves == before.moves);
                assert(self.after_swapping(&before));
            }
        } else {
            proof {
                let d = before.deck@;
                assert(d.drop_last().drop_last() =~= mid_deck);
                assert(d[d.len() - 1] == d0 && d[d.len() - 2] == d1);
                let pool = before.bots@[a as int].cards@ + seq![d[d.len() - 1], d[d.len() - 2]];
                assert(pool_minus(pool, back[0], back[1], self.bots@[a as int].cards@));
                assert(self.same_cards_except(&before, a as int));
                assert(can_hand_back(pool, back[0], back[1]));
                assert(self.deck@.to_multiset() == d.drop_last().drop_last().to_multiset().insert(
                    back[0],
                ).insert(back[1]));
                assert(self.discard_pile@ == before.discard_pile@);
                assert(a as int == before.actor());
                assert(self.playing_bots@ == before.playing_bots@);
                assert(self.score@ == before.score@);
                assert(self.turn == before.turn && self.moves == before.moves);
                assert(self.same_bots(&before));
                assert(self.same_coins(&before));
                assert(self.after_swapping(&before));
            }
        }
    }
}

} // verus!
