//! The rounds that put a claim to the table: challenges and counters.
use vstd::prelude::*;

use crate::engine::{
    lemma_block_challenged_from, lemma_own_name, lemma_polled_prefix, lemma_prefix_index, named_index, Coup, COUP_COST,
    FORCED_COUP_COINS,
};
use crate::types::{
    action_claim, action_counter, action_event, action_target, challenge_event, claim_of,
    counter_challenge_event, counter_event, hand_backs_counter, make_counter_event, Action,
    ChallengeRound, Counter, History,
};

verus! {

broadcast use {vstd::seq_lib::group_to_multiset_ensures, vstd::multiset::group_multiset_axioms};

impl Coup {
    /// The seats, turn, move count and score are as in `old`, the bots are
    /// the same bots, and the history only grew.
    pub open spec fn same_game(&self, old: &Coup) -> bool {
        &&& self.playing_bots@ == old.playing_bots@
        &&& self.score@ == old.score@
        &&& self.turn == old.turn
        &&& self.moves == old.moves
        &&& self.same_bots(old)
        &&& old.history@.len() <= self.history@.len()
        &&& self.history@.take(old.history@.len() as int) == old.history@
    }

    /// A challenge-only action (swapping, tax) of the bot whose turn it is
    /// took effect on `old`.
    pub open spec fn performed(&self, old: &Coup, action: Action) -> bool {
        if action == Action::Tax {
            self.only_coins_of(old, old.actor(), (old.bots@[old.actor()].coins + 3) as u8)
        } else {
            self.after_swapping(old)
        }
    }

    /// `self` is `old` after a challenge-only action (swapping, tax) of the
    /// bot whose turn it is was put to the table. Unchallenged, it took
    /// effect. Challenged by `c`, another bot in the game: when the bot held
    /// the claimed card, `c` went through card loss, the bot swapped the card
    /// back, and the action took effect; otherwise the bot went through card
    /// loss and nothing else happened.
    pub open spec fn challenge_only_outcome(&self, old: &Coup, action: Action) -> bool {
        let me = old.bots@[old.actor()];
        let claim = action_claim(action)->0;
        ||| self.history@ == old.history@ && self.performed(old, action)
        ||| exists|c: String|
            #![trigger challenge_event(action, c, me.name)]
            {
                &&& c@ != me.name@
                &&& old.target_valid(c@)
                &&& self.history@ == old.history@.push(challenge_event(action, c, me.name))
                &&& if me.cards@.contains(claim) {
                    exists|m1: Coup, m2: Coup|
                        #![trigger m2.swapped_back(&m1, me.name@, claim)]
                        {
                            &&& m1.history@ == self.history@
                            &&& m1.after_card_loss(old, c@)
                            &&& m1.same_coins(old)
                            &&& m2.swapped_back(&m1, me.name@, claim)
                            &&& self.performed(&m2, action)
                        }
                } else {
                    self.after_card_loss(old, me.name@) && self.same_coins(old)
                }
            }
    }

    /// `self` is `old` after the block `counter` that bot `by` declared
    /// against the bot whose turn it is was challenged by bot `c`: when `by`
    /// holds a card that backs the block, `c` went through card loss and the
    /// block stands; otherwise `by` went through card loss and `then` holds
    /// from there.
    pub open spec fn block_challenged(
        &self,
        old: &Coup,
        counter: Counter,
        by: Seq<char>,
        c: Seq<char>,
        then: spec_fn(Coup) -> bool,
    ) -> bool {
        if hand_backs_counter(old.bots@[named_index(old.bots@, by)].cards@, counter) {
            self.after_card_loss(old, c) && self.same_coins(old)
        } else {
            exists|m: Coup| #![trigger m.after_card_loss(old, by)]
                m.after_card_loss(old, by) && m.same_coins(old) && then(m)
        }
    }

    /// `self` is `old` after foreign aid of the bot whose turn it is was put
    /// to the table. Unblocked, the bot took two coins. Blocked by `b`,
    /// another bot in the game, and unchallenged, nothing else happened.
    /// Blocked and challenged by `c`, another bot in the game, the challenge
    /// was settled, and the bot took two coins when `b` lost it.
    pub open spec fn aid_outcome(&self, old: &Coup) -> bool {
        let a = old.actor();
        let me = old.bots@[a];
        let fa = Counter::ForeignAid;
        ||| self.history@ == old.history@ && self.only_coins_of(old, a, (me.coins + 2) as u8)
        ||| exists|b: String|
            #![trigger counter_event(fa, b, me.name)]
            {
                &&& b@ != me.name@
                &&& old.target_valid(b@)
                &&& {
                    ||| self.history@ == old.history@.push(counter_event(fa, b, me.name))
                        && self.only_logged(old)
                    ||| exists|c: String|
                        #![trigger counter_challenge_event(fa, c, b)]
                        {
                            &&& c@ != b@
                            &&& old.target_valid(c@)
                            &&& self.history@ == old.history@.push(counter_event(fa, b, me.name)).push(
                                counter_challenge_event(fa, c, b),
                            )
                            &&& self.block_challenged(
                                old,
                                fa,
                                b@,
                                c@,
                                |m: Coup| self.only_coins_of(&m, a, (me.coins + 2) as u8),
                            )
                        }
                }
            }
    }

    /// `self` is `old` after the target `target` of an assassination or a
    /// theft by the bot whose turn it is had its say. Out of the game, it has
    /// none and nothing happens. Otherwise: unblocked, the action is carried
    /// out; blocked and unchallenged, nothing else happens; blocked and
    /// challenged by `c`, another bot in the game, the challenge is settled,
    /// and the action is carried out when the target lost it.
    pub open spec fn block_outcome(&self, old: &Coup, action: Action, target: String) -> bool {
        let me = old.bots@[old.actor()];
        let counter = action_counter(action)->0;
        let ce = counter_event(counter, target, me.name);
        if !old.target_valid(target@) {
            self.history@ == old.history@ && self.only_logged(old)
        } else {
            ||| self.history@ == old.history@ && self.carried_out(old, action, target@)
            ||| self.history@ == old.history@.push(ce) && self.only_logged(old)
            ||| exists|c: String|
                #![trigger counter_challenge_event(counter, c, target)]
                {
                    &&& c@ != target@
                    &&& old.target_valid(c@)
                    &&& self.history@ == old.history@.push(ce).push(
                        counter_challenge_event(counter, c, target),
                    )
                    &&& self.block_challenged(
                        old,
                        counter,
                        target@,
                        c@,
                        |m: Coup| self.carried_out(&m, action, target@),
                    )
                }
        }
    }

    /// `self` is `old` after an assassination or a theft of the bot whose
    /// turn it is, on `target`, was put to the table. Unchallenged, the
    /// target had its say. Challenged by `c`, another bot in the game: when
    /// the bot held the claimed card, `c` went through card loss, the bot
    /// swapped the card back, and then the target had its say; otherwise the
    /// bot went through card loss and the turn ended there.
    pub open spec fn challenge_counter_outcome(&self, old: &Coup, action: Action, target: String) -> bool {
        let me = old.bots@[old.actor()];
        let claim = action_claim(action)->0;
        ||| self.block_outcome(old, action, target)
        ||| exists|c: String|
            #![trigger challenge_event(action, c, me.name)]
            {
                &&& c@ != me.name@
                &&& old.target_valid(c@)
                &&& if me.cards@.contains(claim) {
                    exists|m1: Coup, m2: Coup|
                        #![trigger m2.swapped_back(&m1, me.name@, claim)]
                        {
                            &&& m1.history@ == old.history@.push(challenge_event(action, c, me.name))
                            &&& m1.after_card_loss(old, c@)
                            &&& m1.same_coins(old)
                            &&& m2.swapped_back(&m1, me.name@, claim)
                            &&& self.block_outcome(&m2, action, target)
                        }
                } else {
                    &&& self.history@ == old.history@.push(challenge_event(action, c, me.name))
                    &&& self.after_card_loss(old, me.name@)
                    &&& self.same_coins(old)
                }
            }
    }

    /// `self` differs from `old` only by `ev` appended to the history.
    pub open spec fn logged(&self, old: &Coup, ev: History) -> bool {
        &&& self.bots == old.bots
        &&& self.interfaces == old.interfaces
        &&& self.playing_bots@ == old.playing_bots@
        &&& self.deck@ == old.deck@
        &&& self.discard_pile@ == old.discard_pile@
        &&& self.score@ == old.score@
        &&& self.turn == old.turn
        &&& self.moves == old.moves
        &&& self.history@ == old.history@.push(ev)
    }

    /// `self` is `old` after the bot whose turn it is declared `action`. An
    /// action naming a bot that is not in the game costs it a card and goes
    /// no further. Otherwise the action is logged, and then: income gives a
    /// coin, a coup strikes for seven coins, foreign aid goes to the counter
    /// round, swapping and tax to the challenge round, assassination and
    /// stealing to both.
    pub open spec fn played(&self, old: &Coup, action: Action) -> bool {
        let a = old.actor();
        let me = old.bots@[a];
        let ev = action_event(action, me.name);
        if action_target(action) matches Some(t) && !old.target_valid(t@) {
            &&& self.history@ == old.history@
            &&& self.after_card_loss(old, me.name@)
            &&& self.same_coins(old)
        } else {
            exists|mid: Coup|
                #![trigger mid.logged(old, ev)]
                mid.logged(old, ev) && match action {
                    Action::Income => self.history@ == mid.history@ && self.only_coins_of(
                        &mid,
                        a,
                        (me.coins + 1) as u8,
                    ),
                    Action::Coup(t) => self.history@ == mid.history@ && self.after_strike(
                        &mid,
                        t@,
                        COUP_COST,
                    ),
                    Action::ForeignAid => self.aid_outcome(&mid),
                    Action::Assassination(t) => self.challenge_counter_outcome(&mid, action, t),
                    Action::Stealing(t) => self.challenge_counter_outcome(&mid, action, t),
                    _ => self.challenge_only_outcome(&mid, action),
                }
        }
    }

    /// Everything but the turn and the move count is as in `other`.
    pub open spec fn same_but_clock(&self, other: &Coup) -> bool {
        &&& self.bots == other.bots
        &&& self.interfaces == other.interfaces
        &&& self.playing_bots@ == other.playing_bots@
        &&& self.deck@ == other.deck@
        &&& self.discard_pile@ == other.discard_pile@
        &&& self.history@ == other.history@
        &&& self.score@ == other.score@
    }

    /// Settles the challenge of the card that `action` claims for the bot
    /// whose turn it is, called `name`; `challenger` is the bot that
    /// challenged it, if any. Unchallenged, nothing happens and the action
    /// goes on. Challenged: when the bot holds the card, the challenger goes
    /// through card loss, the bot swaps the card back, and the action goes
    /// on; otherwise the bot goes through card loss and the action stops.
    /// Returns whether the action goes on.
    pub fn settle_challenge(&mut self, action: Action, name: String, challenger: Option<String>) -> (r: bool)
        requires
            old(self).wf(),
            old(self).playing_bots@.len() > 0,
            action_claim(action) is Some,
            name == old(self).bots@[old(self).actor()].name,
        ensures
            final(self).wf(),
            final(self).same_game(old(self)),
            final(self).card_total() == old(self).card_total(),
            ({
                let me = old(self).bots@[old(self).actor()];
                let claim = action_claim(action)->0;
                match challenger {
                    None => r && final(self).history@ == old(self).history@
                        && final(self).only_logged(old(self)),
                    Some(c) => {
                        &&& final(self).history@ == old(self).history@.push(
                            challenge_event(action, c, me.name),
                        )
                        &&& r == me.cards@.contains(claim)
                        &&& r ==> exists|m1: Coup|
                            #![trigger final(self).swapped_back(&m1, me.name@, claim)]
                            m1.history@ == final(self).history@ && m1.after_card_loss(old(self), c@)
                                && m1.same_coins(old(self))
                                && final(self).swapped_back(&m1, me.name@, claim)
                        &&& !r ==> final(self).after_card_loss(old(self), me.name@)
                            && final(self).same_coins(old(self))
                    },
                }
            }),
    {
        let ghost h0 = self.history@;
        let ghost me = self.bots@[self.actor()];
        let ghost claim = action_claim(action)->0;
        proof {
            lemma_own_name(self.bots@, self.actor());
            assert(h0.take(h0.len() as int) =~= h0);
        }
        match challenger {
            None => true,
            Some(c) => {
                let success = self.resolve_challenge(action.duplicate(), name.clone(), c);
                if success {
                    proof {
                        assert(self.history@.take(h0.len() as int) =~= h0);
                    }
                    return false;
                }
                let ghost m1 = *self;
                let card = claim_of(&action).unwrap();
                self.swap_card(card, name);
                proof {
                    assert(self.swapped_back(&m1, me.name@, claim));
                    assert(self.history@.take(h0.len() as int) =~= h0);
                }
                true
            },
        }
    }

    /// A challenge-only action (swapping, tax) of the bot whose turn it is is
    /// put to the table: when nobody challenges, or a challenge fails, the
    /// action is carried out; when a challenge succeeds, it is not.
    pub fn challenge_round_only(&mut self, action: Action)
        requires
            old(self).wf(),
            old(self).playing_bots@.len() > 0,
            old(self).bots@[old(self).actor()].coins < FORCED_COUP_COINS,
            action == Action::Swapping || action == Action::Tax,
        ensures
            final(self).wf(),
            final(self).same_game(old(self)),
            final(self).card_total() == old(self).card_total(),
            final(self).challenge_only_outcome(old(self), action),
    {
        let a = self.playing_bots[self.turn];
        let name = self.bots[a].name.clone();
        let ghost h0 = self.history@;
        let ghost me = self.bots@[a as int];
        let ghost claim = action_claim(action)->0;
        match self.challenge_round(ChallengeRound::Action, &action, name.clone()) {
            None => {
                self.perform_claimed(action);
            },
            Some(c) => {
                let ghost c0 = c;
                if self.settle_challenge(action.duplicate(), name, Some(c)) {
                    let ghost m2 = *self;
                    self.perform_claimed(action);
                    proof {
                        let m1 = choose|m1: Coup|
                            m1.history@ == m2.history@ && m1.after_card_loss(old(self), c0@)
                                && m1.same_coins(old(self)) && m2.swapped_back(&m1, me.name@, claim);
                        assert(self.performed(&m2, action));
                    }
                }
                proof {
                    assert(challenge_event(action, c0, me.name) == challenge_event(action, c0, me.name));
                }
            },
        }
        proof {
            assert(self.history@.take(h0.len() as int) =~= h0);
        }
    }

    /// Carries out a challenge-only action (swapping, tax) of the bot whose
    /// turn it is.
    pub(crate) fn perform_claimed(&mut self, action: Action)
        requires
            old(self).wf(),
            old(self).playing_bots@.len() > 0,
            old(self).bots@[old(self).actor()].coins < FORCED_COUP_COINS,
            action == Action::Swapping || action == Action::Tax,
        ensures
            final(self).wf(),
            final(self).same_game(old(self)),
            final(self).history@ == old(self).history@,
            final(self).card_total() == old(self).card_total(),
            final(self).performed(old(self), action),
    {
        match action {
            Action::Swapping => self.action_swapping(),
            _ => self.action_tax(),
        }
        proof {
            assert(self.history@.take(old(self).history@.len() as int) =~= old(self).history@);
        }
    }

    /// Foreign aid is put to the table: every other bot in the game, in turn
    /// order from just after the bot whose turn it is, may block it by
    /// claiming a Duke; the first that does blocks it. A block can be
    /// challenged: a failed challenge keeps the aid blocked, a successful one
    /// lets it through. Without a block the bot takes two coins.
    pub fn counter_round_only(&mut self)
        requires
            old(self).wf(),
            old(self).playing_bots@.len() > 0,
            old(self).bots@[old(self).actor()].coins < FORCED_COUP_COINS,
        ensures
            final(self).wf(),
            final(self).same_game(old(self)),
            final(self).card_total() == old(self).card_total(),
            final(self).aid_outcome(old(self)),
            ({
                let me = old(self).bots@[old(self).actor()];
                let h = old(self).history@;
                exists|answers: Seq<bool>, blocker: Option<String>|
                    #![trigger old(self).poll_record_at(old(self).turn + 1, old(self).playing_bots@.len() - 1, me.name@, answers, blocker)]
                    old(self).poll_record_at(
                        old(self).turn + 1,
                        old(self).playing_bots@.len() - 1,
                        me.name@,
                        answers,
                        blocker,
                    ) && (blocker is None <==> final(self).history@ == h) && (blocker is Some
                        ==> final(self).history@[h.len() as int] == counter_event(
                        Counter::ForeignAid,
                        blocker->0,
                        me.name,
                    ))
            }),
    {
        let a = self.playing_bots[self.turn];
        let name = self.bots[a].name.clone();
        let ghost h0 = self.history@;
        let ghost me = self.bots@[a as int];
        let n = self.playing_bots.len();
        let ghost s0 = self.turn + 1;
        let ghost nm = me.name@;
        let ghost mut answers: Seq<bool> = Seq::empty();
        let mut counterer: Option<usize> = None;
        let mut d: usize = 1;
        while d < n
            invariant_except_break
                counterer is None,
                answers.len() == self.polled(s0, d - 1, nm).len(),
                forall|i: int| 0 <= i < answers.len() ==> !(#[trigger] answers[i]),
            invariant
                self.wf(),
                *self == *old(self),
                n == self.playing_bots@.len(),
                self.turn < n,
                1 <= d <= n,
                a == self.playing_bots@[self.turn as int],
                me == self.bots@[a as int],
                s0 == self.turn + 1,
                nm == me.name@,
                counterer matches Some(b) ==> b < self.bots@.len() && b != a && self.in_game(b as int),
            ensures
                counterer is None ==> self.poll_record_at(s0, n - 1, nm, answers, None),
                counterer matches Some(b) ==> self.poll_record_at(
                    s0,
                    n - 1,
                    nm,
                    answers,
                    Some(self.bots@[b as int].name),
                ),
            decreases n - d,
        {
            let seat = if self.turn + d < n {
                self.turn + d
            } else {
                self.turn + d - n
            };
            let b = self.playing_bots[seat];
            let ghost prev = self.polled(s0, d - 1, nm);
            proof {
                assert(seat == Self::wrap(s0 + d - 1, n as int));
                lemma_polled_prefix(self, s0, d as int, n - 1, nm);
                lemma_own_name(self.bots@, a as int);
                if b != a {
                    assert(self.bots@[b as int].name@ != nm);
                }
            }
            if self.bots[b].cards.len() > 0 && b != a {
                proof {
                    assert(self.polled(s0, d as int, nm) == prev.push(b));
                }
                let context = self.context_for(b);
                if self.interfaces[b].on_counter(&Action::ForeignAid, name.clone(), &context) {
                    proof {
                        assert(self.playing_bots@[seat as int] == b);
                        let order = self.polled(s0, n - 1, nm);
                        answers = answers.push(true);
                        assert(order[prev.len() as int] == self.polled(s0, d as int, nm)[prev.len() as int]);
                        assert(self.poll_record_at(s0, n - 1, nm, answers, Some(self.bots@[b as int].name)));
                    }
                    counterer = Some(b);
                    break;
                }
                proof {
                    answers = answers.push(false);
                }
            } else {
                proof {
                    if b == a {
                        assert(self.bots@[b as int].name@ == nm);
                    }
                    assert(self.polled(s0, d as int, nm) == prev);
                }
            }
            d = d + 1;
        }
        match counterer {
            Some(b) => {
                let blocker = self.bots[b].name.clone();
                proof {
                    lemma_own_name(self.bots@, b as int);
                    assert(self.bots@[a as int].name@ != self.bots@[b as int].name@);
                    assert(self.target_valid(blocker@));
                }
                let event = make_counter_event(Counter::ForeignAid, blocker.clone(), name.clone());
                self.history.push(event);
                let ghost mid = *self;
                let ghost h1 = self.history@;
                proof {
                    assert(h1.take(h0.len() as int) =~= h0);
                }
                let challenger = self.challenge_round(
                    ChallengeRound::Counter,
                    &Action::ForeignAid,
                    blocker.clone(),
                );
                let ghost ch = challenger;
                self.settle_block(Action::ForeignAid, blocker, challenger);
                proof {
                    if ch is Some {
                        let c = ch->0;
                        lemma_block_challenged_from(
                            old(self),
                            &mid,
                            self,
                            Counter::ForeignAid,
                            blocker@,
                            c@,
                            |m: Coup| self.only_coins_of(&m, a as int, (me.coins + 2) as u8),
                        );
                        assert(counter_challenge_event(Counter::ForeignAid, c, blocker)
                            == counter_challenge_event(Counter::ForeignAid, c, blocker));
                    }
                    assert(counter_event(Counter::ForeignAid, blocker, me.name) == counter_event(
                        Counter::ForeignAid,
                        blocker,
                        me.name,
                    ));
                }
            },
            None => {
                self.action_foraign_aid();
            },
        }
        proof {
            assert(self.history@.take(h0.len() as int) =~= h0);
        }
    }

    /// An action that can be both challenged and countered (assassination,
    /// stealing) of the bot whose turn it is, on `target_name`, is put to the
    /// table. A successful challenge stops it. Otherwise the target, if still
    /// in the game, may block it; a block can in turn be challenged. The
    /// action is carried out when nobody blocks it, or when a challenge of the
    /// block succeeds.
    pub fn challenge_and_counter_round(&mut self, action: Action, target_name: String)
        requires
            old(self).wf(),
            old(self).playing_bots@.len() > 0,
            old(self).bots@[old(self).actor()].coins < FORCED_COUP_COINS,
            action is Assassination || action is Stealing,
        ensures
            final(self).wf(),
            final(self).same_game(old(self)),
            final(self).card_total() == old(self).card_total(),
            final(self).challenge_counter_outcome(old(self), action, target_name),
    {
        let a = self.playing_bots[self.turn];
        let name = self.bots[a].name.clone();
        let ghost h0 = self.history@;
        let ghost me = self.bots@[a as int];
        let ghost claim = action_claim(action)->0;
        match self.challenge_round(ChallengeRound::Action, &action, name.clone()) {
            None => {
                self.counter_stage(action, target_name, name);
            },
            Some(c) => {
                let ghost c0 = c;
                if self.settle_challenge(action.duplicate(), name.clone(), Some(c)) {
                    let ghost m2 = *self;
                    self.counter_stage(action, target_name, name);
                    proof {
                        let m1 = choose|m1: Coup|
                            m1.history@ == m2.history@ && m1.after_card_loss(old(self), c0@)
                                && m1.same_coins(old(self)) && m2.swapped_back(&m1, me.name@, claim);
                        assert(self.block_outcome(&m2, action, target_name));
                        assert(self.history@.take(m2.history@.len() as int) == m2.history@);
                        assert(m2.history@.take(h0.len() as int) =~= h0);
                    }
                }
                proof {
                    assert(challenge_event(action, c0, me.name) == challenge_event(action, c0, me.name));
                    assert(self.history@.take(h0.len() as int) =~= h0);
                }
            },
        }
    }

    /// The target of an assassination or a theft, if still in the game, is
    /// asked whether it blocks the action; its answer goes to `block_stage`.
    pub(crate) fn counter_stage(&mut self, action: Action, target_name: String, name: String)
        requires
            old(self).wf(),
            old(self).playing_bots@.len() > 0,
            old(self).bots@[old(self).actor()].coins < FORCED_COUP_COINS,
            action is Assassination || action is Stealing,
            name == old(self).bots@[old(self).actor()].name,
        ensures
            final(self).wf(),
            final(self).same_game(old(self)),
            final(self).card_total() == old(self).card_total(),
            final(self).block_outcome(old(self), action, target_name),
    {
        let ghost h0 = self.history@;
        proof {
            assert(h0.take(h0.len() as int) =~= h0);
        }
        let t = match self.find_bot(&target_name) {
            Some(t) => t,
            None => {
                return;
            },
        };
        if !(self.is_seated(t) && self.bots[t].cards.len() > 0) {
            return;
        }
        let context = self.context_for(t);
        let countering = self.interfaces[t].on_counter(&action, name.clone(), &context);
        self.block_stage(action, target_name, name, countering);
    }

    /// The target `target_name` of an assassination or a theft by the bot
    /// whose turn it is, called `name`, answered `countering` to whether it
    /// blocks it. Unblocked, the action is carried out. Blocked, the block is
    /// logged and put to a challenge round, whose answer goes to
    /// `settle_block`.
    pub fn block_stage(&mut self, action: Action, target_name: String, name: String, countering: bool)
        requires
            old(self).wf(),
            old(self).playing_bots@.len() > 0,
            old(self).bots@[old(self).actor()].coins < FORCED_COUP_COINS,
            action is Assassination || action is Stealing,
            name == old(self).bots@[old(self).actor()].name,
            old(self).target_valid(target_name@),
        ensures
            final(self).wf(),
            final(self).same_game(old(self)),
            final(self).card_total() == old(self).card_total(),
            !countering ==> final(self).history@ == old(self).history@ && final(self).carried_out(
                old(self),
                action,
                target_name@,
            ),
            countering ==> final(self).block_outcome(old(self), action, target_name)
                && final(self).history@ != old(self).history@,
    {
        let ghost h0 = self.history@;
        if !countering {
            self.carry_out(&action, target_name);
            return;
        }
        let counter = match action {
            Action::Assassination(_) => Counter::Assassination,
            _ => Counter::Stealing,
        };
        let event = make_counter_event(counter, target_name.clone(), name.clone());
        self.history.push(event);
        let ghost mid = *self;
        let ghost h1 = self.history@;
        proof {
            assert(h1.take(h0.len() as int) =~= h0);
            assert(h1.len() == h0.len() + 1);
        }
        let challenger = self.challenge_round(ChallengeRound::Counter, &action, target_name.clone());
        let ghost ch = challenger;
        self.settle_block(action, target_name, challenger);
        proof {
            assert(self.history@.take(h1.len() as int) =~= h1 || self.history@ == h1);
            assert(self.history@.take(h0.len() as int) =~= h0);
            assert(self.history@.len() > h0.len());
            if ch is Some {
                let c = ch->0;
                lemma_block_challenged_from(
                    old(self),
                    &mid,
                    self,
                    counter,
                    target_name@,
                    c@,
                    |m: Coup| self.carried_out(&m, action, target_name@),
                );
                assert(counter_challenge_event(counter, c, target_name) == counter_challenge_event(
                    counter,
                    c,
                    target_name,
                ));
            }
        }
    }

    /// Settles the challenge of a block of `action` (foreign aid, an
    /// assassination or a theft of the bot whose turn it is) declared by
    /// `blocker`; `challenger` is the bot that challenged it, if any.
    /// Unchallenged, the block stands and nothing happens. Challenged: when
    /// the blocker holds a card that backs the block, the challenger goes
    /// through card loss and the block stands; otherwise the blocker goes
    /// through card loss and the action is carried out (on the blocker, for
    /// an assassination or a theft).
    pub fn settle_block(&mut self, action: Action, blocker: String, challenger: Option<String>)
        requires
            old(self).wf(),
            old(self).playing_bots@.len() > 0,
            old(self).bots@[old(self).actor()].coins < FORCED_COUP_COINS,
            action is Assassination || action is Stealing || action is ForeignAid,
            old(self).target_valid(blocker@),
        ensures
            final(self).wf(),
            final(self).same_game(old(self)),
            final(self).card_total() == old(self).card_total(),
            ({
                let a = old(self).actor();
                let me = old(self).bots@[a];
                let counter = action_counter(action)->0;
                match challenger {
                    None => final(self).history@ == old(self).history@ && final(self).only_logged(
                        old(self),
                    ),
                    Some(c) => {
                        &&& final(self).history@ == old(self).history@.push(
                            counter_challenge_event(counter, c, blocker),
                        )
                        &&& if action is ForeignAid {
                            final(self).block_challenged(
                                old(self),
                                counter,
                                blocker@,
                                c@,
                                |m: Coup| final(self).only_coins_of(&m, a, (me.coins + 2) as u8),
                            )
                        } else {
                            final(self).block_challenged(
                                old(self),
                                counter,
                                blocker@,
                                c@,
                                |m: Coup| final(self).carried_out(&m, action, blocker@),
                            )
                        }
                    },
                }
            }),
    {
        let ghost h0 = self.history@;
        let ghost a = self.actor();
        let ghost me = self.bots@[a];
        proof {
            assert(h0.take(h0.len() as int) =~= h0);
        }
        let c = match challenger {
            None => {
                return;
            },
            Some(c) => c,
        };
        let counter = match action {
            Action::Assassination(_) => Counter::Assassination,
            Action::ForeignAid => Counter::ForeignAid,
            _ => Counter::Stealing,
        };
        let ghost c0 = c;
        let ghost backed = hand_backs_counter(
            self.bots@[named_index(self.bots@, blocker@)].cards@,
            counter,
        );
        if self.resolve_counter_challenge(counter, blocker.clone(), c) {
            let ghost m = *self;
            let ghost h1 = self.history@;
            match action {
                Action::ForeignAid => self.action_foraign_aid(),
                _ => self.carry_out(&action, blocker),
            }
            proof {
                assert(!backed);
                assert(self.history@ == h1);
                assert(m.after_card_loss(old(self), blocker@));
            }
        } else {
            proof {
                assert(backed);
            }
        }
        proof {
            assert(self.history@.take(h0.len() as int) =~= h0);
        }
    }

    pub(crate) fn carry_out(&mut self, action: &Action, target: String)
        requires
            old(self).wf(),
            old(self).playing_bots@.len() > 0,
            old(self).bots@[old(self).actor()].coins < FORCED_COUP_COINS,
            action is Assassination || action is Stealing,
        ensures
            final(self).wf(),
            final(self).same_game(old(self)),
            final(self).history@ == old(self).history@,
            final(self).card_total() == old(self).card_total(),
            final(self).carried_out(old(self), *action, target@),
    {
        match action {
            Action::Assassination(_) => self.action_assassination(target),
            _ => self.action_stealing(target),
        }
        proof {
            assert(self.history@.take(old(self).history@.len() as int) =~= old(self).history@);
        }
    }


    /// `self` is `old` after one turn: the bot whose turn it was, if still
    /// in the game, declared an action (a coup, with ten coins or more) that
    /// was played; the move count went up by one and the turn passed on.
    pub open spec fn turn_taken(&self, old: &Coup) -> bool {
        &&& self.card_total() == old.card_total()
        &&& self.playing_bots@ == old.playing_bots@
        &&& self.score@ == old.score@
        &&& self.same_bots(old)
        &&& self.moves == old.moves + 1
        &&& self.is_next_turn(old.turn as int, self.turn as int)
        &&& old.history@.len() <= self.history@.len()
        &&& self.history@.take(old.history@.len() as int) == old.history@
        &&& ({
            let me = old.bots@[old.actor()];
            if me.cards@.len() == 0 {
                self.same_but_clock(old)
            } else {
                exists|act: Action, s: Coup|
                    #![trigger s.played(old, act)]
                    (me.coins >= FORCED_COUP_COINS ==> act is Coup) && s.played(old, act)
                        && self.same_but_clock(&s)
            }
        })
    }

    /// One turn of the bot whose turn it is: it declares an action (a coup,
    /// when it has ten coins or more), which is played; then the turn passes
    /// to the next seat still in the game. A bot out of the game only passes
    /// the turn on.
    pub fn game_loop(&mut self)
        requires
            old(self).wf(),
            old(self).playing_bots@.len() > 0,
            old(self).moves < usize::MAX,
        ensures
            final(self).wf(),
            final(self).turn_taken(old(self)),
    {
        let a = self.playing_bots[self.turn];
        let ghost h0 = self.history@;
        proof {
            assert(h0.take(h0.len() as int) =~= h0);
        }
        if self.bots[a].cards.len() > 0 {
            let context = self.context_for(a);
            let action = if self.bots[a].coins >= FORCED_COUP_COINS {
                Action::Coup(self.interfaces[a].on_auto_coup(&context))
            } else {
                self.interfaces[a].on_turn(&context)
            };
            let ghost act = action;
            self.play_action(action);
            let ghost s = *self;
            proof {
                assert(s.played(old(self), act));
            }
        }
        self.moves = self.moves + 1;
        let next = self.next_turn();
        let ghost pre = *self;
        self.turn = next;
        proof {
            let n = pre.playing_bots@.len() as int;
            let d = choose|d: int|
                1 <= d <= n && next == #[trigger] Coup::wrap(old(self).turn + d, n) && (d == n
                    || pre.in_game(pre.playing_bots@[next as int] as int)) && forall|e: int|
                    1 <= e < d ==> !pre.in_game(
                        pre.playing_bots@[#[trigger] Coup::wrap(old(self).turn + e, n)] as int,
                    );
            assert(forall|i: int| pre.in_game(i) == self.in_game(i));
            assert(self.is_next_turn(old(self).turn as int, next as int));
        }
    }

    /// The bot whose turn it is declares `action`. An action that names a
    /// bot not in the game is penalized and goes no further. Otherwise it is
    /// logged and put to the table: income and a coup at once, foreign aid to
    /// the counter round, swapping and tax to the challenge round,
    /// assassination and stealing to both.
    pub fn play_action(&mut self, action: Action)
        requires
            old(self).wf(),
            old(self).playing_bots@.len() > 0,
            old(self).bots@[old(self).actor()].coins < FORCED_COUP_COINS || action is Coup,
        ensures
            final(self).wf(),
            final(self).card_total() == old(self).card_total(),
            final(self).same_game(old(self)),
            final(self).played(old(self), action),
    {
        let a = self.playing_bots[self.turn];
        let name = self.bots[a].name.clone();
        let ghost h0 = self.history@;
        let ghost me = self.bots@[a as int];
        let ghost ev = action_event(action, me.name);
        match action {
            Action::Assassination(t) => {
                if self.target_not_found(t.clone()) {
                    self.penalize_bot(name);
                } else {
                    self.history.push(History::ActionAssassination { by: name, target: t.clone() });
                    let ghost mid = *self;
                    self.challenge_and_counter_round(Action::Assassination(t.clone()), t);
                    proof {
                        assert(mid.logged(old(self), ev));
                        lemma_prefix_index(self.history@, mid.history@, h0.len() as int);
                    }
                }
            },
            Action::Coup(t) => {
                if self.target_not_found(t.clone()) {
                    self.penalize_bot(name);
                } else {
                    self.history.push(History::ActionCoup { by: name, target: t.clone() });
                    let ghost mid = *self;
                    self.action_couping(t);
                    proof {
                        assert(mid.logged(old(self), ev));
                        assert(self.after_strike(&mid, t@, COUP_COST));
                    }
                }
            },
            Action::ForeignAid => {
                self.history.push(History::ActionForeignAid { by: name });
                let ghost mid = *self;
                self.counter_round_only();
                proof {
                    assert(mid.logged(old(self), ev));
                }
            },
            Action::Swapping => {
                self.history.push(History::ActionSwapping { by: name });
                let ghost mid = *self;
                self.challenge_round_only(Action::Swapping);
                proof {
                    assert(mid.logged(old(self), ev));
                }
            },
            Action::Income => {
                self.history.push(History::ActionIncome { by: name });
                let ghost mid = *self;
                self.action_income();
                proof {
                    assert(mid.logged(old(self), ev));
                    assert(self.only_coins_of(&mid, a as int, (me.coins + 1) as u8));
                }
            },
            Action::Stealing(t) => {
                if self.target_not_found(t.clone()) {
                    self.penalize_bot(name);
                } else {
                    self.history.push(History::ActionStealing { by: name, target: t.clone() });
                    let ghost mid = *self;
                    self.challenge_and_counter_round(Action::Stealing(t.clone()), t);
                    proof {
                        assert(mid.logged(old(self), ev));
                    }
                }
            },
            Action::Tax => {
                self.history.push(History::ActionTax { by: name });
                let ghost mid = *self;
                self.challenge_round_only(Action::Tax);
                proof {
                    assert(mid.logged(old(self), ev));
                }
            },
        }
        proof {
            assert(self.history@.take(h0.len() as int) =~= h0);
        }
    }
}

} // verus!
