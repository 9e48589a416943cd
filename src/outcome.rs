//! The end of a game: standings, the score and playing a whole game.
use vstd::prelude::*;

use crate::deck::is_full_set;
use crate::engine::{Coup, GameError, MAX_MOVES};
use crate::names::{is_taken, taken};
use crate::score::{count, deltas, lemma_zero_sum, score_deltas, total, Standing, MAX_SEATS, POINT};
use vstd::set::Set;

verus! {

broadcast use {vstd::seq_lib::group_to_multiset_ensures, vstd::multiset::group_multiset_axioms};

/// The seated bots among the first `k` registered ones.
pub open spec fn seated_below(t: &Coup, k: int) -> Set<usize> {
    Set::new(|x: usize| x < k && t.playing_bots@.contains(x))
}

/// In standings where exactly the seated bots won or lost, the winners and
/// losers among the first `k` bots are the seated ones.
proof fn lemma_ranked_are_seated(t: &Coup, s: Seq<Standing>, k: int)
    requires
        0 <= k <= s.len(),
        s.len() <= usize::MAX,
        forall|i: int| 0 <= i < s.len() ==> (s[i] != Standing::Absent) == t.seated(i),
    ensures
        seated_below(t, k).finite(),
        count(s.take(k), Standing::Winner) + count(s.take(k), Standing::Loser) == seated_below(
            t,
            k,
        ).len(),
    decreases k,
{
    let all = t.playing_bots@.to_set();
    assert(seated_below(t, k).subset_of(all));
    vstd::set_lib::lemma_len_subset(seated_below(t, k), all);
    if k == 0 {
        assert(seated_below(t, 0) =~= Set::empty());
        assert(s.take(0) =~= Seq::<Standing>::empty());
    } else {
        lemma_ranked_are_seated(t, s, k - 1);
        assert(s.take(k).drop_last() =~= s.take(k - 1));
        if t.seated(k - 1) {
            assert(seated_below(t, k) =~= seated_below(t, k - 1).insert((k - 1) as usize));
            assert(!seated_below(t, k - 1).contains((k - 1) as usize));
        } else {
            assert(seated_below(t, k) =~= seated_below(t, k - 1));
        }
    }
}

/// At most six bots win or lose a game, when the standings rank exactly the
/// seated bots.
proof fn lemma_ranked_at_most_six(t: &Coup, s: Seq<Standing>)
    requires
        t.wf(),
        s.len() <= usize::MAX,
        forall|i: int| 0 <= i < s.len() ==> (s[i] != Standing::Absent) == t.seated(i),
    ensures
        count(s, Standing::Winner) + count(s, Standing::Loser) <= MAX_SEATS,
{
    lemma_ranked_are_seated(t, s, s.len() as int);
    assert(s.take(s.len() as int) =~= s);
    let all = t.playing_bots@.to_set();
    assert(seated_below(t, s.len() as int).subset_of(all));
    vstd::set_lib::lemma_len_subset(seated_below(t, s.len() as int), all);
    t.playing_bots@.lemma_cardinality_of_set();
}

/// A game is zero-sum: however it ended, and whoever is named the winners,
/// the score changes of all registered bots add up to exactly zero.
pub proof fn lemma_game_zero_sum(t: &Coup, winners: Seq<String>)
    requires
        t.wf(),
    ensures
        total(deltas(t.standings(winners))) == 0,
        total(deltas(t.final_standings())) == 0,
{
    assert(t.bots.len() == t.bots@.len());
    lemma_ranked_at_most_six(t, t.standings(winners));
    lemma_zero_sum(t.standings(winners));
    lemma_ranked_at_most_six(t, t.final_standings());
    lemma_zero_sum(t.final_standings());
}

impl Coup {
    /// How bot `i` ended the game, `winners` being the names of the winners.
    pub open spec fn standing(&self, i: int, winners: Seq<String>) -> Standing {
        if !self.seated(i) {
            Standing::Absent
        } else if taken(winners, self.bots@[i].name@) {
            Standing::Winner
        } else {
            Standing::Loser
        }
    }

    /// How each registered bot ended the game, `winners` being the names of
    /// the winners.
    pub open spec fn standings(&self, winners: Seq<String>) -> Seq<Standing> {
        Seq::new(self.bots@.len(), |i: int| self.standing(i, winners))
    }

    /// How each registered bot ended the game played: the seated bots still
    /// holding a card won, the other seated bots lost.
    pub open spec fn final_standings(&self) -> Seq<Standing> {
        Seq::new(
            self.bots@.len(),
            |i: int|
                if !self.seated(i) {
                    Standing::Absent
                } else if self.bots@[i].cards@.len() > 0 {
                    Standing::Winner
                } else {
                    Standing::Loser
                },
        )
    }

    /// Every score has room for the change of one game.
    pub open spec fn score_fits(&self) -> bool {
        forall|i: int|
            0 <= i < self.score@.len() ==> -(i64::MAX - POINT) <= (#[trigger] self.score@[i]).1 <= i64::MAX
                - POINT
    }

    /// Whether every score has room for the change of one more game.
    pub fn has_score_room(&self) -> (r: bool)
        ensures
            r == self.score_fits(),
    {
        let mut i: usize = 0;
        while i < self.score.len()
            invariant
                i <= self.score@.len(),
                forall|j: int|
                    0 <= j < i ==> -(i64::MAX - POINT) <= (#[trigger] self.score@[j]).1 <= i64::MAX - POINT,
            decreases self.score@.len() - i,
        {
            let v = self.score[i].1;
            if v < -(i64::MAX - POINT) || v > i64::MAX - POINT {
                return false;
            }
            i = i + 1;
        }
        true
    }

    /// Adds to each score the change its standing earns, when at most six
    /// bots were seated; otherwise the score is left as it is.
    pub(crate) fn apply_standings(&mut self, st: &Vec<Standing>)
        requires
            old(self).wf(),
            old(self).score_fits(),
            st@.len() == old(self).bots@.len(),
        ensures
            final(self).wf(),
            final(self).same_table_but_score(old(self)),
            final(self).score@.len() == old(self).score@.len(),
            forall|i: int| 0 <= i < final(self).score@.len() ==> (#[trigger] final(self).score@[i]).0 == old(self).score@[i].0,
            forall|i: int|
                0 <= i < final(self).score@.len() ==> (#[trigger] final(self).score@[i]).1 == old(self).score@[i].1 + if count(st@, Standing::Winner) + count(st@, Standing::Loser) <= MAX_SEATS {
                    deltas(st@)[i]
                } else {
                    0
                },
    {
        let mut w: usize = 0;
        let mut l: usize = 0;
        let mut i: usize = 0;
        while i < st.len()
            invariant
                i <= st@.len(),
                w == count(st@.take(i as int), Standing::Winner),
                l == count(st@.take(i as int), Standing::Loser),
                w + l <= i,
            decreases st@.len() - i,
        {
            assert(st@.take(i + 1).drop_last() =~= st@.take(i as int));
            match st[i] {
                Standing::Winner => w = w + 1,
                Standing::Loser => l = l + 1,
                Standing::Absent => {},
            }
            i = i + 1;
        }
        assert(st@.take(i as int) =~= st@);
        if w + l > MAX_SEATS {
            return;
        }
        let d = score_deltas(st);
        let mut j: usize = 0;
        while j < st.len()
            invariant
                j <= st@.len(),
                d@.len() == st@.len(),
                st@.len() == old(self).bots@.len(),
                forall|k: int| 0 <= k < d@.len() ==> d@[k] as int == #[trigger] deltas(st@)[k],
                forall|k: int| 0 <= k < d@.len() ==> -POINT <= #[trigger] d@[k] <= POINT,
                self.same_table_but_score(old(self)),
                self.score@.len() == old(self).score@.len(),
                forall|k: int| 0 <= k < self.score@.len() ==> (#[trigger] self.score@[k]).0 == old(self).score@[k].0,
                forall|k: int| 0 <= k < j ==> (#[trigger] self.score@[k]).1 == old(self).score@[k].1 + d@[k],
                forall|k: int| j <= k < self.score@.len() ==> (#[trigger] self.score@[k]).1 == old(self).score@[k].1,
                old(self).score_fits(),
                old(self).wf(),
            decreases st@.len() - j,
        {
            let v = self.score[j].1;
            self.score[j].1 = v + d[j];
            j = j + 1;
        }
    }

    /// Everything but the score is as in `old`.
    pub open spec fn same_table_but_score(&self, old: &Coup) -> bool {
        &&& self.bots == old.bots
        &&& self.interfaces == old.interfaces
        &&& self.playing_bots@ == old.playing_bots@
        &&& self.deck@ == old.deck@
        &&& self.discard_pile@ == old.discard_pile@
        &&& self.history@ == old.history@
        &&& self.turn == old.turn
        &&& self.moves == old.moves
    }

    /// Scores a game won by the bots called `winners`: the seated winners
    /// split one point, the other seated bots give it up, in equal shares.
    /// Nothing changes when there is no winner or no loser.
    pub fn set_score(&mut self, winners: Vec<String>)
        requires
            old(self).wf(),
            old(self).score_fits(),
        ensures
            final(self).wf(),
            final(self).same_table_but_score(old(self)),
            final(self).score@.len() == old(self).score@.len(),
            forall|i: int| 0 <= i < final(self).score@.len() ==> (#[trigger] final(self).score@[i]).0 == old(self).score@[i].0,
            ({
                let st = old(self).standings(winners@);
                forall|i: int|
                    0 <= i < final(self).score@.len() ==> (#[trigger] final(self).score@[i]).1
                        == old(self).score@[i].1 + deltas(st)[i]
            }),
    {
        let mut st: Vec<Standing> = Vec::new();
        let mut i: usize = 0;
        while i < self.bots.len()
            invariant
                i <= self.bots@.len(),
                st@ == old(self).standings(winners@).take(i as int),
            decreases self.bots@.len() - i,
        {
            let s = if !self.is_seated(i) {
                Standing::Absent
            } else if is_taken(&winners, &self.bots[i].name) {
                Standing::Winner
            } else {
                Standing::Loser
            };
            st.push(s);
            i = i + 1;
            assert(st@ =~= old(self).standings(winners@).take(i as int));
        }
        assert(st@ =~= old(self).standings(winners@));
        proof {
            lemma_ranked_at_most_six(old(self), st@);
        }
        self.apply_standings(&st);
    }

    /// How many of the first `n` seats hold a bot still in the game.
    pub open spec fn living(&self, n: int) -> nat
        decreases n,
    {
        if n <= 0 {
            0
        } else {
            self.living(n - 1) + if self.bots@[self.playing_bots@[n - 1] as int].cards@.len() > 0 {
                1nat
            } else {
                0nat
            }
        }
    }

    /// Number of seats whose bot is still in the game.
    pub fn living_count(&self) -> (r: usize)
        requires
            self.wf(),
        ensures
            r == self.living(self.playing_bots@.len() as int),
            r <= self.playing_bots@.len(),
            r <= 1 ==> forall|k: int, m: int|
                0 <= k < m < self.playing_bots@.len() ==> !(self.in_game(self.playing_bots@[k] as int) && self.in_game(self.playing_bots@[m] as int)),
    {
        let mut r: usize = 0;
        let mut first: usize = 0;
        let mut k: usize = 0;
        while k < self.playing_bots.len()
            invariant
                self.wf(),
                k <= self.playing_bots@.len(),
                r <= k,
                r == self.living(k as int),
                r == 0 ==> forall|j: int| 0 <= j < k ==> !self.in_game(self.playing_bots@[j] as int),
                r == 1 ==> first < k && forall|j: int| 0 <= j < k && j != first ==> !self.in_game(self.playing_bots@[j] as int),
            decreases self.playing_bots@.len() - k,
        {
            let b = self.playing_bots[k];
            if self.bots[b].cards.len() > 0 {
                proof {
                    assert(self.seated(b as int));
                }
                if r == 0 {
                    first = k;
                }
                r = r + 1;
            }
            k = k + 1;
        }
        r
    }

    /// Each state of `trace` after the first is a turn taken from the one
    /// before, which had at least two seats still in the game and had not
    /// reached the move limit.
    pub open spec fn steps_taken(trace: Seq<Coup>) -> bool {
        forall|i: int|
            0 <= i < trace.len() - 1 ==> #[trigger] Self::step_at(trace, i)
    }

    /// The turn from `trace[i]` to `trace[i + 1]` was taken under the rules.
    pub open spec fn step_at(trace: Seq<Coup>, i: int) -> bool {
        &&& trace[i].living(trace[i].playing_bots@.len() as int) >= 2
        &&& trace[i].moves < MAX_MOVES
        &&& trace[i + 1].turn_taken(&trace[i])
    }

    /// `self` is what `old` became through the game `trace`, but for the
    /// score: the table was dealt afresh, then turns were taken one after
    /// another, each while at least two seats were still in the game and the
    /// move limit was not reached, until one of those no longer held.
    pub open spec fn played_out(&self, old: &Coup, trace: Seq<Coup>) -> bool {
        &&& trace.len() >= 1
        &&& trace[0].dealt(old)
        &&& Self::steps_taken(trace)
        &&& trace.last().living(trace.last().playing_bots@.len() as int) <= 1
            || trace.last().moves >= MAX_MOVES
        &&& self.same_table_but_score(&trace.last())
    }

    /// Plays one game: deals, plays turns until at most one bot is left in
    /// the game (or the turn limit is reached), and scores it. Refused when
    /// fewer than two bots are registered.
    pub fn play(&mut self) -> (r: Result<(), GameError>)
        requires
            old(self).wf(),
            old(self).score_fits(),
        ensures
            final(self).wf(),
            r is Err <==> old(self).bots@.len() < 2,
            r is Err ==> final(self).score@ == old(self).score@,
            r is Ok ==> exists|trace: Seq<Coup>|
                #![trigger final(self).played_out(old(self), trace)]
                final(self).played_out(old(self), trace),
            r is Ok ==> is_full_set(final(self).card_total()),
            r is Ok ==> final(self).moves <= MAX_MOVES,
            r is Ok ==> final(self).moves == MAX_MOVES || forall|k: int, m: int|
                0 <= k < m < final(self).playing_bots@.len() ==> !(final(self).in_game(
                    final(self).playing_bots@[k] as int,
                ) && final(self).in_game(final(self).playing_bots@[m] as int)),
            r is Ok ==> final(self).score@.len() == old(self).score@.len(),
            r is Ok ==> forall|i: int|
                0 <= i < final(self).score@.len() ==> (#[trigger] final(self).score@[i]).0 == old(
                    self,
                ).score@[i].0,
            r is Ok ==> ({
                let st = final(self).final_standings();
                forall|i: int|
                    0 <= i < final(self).score@.len() ==> (#[trigger] final(self).score@[i]).1
                        == old(self).score@[i].1 + deltas(st)[i]
            }),
    {
        if self.bots.len() < 2 {
            return Err(GameError::NotEnoughBots);
        }
        self.setup();
        let ghost mut trace: Seq<Coup> = seq![*self];
        let mut living = self.living_count();
        while living > 1 && self.moves < MAX_MOVES
            invariant
                self.wf(),
                living == self.living(self.playing_bots@.len() as int),
                trace.len() >= 1,
                trace[0].dealt(old(self)),
                trace.last() == *self,
                Self::steps_taken(trace),
                self.playing_bots@.len() > 0,
                is_full_set(self.card_total()),
                self.score@ == old(self).score@,
                self.moves <= MAX_MOVES,
                living <= 1 ==> forall|k: int, m: int|
                    0 <= k < m < self.playing_bots@.len() ==> !(self.in_game(self.playing_bots@[k] as int)
                        && self.in_game(self.playing_bots@[m] as int)),
            decreases MAX_MOVES - self.moves,
        {
            let ghost pre = *self;
            proof {
                assert(pre.living(pre.playing_bots@.len() as int) == living);
            }
            self.game_loop();
            proof {
                let t0 = trace;
                trace = trace.push(*self);
                assert forall|i: int| 0 <= i < trace.len() - 1 implies #[trigger] Self::step_at(
                    trace,
                    i,
                ) by {
                    if i < t0.len() - 1 {
                        assert(Self::step_at(t0, i));
                        assert(trace[i] == t0[i] && trace[i + 1] == t0[i + 1]);
                    } else {
                        assert(i == t0.len() - 1);
                        assert(trace[i] == pre);
                        assert(trace[i + 1] == *self);
                        assert(self.turn_taken(&pre));
                    }
                }
            }
            living = self.living_count();
        }
        let ghost last = *self;
        let mut st: Vec<Standing> = Vec::new();
        let mut i: usize = 0;
        while i < self.bots.len()
            invariant
                i <= self.bots@.len(),
                st@ == self.final_standings().take(i as int),
            decreases self.bots@.len() - i,
        {
            let s = if !self.is_seated(i) {
                Standing::Absent
            } else if self.bots[i].cards.len() > 0 {
                Standing::Winner
            } else {
                Standing::Loser
            };
            st.push(s);
            i = i + 1;
            assert(st@ =~= self.final_standings().take(i as int));
        }
        assert(st@ =~= self.final_standings());
        proof {
            lemma_ranked_at_most_six(self, st@);
        }
        self.apply_standings(&st);
        proof {
            assert(self.final_standings() =~= st@);
            assert(self.same_table_but_score(&trace.last()));
            assert(trace.last().living(trace.last().playing_bots@.len() as int) <= 1
                || trace.last().moves >= MAX_MOVES);
            assert(self.played_out(old(self), trace));
        }
        Ok(())
    }
}

} // verus!
