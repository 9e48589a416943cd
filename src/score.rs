//! Zero-sum scoring of one game.
use vstd::prelude::*;

verus! {

/// One full point. Scores are kept in sixtieths of a point, so that every
/// share of a table of at most six seats is a whole number.
pub const POINT: i64 = 60;

/// The most participants seated at one game.
pub const MAX_SEATS: usize = 6;

/// Running score of each participant, by name, in sixtieths of a point.
pub type Score = Vec<(String, i64)>;

/// How a registered participant ended one game.
#[derive(Debug, Clone, Copy, PartialEq, Eq, Structural)]
pub enum Standing {
    /// Seated and still holding a card at the end.
    Winner,
    /// Seated and eliminated.
    Loser,
    /// Not seated at this game.
    Absent,
}

/// How many entries of `s` are `x`.
pub open spec fn count(s: Seq<Standing>, x: Standing) -> nat
    decreases s.len(),
{
    if s.len() == 0 {
        0
    } else {
        count(s.drop_last(), x) + if s.last() == x {
            1nat
        } else {
            0nat
        }
    }
}

/// The change of score for one standing, with `w` winners and `l` losers at
/// the table: the winners split one point, the losers give it up. A table
/// with no winner or no loser scores nothing.
pub open spec fn delta(st: Standing, w: nat, l: nat) -> int {
    if w == 0 || l == 0 {
        0
    } else {
        match st {
            Standing::Winner => (POINT as int) / (w as int),
            Standing::Loser => -((POINT as int) / (l as int)),
            Standing::Absent => 0,
        }
    }
}

/// The change of score of each entry of `s`, with `w` winners and `l` losers.
pub open spec fn deltas_with(s: Seq<Standing>, w: nat, l: nat) -> Seq<int> {
    s.map_values(|st: Standing| delta(st, w, l))
}

/// The change of score of each entry of `s`.
pub open spec fn deltas(s: Seq<Standing>) -> Seq<int> {
    deltas_with(s, count(s, Standing::Winner), count(s, Standing::Loser))
}

/// The sum of a sequence of integers.
pub open spec fn total(d: Seq<int>) -> int
    decreases d.len(),
{
    if d.len() == 0 {
        0
    } else {
        total(d.drop_last()) + d.last()
    }
}

proof fn lemma_total_by_count(s: Seq<Standing>, w: nat, l: nat)
    ensures
        total(deltas_with(s, w, l)) == count(s, Standing::Winner) * delta(
            Standing::Winner,
            w,
            l,
        ) + count(s, Standing::Loser) * delta(Standing::Loser, w, l),
    decreases s.len(),
{
    if s.len() > 0 {
        let s0 = s.drop_last();
        lemma_total_by_count(s0, w, l);
        let m = deltas_with(s, w, l);
        let m0 = deltas_with(s0, w, l);
        assert(m.drop_last() =~= m0);
        assert(total(m) == total(m.drop_last()) + m.last());
        assert(m.last() == delta(s.last(), w, l));
        let cw = count(s0, Standing::Winner) as int;
        let cl = count(s0, Standing::Loser) as int;
        let dw = delta(Standing::Winner, w, l);
        let dl = delta(Standing::Loser, w, l);
        assert((cw + 1) * dw == cw * dw + dw) by (nonlinear_arith);
        assert((cl + 1) * dl == cl * dl + dl) by (nonlinear_arith);
        assert(count(s, Standing::Winner) == cw + if s.last() == Standing::Winner {
            1int
        } else {
            0int
        });
        assert(count(s, Standing::Loser) == cl + if s.last() == Standing::Loser {
            1int
        } else {
            0int
        });
        assert(total(m0) == cw * dw + cl * dl);
        match s.last() {
            Standing::Winner => {
                assert(total(m) == (cw + 1) * dw + cl * dl);
            },
            Standing::Loser => {
                assert(total(m) == cw * dw + (cl + 1) * dl);
            },
            Standing::Absent => {
                assert(delta(Standing::Absent, w, l) == 0);
                assert(total(m) == cw * dw + cl * dl);
            },
        }
    } else {
        assert(deltas_with(s, w, l) =~= Seq::<int>::empty());
        assert(count(s, Standing::Winner) == 0);
        assert(count(s, Standing::Loser) == 0);
        assert(total(deltas_with(s, w, l)) == 0);
    }
}

proof fn lemma_share_exact(n: nat)
    requires
        1 <= n <= MAX_SEATS,
    ensures
        n * ((POINT as int) / (n as int)) == POINT,
{
    assert(POINT as int == 60);
    if n == 1 {
        assert((POINT as int) / (n as int) == 60);
        assert(n * 60 == 60);
    } else if n == 2 {
        assert((POINT as int) / (n as int) == 30);
        assert(n * 30 == 60);
    } else if n == 3 {
        assert((POINT as int) / (n as int) == 20);
        assert(n * 20 == 60);
    } else if n == 4 {
        assert((POINT as int) / (n as int) == 15);
        assert(n * 15 == 60);
    } else if n == 5 {
        assert((POINT as int) / (n as int) == 12);
        assert(n * 12 == 60);
    } else {
        assert((POINT as int) / (n as int) == 10);
        assert(n * 10 == 60);
    }
}

proof fn lemma_share_bound(n: nat)
    requires
        1 <= n <= MAX_SEATS,
    ensures
        0 <= (POINT as int) / (n as int) <= POINT,
{
    lemma_share_exact(n);
    assert(POINT as int == 60);
    if n == 1 {
        assert((POINT as int) / (n as int) == 60);
    } else if n == 2 {
        assert((POINT as int) / (n as int) == 30);
    } else if n == 3 {
        assert((POINT as int) / (n as int) == 20);
    } else if n == 4 {
        assert((POINT as int) / (n as int) == 15);
    } else if n == 5 {
        assert((POINT as int) / (n as int) == 12);
    } else {
        assert((POINT as int) / (n as int) == 10);
    }
}

/// Score is zero-sum: whatever the standings of one game, as long as at most
/// six participants were seated, the changes of all participants' scores add
/// up to exactly zero.
pub proof fn lemma_zero_sum(s: Seq<Standing>)
    requires
        count(s, Standing::Winner) + count(s, Standing::Loser) <= MAX_SEATS,
    ensures
        total(deltas(s)) == 0,
{
    let w = count(s, Standing::Winner);
    let l = count(s, Standing::Loser);
    lemma_total_by_count(s, w, l);
    if w != 0 && l != 0 {
        lemma_share_exact(w);
        lemma_share_exact(l);
        assert(l * (-((POINT as int) / (l as int))) == -(l * ((POINT as int) / (l as int)))) by (nonlinear_arith);
    }
}

/// The change of score of each entry of `standings`.
pub fn score_deltas(standings: &Vec<Standing>) -> (r: Vec<i64>)
    requires
        count(standings@, Standing::Winner) + count(standings@, Standing::Loser) <= MAX_SEATS,
    ensures
        r@.len() == standings@.len(),
        forall|i: int| 0 <= i < r@.len() ==> r@[i] as int == #[trigger] deltas(standings@)[i],
        forall|i: int| 0 <= i < r@.len() ==> -POINT <= #[trigger] r@[i] <= POINT,
{
    let mut w: usize = 0;
    let mut l: usize = 0;
    let mut i: usize = 0;
    while i < standings.len()
        invariant
            i <= standings@.len(),
            w == count(standings@.take(i as int), Standing::Winner),
            l == count(standings@.take(i as int), Standing::Loser),
            w + l <= i,
            count(standings@, Standing::Winner) + count(standings@, Standing::Loser) <= MAX_SEATS,
        decreases standings@.len() - i,
    {
        assert(standings@.take(i + 1).drop_last() =~= standings@.take(i as int));
        match standings[i] {
            Standing::Winner => w = w + 1,
            Standing::Loser => l = l + 1,
            Standing::Absent => {},
        }
        i = i + 1;
    }
    assert(standings@.take(i as int) =~= standings@);
    assert(w + l <= MAX_SEATS);
    let mut r: Vec<i64> = Vec::new();
    let mut j: usize = 0;
    while j < standings.len()
        invariant
            j <= standings@.len(),
            w == count(standings@, Standing::Winner),
            l == count(standings@, Standing::Loser),
            w + l <= MAX_SEATS,
            r@.len() == j,
            forall|k: int| 0 <= k < j ==> r@[k] as int == #[trigger] deltas(standings@)[k],
            forall|k: int| 0 <= k < j ==> -POINT <= #[trigger] r@[k] <= POINT,
        decreases standings@.len() - j,
    {
        let d: i64 = if w == 0 || l == 0 {
            0
        } else {
            match standings[j] {
                Standing::Winner => POINT / (w as i64),
                Standing::Loser => -(POINT / (l as i64)),
                Standing::Absent => 0,
            }
        };
        proof {
            if w > 0 {
                lemma_share_bound(w as nat);
            }
            if l > 0 {
                lemma_share_bound(l as nat);
            }
        }
        r.push(d);
        j = j + 1;
    }
    r
}

} // verus!
