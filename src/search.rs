use vstd::arithmetic::power2::pow2;
use vstd::prelude::*;

use crate::encoding::{fits, flipped, lemma_flip_fits, lemma_shift_is_pow2, Bin};
use crate::score::{
    all_comparable, best_index, first_best, greater, is_nan, lemma_first_best_exists, rank,
    score_greater, SearchError, INFINITY_BITS,
};

verus! {

/// Relies on rand::thread_rng and RngCore::next_u32: some 32-bit value,
/// about which nothing is promised.
#[verifier::external_body]
fn draw_u32() -> (r: u32) {
    rand::RngCore::next_u32(&mut rand::thread_rng())
}

/// Keeps the low `l` bits of `raw`.
pub fn low_bits(raw: u32, l: u32) -> (r: Bin)
    requires
        l < 32,
    ensures
        r.0 as nat == raw as nat % pow2(l as nat),
        fits(r.0, l),
{
    proof {
        lemma_shift_is_pow2(l);
        vstd::arithmetic::power2::lemma_pow2_pos(l as nat);
    }
    let m: u32 = 1u32 << l;
    Bin(raw % m)
}

/// Draws a pattern of `l` bits from the thread-local generator.
pub fn random_l_bit_bin(l: u32) -> (r: Bin)
    requires
        l < 32,
    ensures
        fits(r.0, l),
{
    low_bits(draw_u32(), l)
}

/// The state of a bit-flip hill climb.
///
/// Scores are the bit patterns of `f32` values (`f32::to_bits`), compared as
/// the floats they encode.
#[derive(Clone, Copy, Debug, PartialEq, Eq, Structural)]
pub struct Search {
    /// Bit length of the patterns.
    pub l: u32,
    /// The pattern the search stands on.
    pub current: Bin,
    /// The score of `current`.
    pub current_score: u32,
    /// Rounds still to run; the search is over at zero.
    pub rounds_left: usize,
}

impl Search {
    pub open spec fn wf(&self) -> bool {
        1 <= self.l <= 31 && fits(self.current.0, self.l)
    }

    /// The pattern reached by flipping bit `n` of the current one.
    pub open spec fn neighbor(&self, n: int) -> Bin {
        Bin(flipped(self.current.0, n as u32))
    }

    /// The state after one look at the neighbors, given their scores in
    /// order of the bit flipped, and whether the search moved.
    pub open spec fn next(&self, scores: Seq<u32>) -> (Search, bool) {
        let i = first_best(scores);
        if greater(scores[i], self.current_score) {
            (Search { current: self.neighbor(i), current_score: scores[i], ..*self }, true)
        } else {
            (Search { rounds_left: (self.rounds_left - 1) as usize, ..*self }, false)
        }
    }

    /// Distance of the current score from the top of the order of scores.
    pub open spec fn headroom(&self) -> int {
        INFINITY_BITS as int - rank(self.current_score)
    }

    /// Starts a search of `rounds` rounds from `initial`, whose score is
    /// `initial_score`.
    pub fn new(l: u32, initial: Bin, initial_score: u32, rounds: usize) -> (r: Search)
        requires
            1 <= l <= 31,
            fits(initial.0, l),
        ensures
            r.wf(),
            r == (Search { l, current: initial, current_score: initial_score, rounds_left: rounds }),
    {
        Search { l, current: initial, current_score: initial_score, rounds_left: rounds }
    }

    /// All rounds have run.
    pub fn is_done(&self) -> (r: bool)
        ensures
            r == (self.rounds_left == 0),
    {
        self.rounds_left == 0
    }

    /// The pattern the search stands on; its answer once it is done.
    pub fn result(&self) -> (r: Bin)
        ensures
            r == self.current,
    {
        self.current
    }

    /// The `l` single-bit mutations of the current pattern, the lowest bit first.
    pub fn neighbors(&self) -> (r: Vec<Bin>)
        requires
            self.wf(),
        ensures
            r.len() == self.l,
            forall|n: int| 0 <= n < self.l ==> #[trigger] r@[n] == self.neighbor(n),
            forall|n: int| 0 <= n < self.l ==> fits(#[trigger] r@[n].0, self.l),
    {
        let mut r: Vec<Bin> = Vec::new();
        let mut n: u32 = 0;
        while n < self.l
            invariant
                self.wf(),
                n <= self.l,
                r.len() == n,
                forall|k: int| 0 <= k < n ==> #[trigger] r@[k] == self.neighbor(k),
                forall|k: int| 0 <= k < n ==> fits(#[trigger] r@[k].0, self.l),
            decreases self.l - n,
        {
            proof {
                lemma_flip_fits(self.current.0, n, self.l);
            }
            r.push(self.current.flip_nth_bit(n));
            n = n + 1;
        }
        r
    }

    /// One step of a round: moves to the best-scoring neighbor if it beats the
    /// current pattern, and otherwise ends the round.
    ///
    /// `scores[n]` is the score of the neighbor that flips bit `n`. Ties go to
    /// the lowest bit. A NaN among them fails the step and changes nothing.
    pub fn advance(&mut self, scores: &Vec<u32>) -> (r: Result<bool, SearchError>)
        requires
            old(self).wf(),
            old(self).rounds_left > 0,
            scores.len() == old(self).l,
        ensures
            r is Err <==> !all_comparable(scores@),
            r is Err ==> r == Err::<bool, SearchError>(SearchError::Incomparable) && *final(self)
                == *old(self),
            r is Ok ==> (*final(self), r->Ok_0) == old(self).next(scores@),
            final(self).wf(),
    {
        let i = match best_index(scores) {
            Ok(i) => i,
            Err(e) => {
                return Err(e);
            },
        };
        if score_greater(scores[i], self.current_score) {
            proof {
                lemma_flip_fits(self.current.0, i as u32, self.l);
            }
            self.current = self.current.flip_nth_bit(i as u32);
            self.current_score = scores[i];
            Ok(true)
        } else {
            self.rounds_left = self.rounds_left - 1;
            Ok(false)
        }
    }
}

/// Each step keeps the state well formed and never lowers the score; a move
/// raises it strictly and shrinks the headroom, which stays non-negative, so
/// a round ends after finitely many moves. A step that does not move ends the
/// round and leaves the pattern and its score as they were.
pub proof fn lemma_step_never_lowers_score(s: Search, scores: Seq<u32>)
    requires
        s.wf(),
        s.rounds_left > 0,
        scores.len() == s.l,
        all_comparable(scores),
    ensures
        s.next(scores).0.wf(),
        s.next(scores).1 ==> greater(s.next(scores).0.current_score, s.current_score),
        s.next(scores).1 ==> 0 <= s.next(scores).0.headroom() < s.headroom(),
        s.next(scores).1 ==> s.next(scores).0.rounds_left == s.rounds_left,
        !s.next(scores).1 ==> s.next(scores).0.current == s.current
            && s.next(scores).0.current_score == s.current_score
            && s.next(scores).0.rounds_left == s.rounds_left - 1,
{
    let i = first_best(scores);
    lemma_first_best_exists(scores);
    if greater(scores[i], s.current_score) {
        lemma_flip_fits(s.current.0, i as u32, s.l);
        assert(!is_nan(scores[i]));
    }
}

/// A round that ended without a move leaves a state in which the same scores
/// end the next round without a move too: once the search stands on a local
/// optimum, later rounds do no work.
pub proof fn lemma_settled_round_repeats(s: Search, scores: Seq<u32>)
    requires
        s.wf(),
        s.rounds_left > 1,
        scores.len() == s.l,
        !s.next(scores).1,
    ensures
        !s.next(scores).0.next(scores).1,
        s.next(scores).0.next(scores).0.current == s.current,
        s.next(scores).0.next(scores).0.rounds_left == s.rounds_left - 2,
{
}

} // verus!
