//! The guess-session state machine.
//!
//! A session owns an ordered, non-empty list of location records and the
//! index of a secret target among them. Each guess is an index into that
//! same list: guessing the target's index wins; any other index gets the
//! great-circle distance to the target, in whole kilometers, and bumps the
//! count of incorrect guesses. Matching goes by index, never by name, so
//! records with equal names stay distinct.

use vstd::prelude::*;
use crate::distance::distance_km;
use crate::distance::gc_km_spec;
use crate::loader::LocationRecord;
use vstd::seq_lib::seq_to_set_is_finite;
use vstd::set_lib::lemma_int_range;
use vstd::set_lib::lemma_subset_equality;
use vstd::set_lib::set_int_range;

verus! {

/// Kilometers between the coordinates of two records, rounded down.
pub open spec fn km_between(a: LocationRecord, b: LocationRecord) -> int {
    gc_km_spec(
        a.coord.lat_udeg as int,
        a.coord.lon_udeg as int,
        b.coord.lat_udeg as int,
        b.coord.lon_udeg as int,
    )
}

/// What one guess produced.
pub enum GuessOutcome {
    /// The guessed index was the target: the session is over. Carries the
    /// number of incorrect guesses that came before.
    Win { attempts: u64 },
    /// The guessed index missed. Carries the great-circle distance from the
    /// guessed record to the target record, in whole kilometers, rounded down.
    Miss { km_off: u64 },
}

/// One game: a fixed list of records, a fixed secret target index into it,
/// and a count of the incorrect guesses made so far.
pub struct GameSession {
    pub records: Vec<LocationRecord>,
    pub target_index: usize,
    pub attempts: u64,
    pub won: bool,
}

/// Relies on rand::thread_rng and rand::Rng::gen_range: a uniformly random
/// index at least zero and strictly below the bound.
#[verifier::external_body]
fn random_below(n: usize) -> (r: usize)
    requires
        n > 0,
    ensures
        r < n,
{
    rand::Rng::gen_range(&mut rand::thread_rng(), 0..n)
}

impl GameSession {
    /// The target index points into the record list.
    pub open spec fn wf(self) -> bool {
        self.target_index < self.records@.len()
    }

    /// A fresh session over the given records with the given target.
    pub fn new(records: Vec<LocationRecord>, target_index: usize) -> (s: GameSession)
        requires
            target_index < records@.len(),
        ensures
            s.records@ == records@,
            s.target_index == target_index,
            s.attempts == 0,
            !s.won,
            s.wf(),
    {
        GameSession { records, target_index, attempts: 0, won: false }
    }

    /// A fresh session whose target is drawn uniformly at random from the
    /// records, which must not be empty.
    pub fn with_random_target(records: Vec<LocationRecord>) -> (s: GameSession)
        requires
            records@.len() > 0,
        ensures
            s.records@ == records@,
            s.attempts == 0,
            !s.won,
            s.wf(),
    {
        let n: usize = records.len();
        let target: usize = random_below(n);
        GameSession::new(records, target)
    }

    /// Plays one guess, given as an index into the record list. Hitting the
    /// target index wins and freezes the attempt count; any other index
    /// reports how many whole kilometers the guess is off and counts one
    /// more incorrect attempt. The records and the target never change.
    pub fn guess(&mut self, selection: usize) -> (out: GuessOutcome)
        requires
            old(self).wf(),
            !old(self).won,
            selection < old(self).records@.len(),
            old(self).attempts < u64::MAX,
        ensures
            final(self).wf(),
            final(self).records@ == old(self).records@,
            final(self).target_index == old(self).target_index,
            selection == old(self).target_index ==> final(self).won && final(self).attempts == old(
                self,
            ).attempts && out == (GuessOutcome::Win { attempts: old(self).attempts }),
            selection != old(self).target_index ==> !final(self).won && final(self).attempts == old(
                self,
            ).attempts + 1 && out == (GuessOutcome::Miss {
                km_off: km_between(
                    old(self).records@[selection as int],
                    old(self).records@[old(self).target_index as int],
                ) as u64,
            }),
    {
        if selection == self.target_index {
            self.won = true;
            GuessOutcome::Win { attempts: self.attempts }
        } else {
            let km: u64 = distance_km(
                &self.records[selection].coord,
                &self.records[self.target_index].coord,
            );
            self.attempts = self.attempts + 1;
            GuessOutcome::Miss { km_off: km }
        }
    }
}

/// Pigeonhole termination law: in a session over N records, any run of N
/// guessed indices without a repeat must include the target index, so a
/// player who never repeats a guess wins in at most N iterations.
pub proof fn lemma_distinct_guesses_reach_target(s: GameSession, guesses: Seq<int>)
    requires
        s.wf(),
        guesses.len() == s.records@.len(),
        forall|i: int| 0 <= i < guesses.len() ==> 0 <= #[trigger] guesses[i] < guesses.len(),
        guesses.no_duplicates(),
    ensures
        exists|i: int| 0 <= i < guesses.len() && guesses[i] == s.target_index,
{
    broadcast use seq_to_set_is_finite;

    let n: int = guesses.len() as int;
    let vals = guesses.to_set();
    guesses.unique_seq_to_set();
    let full = set_int_range(0, n);
    lemma_int_range(0, n);
    assert(vals.subset_of(full)) by {
        assert forall|x: int| vals.contains(x) implies full.contains(x) by {
            let i = choose|i: int| 0 <= i < guesses.len() && guesses[i] == x;
            assert(0 <= guesses[i] < n);
        }
    }
    vstd::set_lib::lemma_len_subset(vals, full);
    lemma_subset_equality(vals, full);
    assert(full.contains(s.target_index as int));
    assert(vals.contains(s.target_index as int));
    let i = choose|i: int|
        0 <= i < guesses.len() && guesses[i] == s.target_index as int;
    assert(0 <= i < guesses.len() && guesses[i] == s.target_index);
}

} // verus!
