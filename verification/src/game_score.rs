use vstd::prelude::*;

use crate::events::IncrementCurrentGameScore;

verus! {

/// The score of the round that is played, and the best score known.
#[derive(Debug, Clone, Copy, PartialEq, Eq, Default)]
pub struct GameScore {
    pub current_score: u32,
    pub best_score: u32,
}

/// What the first `k` of the events add up to.
pub open spec fn spec_events_sum(events: Seq<IncrementCurrentGameScore>, k: int) -> int
    decreases k,
{
    if k <= 0 {
        0
    } else {
        spec_events_sum(events, k - 1) + events[k - 1].0
    }
}

/// The sum grows with the number of events.
pub proof fn lemma_events_sum_grows(events: Seq<IncrementCurrentGameScore>, i: int, k: int)
    requires
        0 <= i <= k,
    ensures
        0 <= spec_events_sum(events, i) <= spec_events_sum(events, k),
    decreases k,
{
    if i < k {
        lemma_events_sum_grows(events, i, k - 1);
    } else if k > 0 {
        lemma_events_sum_grows(events, i - 1, k - 1);
    }
}

impl GameScore {
    /// A round begins: its score is zero, and the best score is that of
    /// the leader board, if it has one.
    pub fn init_game_score(&mut self, best_score: Option<u32>)
        ensures
            final(self).current_score == 0,
            final(self).best_score == (match best_score {
                Some(score) => score,
                None => old(self).best_score,
            }),
    {
        self.current_score = 0;
        if let Some(score) = best_score {
            self.best_score = score;
        }
    }

    /// Adds what the events say to the score of the round.
    pub fn game_score_system(&mut self, events: &Vec<IncrementCurrentGameScore>)
        requires
            old(self).current_score + spec_events_sum(events@, events@.len() as int) <= u32::MAX,
        ensures
            final(self).current_score == old(self).current_score + spec_events_sum(
                events@,
                events@.len() as int,
            ),
            final(self).best_score == old(self).best_score,
    {
        let mut i: usize = 0;
        while i < events.len()
            invariant
                i <= events@.len(),
                self.best_score == old(self).best_score,
                self.current_score == old(self).current_score + spec_events_sum(events@, i as int),
                old(self).current_score + spec_events_sum(events@, events@.len() as int)
                    <= u32::MAX,
            decreases events@.len() - i,
        {
            proof {
                lemma_events_sum_grows(events@, i + 1, events@.len() as int);
            }
            self.current_score = self.current_score + events[i].0;
            i += 1;
        }
    }
}

} // verus!
