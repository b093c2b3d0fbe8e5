use vstd::prelude::*;

verus! {

/// A line of the leader board: the name, once it is known, and the score.
pub type Player = (Option<String>, u32);

/// The leader board holds no more lines than this.
pub const MAX_PLAYERS: usize = 10;

/// Whether the leader board is shown, and whether it waits for a name.
#[derive(Debug, Clone, Copy, PartialEq, Eq, Structural)]
pub enum LeaderBoardState {
    Hide,
    Show,
    InputName,
}

/// The best scores, best first.
pub struct LeaderBoard {
    pub players: Vec<Player>,
}

/// The first place from `i` on that holds a lower score than `score`, or
/// the length if there is none.
pub open spec fn spec_first_lower(players: Seq<Player>, score: u32, i: int) -> int
    decreases players.len() - i,
{
    if i < 0 || i >= players.len() || players[i].1 < score {
        i
    } else {
        spec_first_lower(players, score, i + 1)
    }
}

/// The list with `player` put in before the first line of a lower score.
pub open spec fn spec_insert(players: Seq<Player>, player: Player) -> Seq<Player> {
    players.insert(spec_first_lower(players, player.1, 0), player)
}

/// `sorted` with the lines of `rest` put in, one after the other.
pub open spec fn spec_sort_into(sorted: Seq<Player>, rest: Seq<Player>) -> Seq<Player>
    decreases rest.len(),
{
    if rest.len() == 0 {
        sorted
    } else {
        spec_sort_into(spec_insert(sorted, rest[0]), rest.drop_first())
    }
}

/// The lines by falling score; lines of equal score keep their order.
pub open spec fn spec_sorted(players: Seq<Player>) -> Seq<Player> {
    spec_sort_into(Seq::empty(), players)
}

/// The first `MAX_PLAYERS` lines.
pub open spec fn spec_top(players: Seq<Player>) -> Seq<Player> {
    if players.len() > MAX_PLAYERS {
        players.take(MAX_PLAYERS as int)
    } else {
        players
    }
}

/// No line has a higher score than a line before it.
pub open spec fn is_descending(players: Seq<Player>) -> bool {
    forall|i: int, j: int|
        0 <= i < j < players.len() ==> (#[trigger] players[i]).1 >= (#[trigger] players[j]).1
}

/// The place of the last line among the first `k` that no other of them
/// beats.
pub open spec fn spec_last_best(players: Seq<Player>, k: int) -> int
    decreases k,
{
    if k <= 1 {
        0
    } else {
        let before = spec_last_best(players, k - 1);
        if players[k - 1].1 >= players[before].1 {
            k - 1
        } else {
            before
        }
    }
}

/// The name that stands on the leader board where none has been entered.
pub open spec fn spec_player_name(place: int) -> Seq<char> {
    if place == 1 {
        "Player 1"@
    } else if place == 2 {
        "Player 2"@
    } else if place == 3 {
        "Player 3"@
    } else if place == 4 {
        "Player 4"@
    } else if place == 5 {
        "Player 5"@
    } else if place == 6 {
        "Player 6"@
    } else if place == 7 {
        "Player 7"@
    } else if place == 8 {
        "Player 8"@
    } else if place == 9 {
        "Player 9"@
    } else {
        "Player 10"@
    }
}

proof fn lemma_first_lower(players: Seq<Player>, score: u32, i: int)
    requires
        0 <= i <= players.len(),
    ensures
        i <= spec_first_lower(players, score, i) <= players.len(),
        forall|k: int|
            i <= k < spec_first_lower(players, score, i) ==> (#[trigger] players[k]).1 >= score,
        spec_first_lower(players, score, i) < players.len() ==> players[spec_first_lower(
            players,
            score,
            i,
        )].1 < score,
    decreases players.len() - i,
{
    if i < players.len() && players[i].1 >= score {
        lemma_first_lower(players, score, i + 1);
    }
}

/// Putting a line into a list of falling scores leaves one.
pub proof fn lemma_insert_keeps_order(players: Seq<Player>, player: Player)
    requires
        is_descending(players),
    ensures
        is_descending(spec_insert(players, player)),
        spec_insert(players, player).len() == players.len() + 1,
{
    lemma_first_lower(players, player.1, 0);
    let at = spec_first_lower(players, player.1, 0);
    let after = spec_insert(players, player);
    assert forall|i: int, j: int| 0 <= i < j < after.len() implies (#[trigger] after[i]).1 >= (
    #[trigger] after[j]).1 by {
        if j < at {
            assert(after[i] == players[i] && after[j] == players[j]);
        } else if j == at {
            assert(after[i] == players[i]);
        } else if i < at {
            assert(after[i] == players[i] && after[j] == players[j - 1]);
        } else if i == at {
            assert(after[j] == players[j - 1]);
            assert(players[at].1 >= players[j - 1].1 || at == j - 1);
        } else {
            assert(after[i] == players[i - 1] && after[j] == players[j - 1]);
        }
    }
}

proof fn lemma_sort_into_keeps_order(sorted: Seq<Player>, rest: Seq<Player>)
    requires
        is_descending(sorted),
    ensures
        is_descending(spec_sort_into(sorted, rest)),
        spec_sort_into(sorted, rest).len() == sorted.len() + rest.len(),
    decreases rest.len(),
{
    if rest.len() > 0 {
        lemma_insert_keeps_order(sorted, rest[0]);
        lemma_sort_into_keeps_order(spec_insert(sorted, rest[0]), rest.drop_first());
    }
}

/// Sorting gives a list of falling scores with as many lines as it took.
pub proof fn lemma_sorted_is_descending(players: Seq<Player>)
    ensures
        is_descending(spec_sorted(players)),
        spec_sorted(players).len() == players.len(),
{
    lemma_sort_into_keeps_order(Seq::empty(), players);
}

/// The line that `spec_last_best` picks is beaten by none of the first `k`,
/// and the lines behind it among them have lower scores.
pub proof fn lemma_last_best(players: Seq<Player>, k: int)
    requires
        1 <= k <= players.len(),
    ensures
        0 <= spec_last_best(players, k) < k,
        forall|i: int|
            0 <= i < k ==> (#[trigger] players[i]).1 <= players[spec_last_best(players, k)].1,
        forall|i: int|
            spec_last_best(players, k) < i < k ==> (#[trigger] players[i]).1 < players[spec_last_best(
                players,
                k,
            )].1,
    decreases k,
{
    if k > 1 {
        lemma_last_best(players, k - 1);
    }
}

fn player_name(place: usize) -> (name: String)
    ensures
        name@ == spec_player_name(place as int),
{
    let text = if place == 1 {
        "Player 1"
    } else if place == 2 {
        "Player 2"
    } else if place == 3 {
        "Player 3"
    } else if place == 4 {
        "Player 4"
    } else if place == 5 {
        "Player 5"
    } else if place == 6 {
        "Player 6"
    } else if place == 7 {
        "Player 7"
    } else if place == 8 {
        "Player 8"
    } else if place == 9 {
        "Player 9"
    } else {
        "Player 10"
    };
    text.to_owned()
}

fn insert_player(sorted: &mut Vec<Player>, player: Player)
    ensures
        final(sorted)@ == spec_insert(old(sorted)@, player),
{
    let mut i: usize = 0;
    while i < sorted.len() && sorted[i].1 >= player.1
        invariant
            i <= sorted@.len(),
            sorted@ == old(sorted)@,
            spec_first_lower(sorted@, player.1, 0) == spec_first_lower(sorted@, player.1, i as int),
        decreases sorted@.len() - i,
    {
        i += 1;
    }
    sorted.insert(i, player);
}

/// Sorts the lines by falling score; lines of equal score keep their order.
pub fn sort_players(players: Vec<Player>) -> (sorted: Vec<Player>)
    ensures
        sorted@ == spec_sorted(players@),
{
    let mut rest = players;
    let mut sorted: Vec<Player> = Vec::new();
    while rest.len() > 0
        invariant
            spec_sort_into(sorted@, rest@) == spec_sorted(players@),
        decreases rest@.len(),
    {
        let ghost before = rest@;
        let player = rest.remove(0);
        assert(rest@ =~= before.drop_first());
        insert_player(&mut sorted, player);
    }
    sorted
}

impl LeaderBoard {
    /// No more than `MAX_PLAYERS` lines, by falling score.
    pub open spec fn wf(&self) -> bool {
        self.players@.len() <= MAX_PLAYERS && is_descending(self.players@)
    }

    /// The leader board of the lines that were stored, or of the lines it
    /// starts with: the best `MAX_PLAYERS` of them, best first.
    pub fn new(stored: Option<Vec<Player>>) -> (board: LeaderBoard)
        ensures
            board.wf(),
            match stored {
                Some(players) => board.players@ == spec_top(spec_sorted(players@)),
                None => board.players@.len() == MAX_PLAYERS && forall|i: int|
                    0 <= i < MAX_PLAYERS ==> (#[trigger] board.players@[i]).1 == (MAX_PLAYERS - i)
                        * 100 && board.players@[i].0 is Some && board.players@[i].0.unwrap()@
                        == spec_player_name(MAX_PLAYERS - i),
            },
    {
        match stored {
            Some(players) => {
                let mut players = sort_players(players);
                proof {
                    lemma_sorted_is_descending(stored.unwrap()@);
                }
                players.truncate(MAX_PLAYERS);
                Self { players }
            },
            None => {
                let mut players: Vec<Player> = Vec::new();
                let mut x: usize = MAX_PLAYERS;
                while x >= 1
                    invariant
                        x <= MAX_PLAYERS,
                        players@.len() == MAX_PLAYERS - x,
                        forall|i: int|
                            0 <= i < MAX_PLAYERS - x ==> (#[trigger] players@[i]).1 == (MAX_PLAYERS
                                - i) * 100 && players@[i].0 is Some && players@[i].0.unwrap()@
                                == spec_player_name(MAX_PLAYERS - i),
                    decreases x,
                {
                    let score: u32 = (x * 100) as u32;
                    players.push((Some(player_name(x)), score));
                    x -= 1;
                }
                Self { players }
            },
        }
    }

    /// The highest score on the board, if it has a line.
    pub fn get_best_score(&self) -> (best: Option<u32>)
        ensures
            best is None <==> self.players@.len() == 0,
            best is Some ==> {
                &&& exists|i: int|
                    0 <= i < self.players@.len() && (#[trigger] self.players@[i]).1 == best.unwrap()
                &&& forall|i: int|
                    0 <= i < self.players@.len() ==> (#[trigger] self.players@[i]).1 <= best.unwrap()
            },
    {
        if self.players.len() == 0 {
            return None;
        }
        let mut best: u32 = self.players[0].1;
        let mut i: usize = 1;
        while i < self.players.len()
            invariant
                1 <= i <= self.players@.len(),
                exists|k: int| 0 <= k < i && (#[trigger] self.players@[k]).1 == best,
                forall|k: int| 0 <= k < i ==> (#[trigger] self.players@[k]).1 <= best,
            decreases self.players@.len() - i,
        {
            if self.players[i].1 > best {
                best = self.players[i].1;
            }
            i += 1;
        }
        Some(best)
    }

    /// The lowest score on the board, if it has a line.
    pub fn get_lowest_score(&self) -> (lowest: Option<u32>)
        ensures
            lowest is None <==> self.players@.len() == 0,
            lowest is Some ==> {
                &&& exists|i: int|
                    0 <= i < self.players@.len() && (#[trigger] self.players@[i]).1 == lowest.unwrap()
                &&& forall|i: int|
                    0 <= i < self.players@.len() ==> (#[trigger] self.players@[i]).1 >= lowest.unwrap()
            },
    {
        if self.players.len() == 0 {
            return None;
        }
        let mut lowest: u32 = self.players[0].1;
        let mut i: usize = 1;
        while i < self.players.len()
            invariant
                1 <= i <= self.players@.len(),
                exists|k: int| 0 <= k < i && (#[trigger] self.players@[k]).1 == lowest,
                forall|k: int| 0 <= k < i ==> (#[trigger] self.players@[k]).1 >= lowest,
            decreases self.players@.len() - i,
        {
            if self.players[i].1 < lowest {
                lowest = self.players[i].1;
            }
            i += 1;
        }
        Some(lowest)
    }

    /// Puts a line without a name onto the board, behind the lines that
    /// are no worse, and drops what falls off its end.
    pub fn add_player(&mut self, score: u32)
        requires
            old(self).players@.len() < usize::MAX,
        ensures
            final(self).players@ == spec_top(spec_sorted(old(self).players@.push((None, score)))),
            final(self).players@.len() <= MAX_PLAYERS,
            is_descending(final(self).players@),
    {
        let mut players: Vec<Player> = Vec::new();
        std::mem::swap(&mut players, &mut self.players);
        players.push((None, score));
        let ghost pushed = players@;
        let mut players = sort_players(players);
        proof {
            lemma_sorted_is_descending(pushed);
        }
        players.truncate(MAX_PLAYERS);
        self.players = players;
    }

    /// Gives every line that has no name the name given.
    pub fn set_name(&mut self, name: String)
        ensures
            final(self).players@.len() == old(self).players@.len(),
            forall|i: int|
                0 <= i < old(self).players@.len() ==> #[trigger] final(self).players@[i] == (
                    if old(self).players@[i].0 is None {
                        (Some(name), old(self).players@[i].1)
                    } else {
                        old(self).players@[i]
                    }),
    {
        let mut i: usize = 0;
        while i < self.players.len()
            invariant
                i <= self.players@.len(),
                self.players@.len() == old(self).players@.len(),
                forall|k: int|
                    0 <= k < i ==> #[trigger] self.players@[k] == (if old(self).players@[k].0 is None {
                        (Some(name), old(self).players@[k].1)
                    } else {
                        old(self).players@[k]
                    }),
                forall|k: int|
                    i <= k < self.players@.len() ==> #[trigger] self.players@[k] == old(
                        self,
                    ).players@[k],
            decreases self.players@.len() - i,
        {
            if self.players[i].0.is_none() {
                let score = self.players[i].1;
                self.players.set(i, (Some(name.clone()), score));
            }
            i += 1;
        }
    }

    /// The name on the last of the lines with the highest score.
    pub fn get_best_player(&self) -> (name: Option<String>)
        ensures
            name == (if self.players@.len() == 0 {
                None
            } else {
                self.players@[spec_last_best(self.players@, self.players@.len() as int)].0
            }),
    {
        if self.players.len() == 0 {
            return None;
        }
        let mut best: usize = 0;
        let mut i: usize = 1;
        while i < self.players.len()
            invariant
                1 <= i <= self.players@.len(),
                best == spec_last_best(self.players@, i as int),
                best < i,
            decreases self.players@.len() - i,
        {
            if self.players[i].1 >= self.players[best].1 {
                best = i;
            }
            i += 1;
        }
        match &self.players[best].0 {
            Some(name) => Some(name.clone()),
            None => None,
        }
    }

    /// At the end of a round: a score above the lowest on the board goes
    /// onto it, and the board asks for a name; else the board is shown as
    /// it is.
    pub fn change_leaders(&mut self, current_score: u32) -> (state: LeaderBoardState)
        requires
            old(self).players@.len() < usize::MAX,
        ensures
            ({
                let enters = old(self).players@.len() > 0 && exists|i: int|
                    0 <= i < old(self).players@.len() && (#[trigger] old(self).players@[i]).1
                        < current_score;
                if enters {
                    state == LeaderBoardState::InputName && final(self).players@ == spec_top(
                        spec_sorted(old(self).players@.push((None, current_score))),
                    )
                } else {
                    state == LeaderBoardState::Show && final(self).players@ == old(self).players@
                }
            }),
    {
        match self.get_lowest_score() {
            Some(score) => {
                if current_score > score {
                    self.add_player(current_score);
                    return LeaderBoardState::InputName;
                }
            },
            None => {},
        }
        LeaderBoardState::Show
    }
}

} // verus!
