//! The player queue: an ordered line of player names with a fixed group size.

use crate::render::{append_decimal, display_line, joined};
use crate::rotation::rotate_by;
use std::collections::VecDeque;
use vstd::prelude::*;
use vstd::std_specs::vecdeque::*;
use vstd::string::StringExecFns;

verus! {

/// A waiting line of players for one game.
///
/// The line holds player names in join order, never twice the same name,
/// and releases `players` of them per round.
#[derive(Debug)]
pub struct Queue {
    game: String,
    players: u8,
    queue: VecDeque<String>,
}

/// The ways a queue operation can be refused.
#[derive(Debug, PartialEq, Eq, Structural)]
pub enum QueueError {
    /// A queue cannot release zero players per round.
    TooLessPlayersError,
    /// The player already stands in the line.
    AlreadyInQueueError,
}

/// Holds when no name appears twice in `ms`.
pub open spec fn distinct(ms: Seq<Seq<char>>) -> bool {
    forall|i: int, j: int| 0 <= i < j < ms.len() ==> ms[i] != ms[j]
}

/// The line `ms` with every occurrence of `p` removed, the rest in order.
pub open spec fn without(ms: Seq<Seq<char>>, p: Seq<char>) -> Seq<Seq<char>> {
    ms.filter(|m: Seq<char>| m != p)
}

/// A rotation only moves names around, so a line with no repeats keeps
/// having none.
proof fn lemma_rotate_by_distinct(ms: Seq<Seq<char>>, k: int)
    requires
        distinct(ms),
        0 <= k <= ms.len(),
    ensures
        distinct(rotate_by(ms, k)),
{
    let r = rotate_by(ms, k);
    let n = ms.len() as int;
    assert forall|i: int, j: int| 0 <= i < j < r.len() implies r[i] != r[j] by {
        if j < n - k {
            assert(ms[k + i] != ms[k + j]);
        } else if i < n - k {
            assert(ms[j - (n - k)] != ms[k + i]);
        } else {
            assert(ms[i - (n - k)] != ms[j - (n - k)]);
        }
    }
}

/// Removing a name from a line with no repeats leaves a line with no
/// repeats, made only of names that stood there before.
proof fn lemma_without_distinct(ms: Seq<Seq<char>>, p: Seq<char>)
    requires
        distinct(ms),
    ensures
        distinct(without(ms, p)),
        forall|x: Seq<char>| #[trigger] without(ms, p).contains(x) ==> ms.contains(x),
    decreases ms.len(),
{
    reveal(Seq::filter);
    if ms.len() == 0 {
        assert(without(ms, p) =~= Seq::<Seq<char>>::empty());
    } else {
        let s = ms.drop_last();
        let l = ms.last();
        assert(forall|i: int| 0 <= i < s.len() ==> s[i] == ms[i]);
        assert(distinct(s));
        lemma_without_distinct(s, p);
        let ws = without(s, p);
        assert forall|x: Seq<char>| #[trigger] ws.contains(x) implies ms.contains(x) by {
            assert(s.contains(x));
            let i = choose|i: int| 0 <= i < s.len() && s[i] == x;
            assert(ms[i] == x);
        }
        if l != p {
            assert(without(ms, p) == ws.push(l));
            if ws.contains(l) {
                let i = choose|i: int| 0 <= i < s.len() && s[i] == l;
                assert(ms[i] == ms[ms.len() - 1]);
                assert(false);
            }
            assert forall|i: int, j: int|
                0 <= i < j < ws.push(l).len() implies ws.push(l)[i] != ws.push(l)[j] by {
                if j < ws.len() {
                    assert(ws[i] != ws[j]);
                } else {
                    assert(ws.push(l)[j] == l);
                    assert(ws.contains(ws[i])) by {
                        assert(ws[i] == ws[i]);
                    }
                }
            }
            assert forall|x: Seq<char>| #[trigger] ws.push(l).contains(x) implies ms.contains(
                x,
            ) by {
                let i = choose|i: int| 0 <= i < ws.push(l).len() && ws.push(l)[i] == x;
                if i < ws.len() {
                    assert(ws.contains(x)) by {
                        assert(ws[i] == x);
                    }
                } else {
                    assert(ms.last() == x);
                    assert(ms[ms.len() - 1] == x);
                }
            }
        } else {
            assert(without(ms, p) == ws);
        }
    }
}

impl Queue {
    /// The player names in line order, head first.
    pub closed spec fn members(self) -> Seq<Seq<char>> {
        self.queue.deep_view()
    }

    /// The number of players released per round.
    pub closed spec fn group_size(self) -> u8 {
        self.players
    }

    /// The display name of the game.
    pub closed spec fn game_name(self) -> Seq<char> {
        self.game@
    }

    /// A valid queue releases at least one player per round and holds no
    /// name twice.
    pub open spec fn wf(self) -> bool {
        &&& self.group_size() >= 1
        &&& distinct(self.members())
    }

    /// Creates an empty queue with a name for the game and a number of
    /// players for each round.
    ///
    /// `players` cannot be less than 1.
    pub fn new(game: &str, players: u8) -> (r: Result<Self, QueueError>)
        ensures
            r is Err <==> players == 0,
            r matches Err(e) ==> e == QueueError::TooLessPlayersError,
            r matches Ok(q) ==> {
                &&& q.wf()
                &&& q.members() == Seq::<Seq<char>>::empty()
                &&& q.group_size() == players
                &&& q.game_name() == game@
            },
    {
        if players == 0 {
            return Err(QueueError::TooLessPlayersError);
        }
        Ok(Self { game: game.to_owned(), players, queue: VecDeque::new() })
    }

    /// Says whether a player of that name already stands in the line.
    fn contains_player(&self, player: &String) -> (r: bool)
        ensures
            r == self.members().contains(player@),
    {
        let n = self.queue.len();
        let mut i: usize = 0;
        while i < n
            invariant
                i <= n,
                n == self.queue@.len(),
                forall|j: int| 0 <= j < i ==> self.members()[j] != player@,
            decreases n - i,
        {
            if self.queue[i].eq(player) {
                proof {
                    assert(self.members()[i as int] == player@);
                }
                return true;
            }
            i = i + 1;
        }
        proof {
            assert(!self.members().contains(player@));
        }
        false
    }

    /// Adds a player to the end of the queue. The player should not be in
    /// the queue already; a duplicate join is refused and leaves the queue
    /// unchanged.
    pub fn join(&mut self, player: &str) -> (r: Result<(), QueueError>)
        requires
            old(self).wf(),
        ensures
            final(self).wf(),
            final(self).group_size() == old(self).group_size(),
            final(self).game_name() == old(self).game_name(),
            r is Err <==> old(self).members().contains(player@),
            r matches Err(e) ==> e == QueueError::AlreadyInQueueError && final(self).members()
                == old(self).members(),
            r is Ok ==> final(self).members() == old(self).members().push(player@),
    {
        let p: String = player.to_owned();
        if !self.contains_player(&p) {
            self.queue.push_back(p);
            proof {
                assert(self.members() =~= old(self).members().push(player@));
                assert forall|i: int, j: int| 0 <= i < j < self.members().len() implies self
                    .members()[i] != self.members()[j] by {
                    if j == self.members().len() - 1 {
                        assert(old(self).members()[i] == self.members()[i]);
                    }
                }
            }
            Ok(())
        } else {
            Err(QueueError::AlreadyInQueueError)
        }
    }

    /// Removes a player from the queue. Absent players are left alone
    /// without complaint.
    pub fn quit(&mut self, player: &str)
        requires
            old(self).wf(),
        ensures
            final(self).wf(),
            final(self).group_size() == old(self).group_size(),
            final(self).game_name() == old(self).game_name(),
            final(self).members() == without(old(self).members(), player@),
    {
        let p: String = player.to_owned();
        let ghost all = self.queue.deep_view();
        let mut kept: VecDeque<String> = VecDeque::new();
        let ghost done: int = 0;
        proof {
            assert(all.take(0) =~= Seq::<Seq<char>>::empty());
            reveal(Seq::filter);
            assert(kept.deep_view() =~= without(all.take(0), p@));
        }
        while self.queue.len() > 0
            invariant
                0 <= done <= all.len(),
                self.queue.deep_view() == all.skip(done),
                kept.deep_view() == without(all.take(done), p@),
                p@ == player@,
                self.game == old(self).game,
                self.players == old(self).players,
            decreases all.len() - done,
        {
            let ghost before = self.queue@;
            proof {
                assert(all.skip(done).len() == all.len() - done);
                assert(before[0].deep_view() == all.skip(done)[0]);
            }
            let x = self.queue.pop_front().unwrap();
            proof {
                assert(x@ == all[done]);
                assert forall|i: int| 0 <= i < self.queue.deep_view().len() implies self
                    .queue
                    .deep_view()[i] == all.skip(done + 1)[i] by {
                    assert(self.queue@[i] == before[i + 1]);
                    assert(before[i + 1].deep_view() == all.skip(done)[i + 1]);
                }
                assert(self.queue.deep_view() =~= all.skip(done + 1));
            }
            let keep = !x.eq(&p);
            if keep {
                kept.push_back(x);
            }
            proof {
                reveal(Seq::filter);
                let shorter = all.take(done);
                let longer = all.take(done + 1);
                assert(longer.drop_last() =~= shorter);
                assert(longer.last() == all[done]);
                if all[done] != p@ {
                    assert(without(longer, p@) =~= without(shorter, p@).push(all[done]));
                    assert(kept.deep_view() =~= without(longer, p@));
                } else {
                    assert(without(longer, p@) =~= without(shorter, p@));
                }
                done = done + 1;
            }
        }
        self.queue = kept;
        proof {
            assert(all.take(all.len() as int) =~= all);
            lemma_without_distinct(all, player@);
        }
    }

    /// Yields the next one player, the longest-waiting one, or nothing
    /// when the queue is empty.
    pub fn nextone(&mut self) -> (r: Option<String>)
        requires
            old(self).wf(),
        ensures
            final(self).wf(),
            final(self).group_size() == old(self).group_size(),
            final(self).game_name() == old(self).game_name(),
            old(self).members().len() == 0 ==> r is None
                && final(self).members() == old(self).members(),
            old(self).members().len() > 0 ==> (r matches Some(p) && p@ == old(self).members()[0]
                && final(self).members() == old(self).members().drop_first()),
    {
        let ghost before = self.queue@;
        let r = self.queue.pop_front();
        proof {
            if before.len() > 0 {
                assert(before[0].deep_view() == old(self).members()[0]);
                assert forall|i: int| 0 <= i < self.members().len() implies self.members()[i]
                    == old(self).members().drop_first()[i] by {
                    assert(self.queue@[i] == before[i + 1]);
                    assert(before[i + 1].deep_view() == old(self).members()[i + 1]);
                }
                assert(self.members() =~= old(self).members().drop_first());
                assert forall|i: int, j: int|
                    0 <= i < j < self.members().len() implies self.members()[i] != self.members()[j] by {
                    assert(old(self).members()[i + 1] != old(self).members()[j + 1]);
                }
            }
        }
        r
    }

    /// Appends without the duplicate check. Only the to-back rotations may
    /// call this, right after removing the same player from the head.
    fn append_unchecked(&mut self, p: String)
        ensures
            final(self).members() == old(self).members().push(p@),
            final(self).group_size() == old(self).group_size(),
            final(self).game_name() == old(self).game_name(),
    {
        self.queue.push_back(p);
        proof {
            assert(self.members() =~= old(self).members().push(p@));
        }
    }

    /// Yields the next one player and pushes them back to the end of the
    /// queue; the rest of the line moves one place toward the head.
    pub fn nextone_to_back(&mut self) -> (r: Result<Option<String>, QueueError>)
        requires
            old(self).wf(),
        ensures
            final(self).wf(),
            final(self).group_size() == old(self).group_size(),
            final(self).game_name() == old(self).game_name(),
            r is Ok,
            old(self).members().len() == 0 ==> (r matches Ok(o) && o is None)
                && final(self).members() == old(self).members(),
            old(self).members().len() > 0 ==> (r matches Ok(o) && o matches Some(p)
                && p@ == old(self).members()[0]
                && final(self).members() == rotate_by(old(self).members(), 1)),
    {
        let player = self.nextone();
        match player {
            Some(p) => {
                self.append_unchecked(p.clone());
                proof {
                    assert(self.members() =~= rotate_by(old(self).members(), 1));
                    lemma_rotate_by_distinct(old(self).members(), 1);
                }
                Ok(Some(p))
            },
            None => Ok(None),
        }
    }

    /// Yields the next group of players: up to `group_size` of them, in
    /// line order, leaving the queue shorter by as many.
    pub fn next_group(&mut self) -> (r: Vec<String>)
        requires
            old(self).wf(),
        ensures
            final(self).wf(),
            final(self).group_size() == old(self).group_size(),
            final(self).game_name() == old(self).game_name(),
            ({
                let k = vstd::math::min(
                    old(self).group_size() as int,
                    old(self).members().len() as int,
                );
                r.deep_view() == old(self).members().take(k)
                    && final(self).members() == old(self).members().skip(k)
            }),
    {
        let mut result: Vec<String> = Vec::new();
        let g = self.players;
        let ghost m = old(self).members().len() as int;
        let mut i: u8 = 0;
        while i < g
            invariant
                old(self).wf(),
                self.wf(),
                i <= g,
                self.group_size() == old(self).group_size(),
                self.game_name() == old(self).game_name(),
                g == old(self).group_size(),
                m == old(self).members().len(),
                i as int <= m ==> self.members() == old(self).members().skip(i as int)
                    && result.deep_view() == old(self).members().take(i as int),
                i as int > m ==> self.members().len() == 0
                    && result.deep_view() == old(self).members(),
            decreases g - i,
        {
            let ghost cur = self.members();
            let ghost collected = result.deep_view();
            match self.nextone() {
                Some(p) => {
                    result.push(p);
                    proof {
                        assert(cur.len() > 0);
                        assert((i as int) < m);
                        assert(cur[0] == old(self).members()[i as int]);
                        assert(result.deep_view() =~= collected.push(cur[0]));
                        assert(result.deep_view() =~= old(self).members().take(i + 1));
                        assert(self.members() =~= old(self).members().skip(i + 1));
                    }
                },
                None => {
                    proof {
                        assert(cur.len() == 0);
                        if i as int <= m {
                            assert(old(self).members().skip(i as int).len() == 0);
                            assert(i as int == m);
                            assert(old(self).members().take(i as int) =~= old(self).members());
                        }
                    }
                },
            }
            i = i + 1;
        }
        proof {
            let k = vstd::math::min(g as int, m);
            if g as int <= m {
                assert(k == g as int);
            } else {
                assert(k == m);
                assert(old(self).members().take(m) =~= old(self).members());
                assert(old(self).members().skip(m) =~= self.members());
            }
        }
        result
    }

    /// Yields the next group of players and pushes them back to the end of
    /// the queue, in their order; the rest of the line moves toward the
    /// head by as many places.
    pub fn next_group_to_back(&mut self) -> (r: Result<Vec<String>, QueueError>)
        requires
            old(self).wf(),
        ensures
            final(self).wf(),
            final(self).group_size() == old(self).group_size(),
            final(self).game_name() == old(self).game_name(),
            r is Ok,
            ({
                let k = vstd::math::min(
                    old(self).group_size() as int,
                    old(self).members().len() as int,
                );
                r matches Ok(v) && v.deep_view() == old(self).members().take(k)
                    && final(self).members() == rotate_by(old(self).members(), k)
            }),
    {
        let mut result: Vec<String> = Vec::new();
        let len = self.queue.len();
        let g = self.players as usize;
        let k = if g < len {
            g
        } else {
            len
        };
        let ghost ms = old(self).members();
        proof {
            crate::rotation::lemma_rotate_by_ends(ms);
        }
        let mut i: usize = 0;
        while i < k
            invariant
                old(self).wf(),
                self.wf(),
                i <= k,
                k == vstd::math::min(old(self).group_size() as int, ms.len() as int),
                ms == old(self).members(),
                self.group_size() == old(self).group_size(),
                self.game_name() == old(self).game_name(),
                self.members() == rotate_by(ms, i as int),
                result.deep_view() == ms.take(i as int),
            decreases k - i,
        {
            let ghost collected = result.deep_view();
            proof {
                assert(rotate_by(ms, i as int).len() == ms.len());
                assert(rotate_by(ms, i as int)[0] == ms[i as int]);
            }
            match self.nextone_to_back() {
                Ok(Some(p)) => {
                    result.push(p);
                    proof {
                        crate::rotation::lemma_rotate_by_compose(ms, i as int, 1);
                        assert(result.deep_view() =~= collected.push(ms[i as int]));
                        assert(result.deep_view() =~= ms.take(i + 1));
                    }
                },
                _ => {
                    proof {
                        assert(false);
                    }
                },
            }
            i = i + 1;
        }
        Ok(result)
    }

    /// Returns a snapshot of the current queue, head first.
    pub fn get_queue(&self) -> (r: Vec<String>)
        ensures
            r.deep_view() == self.members(),
    {
        let mut r: Vec<String> = Vec::new();
        let n = self.queue.len();
        let mut i: usize = 0;
        while i < n
            invariant
                i <= n,
                n == self.queue@.len(),
                r.deep_view() == self.members().take(i as int),
            decreases n - i,
        {
            let p = self.queue[i].clone();
            r.push(p);
            proof {
                assert(self.members().take(i + 1) =~= self.members().take(i as int).push(
                    self.members()[i as int],
                ));
                assert(r.deep_view() =~= self.members().take(i + 1));
            }
            i = i + 1;
        }
        proof {
            assert(self.members().take(n as int) =~= self.members());
        }
        r
    }

    /// Returns the current queue as one line of text, the names separated
    /// by a comma and a space.
    pub fn format_queue(&self) -> (r: String)
        ensures
            r@ == joined(self.members()),
    {
        let mut s = String::new();
        let n = self.queue.len();
        let mut i: usize = 0;
        proof {
            assert(self.members().take(0) =~= Seq::<Seq<char>>::empty());
        }
        while i < n
            invariant
                i <= n,
                n == self.queue@.len(),
                s@ == joined(self.members().take(i as int)),
            decreases n - i,
        {
            if i > 0 {
                s.append(", ");
            }
            s.append(self.queue[i].as_str());
            proof {
                let ms = self.members();
                assert(self.queue@[i as int]@ == ms[i as int]);
                assert(ms.take(i + 1).drop_last() =~= ms.take(i as int));
                assert(ms.take(i + 1).last() == ms[i as int]);
                if i == 0 {
                    assert(s@ =~= joined(ms.take(1)));
                } else {
                    assert(s@ =~= joined(ms.take(i + 1)));
                }
            }
            i = i + 1;
        }
        proof {
            assert(self.members().take(n as int) =~= self.members());
        }
        s
    }

    /// Renders the whole queue for display: the game's name, the group
    /// size, and the formatted line of waiting players.
    pub fn display_string(&self) -> (r: String)
        ensures
            r@ == display_line(self.game_name(), self.group_size() as int, self.members()),
    {
        let mut s = self.game.clone();
        s.append(" (");
        append_decimal(&mut s, self.players);
        s.append(" player(s) each round): ");
        let tail = self.format_queue();
        s.append(tail.as_str());
        proof {
            assert(s@ =~= display_line(
                self.game_name(),
                self.group_size() as int,
                self.members(),
            ));
        }
        s
    }
}

} // verus!
