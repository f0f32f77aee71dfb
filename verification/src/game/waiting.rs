//! Game logic of the waiting phase

use vstd::prelude::*;

use crate::display::scores::Entry;

verus! {

/// Waiting time in seconds
///
/// This constant is used as the initial value for the counter used for counting
/// down seconds.
pub const WAITING_TIME: u8 = 60;

/// Score board entry for the waiting phase
#[derive(Clone, Debug)]
pub struct ScoreBoardEntry<T> {
    tag: T,
    ready: bool,
}

impl<T> ScoreBoardEntry<T> {
    /// The player's tag
    pub closed spec fn spec_tag(&self) -> T {
        self.tag
    }

    /// The player's readiness
    pub closed spec fn spec_ready(&self) -> bool {
        self.ready
    }

    /// Create an entry for the given player, not ready yet
    pub fn new(tag: T) -> (r: Self)
        ensures
            r.spec_tag() == tag,
            !r.spec_ready(),
    {
        ScoreBoardEntry { tag, ready: false }
    }

    /// Retrieve the player's tag
    pub fn tag(&self) -> (r: &T)
        ensures
            *r == self.spec_tag(),
    {
        &self.tag
    }

    /// Mark the player as ready
    pub fn set_ready(&mut self)
        ensures
            final(self).spec_ready(),
            final(self).spec_tag() == old(self).spec_tag(),
    {
        self.ready = true;
    }

    /// Retrieve the player's readiness
    pub fn ready(&self) -> (r: bool)
        ensures
            r == self.spec_ready(),
    {
        self.ready
    }

    /// Check whether this player blocks overall readiness
    ///
    /// A player who is still connected blocks it until ready.
    pub fn is_blocking(&self, connected: bool) -> (r: bool)
        ensures
            r == (connected && !self.spec_ready()),
    {
        connected && !self.ready
    }
}

impl<T> Entry for ScoreBoardEntry<T> {
    fn active(&self) -> (r: bool)
        ensures
            r == self.spec_ready(),
    {
        self.ready
    }
}

/// Whether any of the players blocks overall readiness
///
/// The connection status of each player is given alongside.
pub fn any_blocking<T>(entries: &Vec<ScoreBoardEntry<T>>, connected: &Vec<bool>) -> (r: bool)
    requires
        entries.len() == connected.len(),
    ensures
        r == exists|i: int|
            0 <= i < entries.len() && #[trigger] connected[i] && !entries[i].spec_ready(),
{
    let mut i: usize = 0;
    while i < entries.len()
        invariant
            i <= entries.len(),
            entries.len() == connected.len(),
            forall|j: int| 0 <= j < i ==> !(#[trigger] connected[j] && !entries[j].spec_ready()),
        decreases entries.len() - i,
    {
        if entries[i].is_blocking(connected[i]) {
            assert(connected[i as int] && !entries[i as int].spec_ready());
            return true;
        }
        i = i + 1;
    }
    false
}

/// Whether the waiting phase goes on
///
/// The phase lasts while the countdown has not run out, some player blocks
/// overall readiness, and the game did not end.
pub fn keep_waiting(countdown: u8, blocking: bool, end_of_game: bool) -> (r: bool)
    ensures
        r == (countdown > 0 && blocking && !end_of_game),
{
    countdown > 0 && blocking && !end_of_game
}

/// Whether a character of input signals readiness
///
/// Any printable character or a space (`0x20` to `0x7E`) does.
pub fn signals_readiness(c: char) -> (r: bool)
    ensures
        r == (' ' <= c <= '~'),
{
    ' ' <= c && c <= '~'
}

/// Count down one second
pub fn count_down(countdown: u8) -> (r: u8)
    ensures
        r == if countdown > 0 {
            countdown - 1
        } else {
            0
        },
{
    if countdown > 0 {
        countdown - 1
    } else {
        0
    }
}

} // verus!
