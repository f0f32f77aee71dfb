//! Game master settings

use vstd::prelude::*;

use crate::game::lobby::LobbyControl;
use crate::game::GameControl;

verus! {

/// Game settings
#[derive(Copy, Clone, Debug, Default)]
pub struct Settings {
    pub accept_players: bool,
    pub max_players: u8,
    pub virus_count: u8,
    pub tick_duration: std::time::Duration,
}

impl Settings {
    /// Create a LobbyControl message reflecting the relevant settings
    pub fn as_lobby_control<R>(&self) -> (r: LobbyControl<R>)
        ensures
            r == (LobbyControl::<R>::Settings {
                registration_acceptance: self.accept_players,
                max_players: self.max_players,
            }),
    {
        LobbyControl::Settings {
            registration_acceptance: self.accept_players,
            max_players: self.max_players,
        }
    }

    /// Create a GameControl message reflecting the relevant settings
    pub fn as_game_control(&self) -> (r: GameControl)
        ensures
            r == (GameControl::Settings { viruses: self.virus_count, tick: self.tick_duration }),
    {
        GameControl::Settings { viruses: self.virus_count, tick: self.tick_duration }
    }
}

/// Settings the game master may inspect or change
#[derive(Copy, Clone, Debug, PartialEq, Eq, Structural)]
pub enum Property {
    /// Number of viruses with which a field is populated
    Virs,
    /// Duration of a tick, in units of 100ms
    Tick,
}

/// Game master command
#[derive(Copy, Clone, Debug, PartialEq, Eq, Structural)]
pub enum Command {
    /// List the registered players with their scores
    Players,
    /// Control whether new registrations are accepted
    Accept(bool),
    /// Restrict the number of registered players
    Restrict(u8),
    /// Terminate the connection to the player with the given number
    Kick(u32),
    /// Print the current phase
    Status,
    /// Start the game
    Start,
    /// End the game
    End,
    /// Set the number of viruses with which a field is populated
    SetVirs(u8),
    /// Set the duration of a tick, in units of 100ms
    SetTick(u32),
    /// Print the value of a setting
    Get(Property),
}

/// Characters separating the words of a command
pub open spec fn is_space(c: char) -> bool {
    c == ' ' || c == '\t' || c == '\n' || c == '\r' || c == '\x0B' || c == '\x0C'
}

/// The words of `s`, following the word `cur` begun before `s`
pub open spec fn split_words(s: Seq<char>, cur: Seq<char>) -> Seq<Seq<char>>
    decreases s.len(),
{
    if s.len() == 0 {
        if cur.len() == 0 {
            Seq::empty()
        } else {
            seq![cur]
        }
    } else if is_space(s[0]) {
        (if cur.len() == 0 {
            Seq::empty()
        } else {
            seq![cur]
        }) + split_words(s.drop_first(), Seq::empty())
    } else {
        split_words(s.drop_first(), cur.push(s[0]))
    }
}

/// The words of `s`: maximal runs of characters other than whitespace, in order
pub open spec fn words(s: Seq<char>) -> Seq<Seq<char>> {
    split_words(s, Seq::empty())
}

/// `c` is a decimal digit
pub open spec fn is_digit(c: char) -> bool {
    '0' <= c <= '9'
}

/// The value of the decimal digit `c`
pub open spec fn digit_value(c: char) -> nat {
    if is_digit(c) {
        (c as nat - '0' as nat) as nat
    } else {
        0
    }
}

/// The value of the decimal number written with the digits `w`
pub open spec fn digits_value(w: Seq<char>) -> nat
    decreases w.len(),
{
    if w.len() == 0 {
        0
    } else {
        digits_value(w.drop_last()) * 10 + digit_value(w.last())
    }
}

/// The number written in `w`, if `w` is a decimal number not exceeding `max`
pub open spec fn spec_number(w: Seq<char>, max: int) -> Option<int> {
    if w.len() > 0 && (forall|i: int| 0 <= i < w.len() ==> is_digit(#[trigger] w[i]))
        && digits_value(w) <= max {
        Some(digits_value(w) as int)
    } else {
        None
    }
}

/// The flag written in `w`: `t` or `true`, `f` or `false`
pub open spec fn spec_flag(w: Seq<char>) -> Option<bool> {
    if w == "t"@ || w == "true"@ {
        Some(true)
    } else if w == "f"@ || w == "false"@ {
        Some(false)
    } else {
        None
    }
}

/// The setting named `w`
pub open spec fn spec_property(w: Seq<char>) -> Option<Property> {
    if w == "virs"@ {
        Some(Property::Virs)
    } else if w == "tick"@ {
        Some(Property::Tick)
    } else {
        None
    }
}

/// The command written with the words `ws`, if it is a valid one
pub open spec fn spec_command(ws: Seq<Seq<char>>) -> Option<Command> {
    if ws.len() == 0 {
        None
    } else {
        let w = ws[0];
        let n = ws.len();
        if w == "players"@ && n == 1 {
            Some(Command::Players)
        } else if w == "accept"@ && n == 1 {
            Some(Command::Accept(true))
        } else if w == "accept"@ && n == 2 {
            match spec_flag(ws[1]) {
                Some(b) => Some(Command::Accept(b)),
                None => None,
            }
        } else if w == "restrict"@ && n == 2 {
            match spec_number(ws[1], u8::MAX as int) {
                Some(v) => Some(Command::Restrict(v as u8)),
                None => None,
            }
        } else if w == "kick"@ && n == 2 {
            match spec_number(ws[1], u32::MAX as int) {
                Some(v) => Some(Command::Kick(v as u32)),
                None => None,
            }
        } else if w == "status"@ && n == 1 {
            Some(Command::Status)
        } else if w == "start"@ && n == 1 {
            Some(Command::Start)
        } else if w == "end"@ && n == 1 {
            Some(Command::End)
        } else if w == "set"@ && n == 3 {
            match spec_property(ws[1]) {
                Some(Property::Virs) => match spec_number(ws[2], u8::MAX as int) {
                    Some(v) => Some(Command::SetVirs(v as u8)),
                    None => None,
                },
                Some(Property::Tick) => match spec_number(ws[2], u32::MAX as int) {
                    Some(v) => Some(Command::SetTick(v as u32)),
                    None => None,
                },
                None => None,
            }
        } else if w == "get"@ && n == 2 {
            match spec_property(ws[1]) {
                Some(p) => Some(Command::Get(p)),
                None => None,
            }
        } else {
            None
        }
    }
}

/// Check whether `c` separates the words of a command
pub(crate) fn space_char(c: char) -> (r: bool)
    ensures
        r == is_space(c),
{
    c == ' ' || c == '\t' || c == '\n' || c == '\r' || c == '\x0B' || c == '\x0C'
}

/// The characters of a list of words
pub open spec fn words_view(ws: Seq<Vec<char>>) -> Seq<Seq<char>> {
    ws.map_values(|w: Vec<char>| w@)
}

/// Split a line into words separated by whitespace
pub fn split_line(line: &str) -> (r: Vec<Vec<char>>)
    ensures
        words_view(r@) == words(line@),
{
    let len = line.unicode_len();
    let mut ws: Vec<Vec<char>> = Vec::new();
    let mut cur: Vec<char> = Vec::new();
    let mut i: usize = 0;
    assert(line@.skip(0) =~= line@);
    assert(words_view(ws@) + split_words(line@, cur@) =~= split_words(line@, cur@));
    assert(cur@ =~= Seq::<char>::empty());
    while i < len
        invariant
            len == line@.len(),
            i <= len,
            words(line@) == words_view(ws@) + split_words(line@.skip(i as int), cur@),
        decreases len - i,
    {
        let c = line.get_char(i);
        let ghost rest = line@.skip(i as int);
        let ghost before = ws@;
        assert(rest.drop_first() =~= line@.skip(i + 1));
        assert(rest[0] == c);
        if space_char(c) {
            if cur.len() > 0 {
                ws.push(cur);
                assert(words_view(ws@) =~= words_view(before) + seq![cur@]);
            } else {
                assert(words_view(ws@) =~= words_view(before) + Seq::<Seq<char>>::empty());
            }
            cur = Vec::new();
        } else {
            cur.push(c);
        }
        i = i + 1;
    }
    let ghost before = ws@;
    assert(line@.skip(len as int) =~= Seq::<char>::empty());
    if cur.len() > 0 {
        ws.push(cur);
        assert(words_view(ws@) =~= words_view(before) + seq![cur@]);
    } else {
        assert(words_view(ws@) =~= words_view(before) + Seq::<Seq<char>>::empty());
    }
    ws
}

/// Check whether the word `w` is the keyword `kw`
fn word_is(w: &Vec<char>, kw: &str) -> (r: bool)
    ensures
        r == (w@ == kw@),
{
    let len = kw.unicode_len();
    if w.len() != len {
        return false;
    }
    let mut i: usize = 0;
    while i < len
        invariant
            len == kw@.len(),
            w.len() == len,
            i <= len,
            forall|j: int| 0 <= j < i ==> w@[j] == kw@[j],
        decreases len - i,
    {
        if w[i] != kw.get_char(i) {
            return false;
        }
        i = i + 1;
    }
    assert(w@ =~= kw@);
    true
}

/// A longer run of digits has at least the value of its beginning.
proof fn lemma_digits_monotonic(w: Seq<char>, i: int, j: int)
    requires
        0 <= i <= j <= w.len(),
    ensures
        digits_value(w.take(i)) <= digits_value(w.take(j)),
    decreases j - i,
{
    if i < j {
        lemma_digits_monotonic(w, i, j - 1);
        assert(w.take(j).drop_last() =~= w.take(j - 1));
    }
}

/// Parse a decimal number not exceeding `max`
fn parse_number(w: &Vec<char>, max: u32) -> (r: Option<u32>)
    ensures
        r matches Some(v) ==> spec_number(w@, max as int) == Some(v as int),
        r is None ==> spec_number(w@, max as int) is None,
{
    let mut value: u64 = 0;
    let mut too_big = false;
    let mut i: usize = 0;
    while i < w.len()
        invariant
            i <= w.len(),
            forall|j: int| 0 <= j < i ==> is_digit(#[trigger] w@[j]),
            !too_big ==> value == digits_value(w@.take(i as int)) && value <= max,
            too_big ==> digits_value(w@.take(i as int)) > max,
        decreases w.len() - i,
    {
        let c = w[i];
        if !('0' <= c && c <= '9') {
            assert(!is_digit(w@[i as int]));
            return None;
        }
        proof {
            assert(w@.take(i + 1).drop_last() =~= w@.take(i as int));
            lemma_digits_monotonic(w@, i as int, i + 1);
        }
        if !too_big {
            let d = (c as u32 - '0' as u32) as u64;
            value = value * 10 + d;
            if value > max as u64 {
                too_big = true;
            }
        }
        i = i + 1;
    }
    assert(w@.take(w.len() as int) =~= w@);
    if too_big || w.len() == 0 {
        None
    } else {
        Some(value as u32)
    }
}

/// Parse a flag: `t` or `true`, `f` or `false`
fn parse_flag(w: &Vec<char>) -> (r: Option<bool>)
    ensures
        r == spec_flag(w@),
{
    if word_is(w, "t") || word_is(w, "true") {
        Some(true)
    } else if word_is(w, "f") || word_is(w, "false") {
        Some(false)
    } else {
        None
    }
}

/// Parse the name of a setting
fn parse_property(w: &Vec<char>) -> (r: Option<Property>)
    ensures
        r == spec_property(w@),
{
    if word_is(w, "virs") {
        Some(Property::Virs)
    } else if word_is(w, "tick") {
        Some(Property::Tick)
    } else {
        None
    }
}

/// Parse a game master command
///
/// A command consists of the command word followed by its arguments, all
/// separated by whitespace. The function returns `None` if the line holds no
/// valid command.
pub fn parse_command(line: &str) -> (r: Option<Command>)
    ensures
        r == spec_command(words(line@)),
{
    let ws = split_line(line);
    let ghost v = words_view(ws@);
    let n = ws.len();
    if n == 0 {
        return None;
    }
    assert(v[0] == ws[0]@);
    let w = &ws[0];
    if word_is(w, "players") && n == 1 {
        Some(Command::Players)
    } else if word_is(w, "accept") && n == 1 {
        Some(Command::Accept(true))
    } else if word_is(w, "accept") && n == 2 {
        assert(v[1] == ws[1]@);
        match parse_flag(&ws[1]) {
            Some(b) => Some(Command::Accept(b)),
            None => None,
        }
    } else if word_is(w, "restrict") && n == 2 {
        assert(v[1] == ws[1]@);
        match parse_number(&ws[1], 255) {
            Some(v) => Some(Command::Restrict(v as u8)),
            None => None,
        }
    } else if word_is(w, "kick") && n == 2 {
        assert(v[1] == ws[1]@);
        match parse_number(&ws[1], u32::MAX) {
            Some(v) => Some(Command::Kick(v)),
            None => None,
        }
    } else if word_is(w, "status") && n == 1 {
        Some(Command::Status)
    } else if word_is(w, "start") && n == 1 {
        Some(Command::Start)
    } else if word_is(w, "end") && n == 1 {
        Some(Command::End)
    } else if word_is(w, "set") && n == 3 {
        assert(v[1] == ws[1]@);
        assert(v[2] == ws[2]@);
        match parse_property(&ws[1]) {
            Some(Property::Virs) => match parse_number(&ws[2], 255) {
                Some(v) => Some(Command::SetVirs(v as u8)),
                None => None,
            },
            Some(Property::Tick) => match parse_number(&ws[2], u32::MAX) {
                Some(v) => Some(Command::SetTick(v)),
                None => None,
            },
            None => None,
        }
    } else if word_is(w, "get") && n == 2 {
        assert(v[1] == ws[1]@);
        match parse_property(&ws[1]) {
            Some(p) => Some(Command::Get(p)),
            None => None,
        }
    } else {
        None
    }
}

} // verus!
