//! Game logic of the lobby phase

use vstd::prelude::*;

use vstd::string::{StrSliceExecFns, StringExecFns};

use crate::console::is_space;

verus! {

/// Control message specific to the lobby phase
///
/// A game start carries the receiver via which game control messages will
/// arrive.
#[derive(Clone, Debug)]
pub enum LobbyControl<R> {
    Settings { registration_acceptance: bool, max_players: u8 },
    GameStart(R),
}

/// Reason for denial of a registration
#[derive(Copy, Clone, Debug, PartialEq, Eq, Structural)]
pub enum DenialReason {
    AcceptanceClosed,
    MaxPlayers,
    NameTaken,
    PermanentFailure,
}

impl DenialReason {
    /// The message explaining the denial
    pub open spec fn spec_message(&self) -> &'static str {
        match self {
            DenialReason::AcceptanceClosed => "Registration is closed",
            DenialReason::MaxPlayers => "Max number of players reached",
            DenialReason::NameTaken => "Name is already taken",
            DenialReason::PermanentFailure => "Permanent registration failure",
        }
    }

    /// Retrieve the message explaining the denial
    pub fn message(&self) -> (r: &'static str)
        ensures
            r == self.spec_message(),
    {
        match self {
            DenialReason::AcceptanceClosed => "Registration is closed",
            DenialReason::MaxPlayers => "Max number of players reached",
            DenialReason::NameTaken => "Name is already taken",
            DenialReason::PermanentFailure => "Permanent registration failure",
        }
    }
}

/// Whether one of the names is the given one
pub open spec fn name_taken(names: Seq<Seq<char>>, name: Seq<char>) -> bool {
    exists|i: int| 0 <= i < names.len() && names[i] == name
}

/// Decide on a registration
///
/// A registration is denied if registration is closed, if the maximum number
/// of players is reached, if a registered player already has the name, or,
/// failing all else, if the connection is unknown. The function returns the
/// reason for a denial, or `None` if the registration is accepted.
pub fn registration_denial(
    accept: bool,
    names: &Vec<String>,
    max_players: u8,
    name: &String,
    connection_known: bool,
) -> (r: Option<DenialReason>)
    ensures
        !accept ==> r == Some(DenialReason::AcceptanceClosed),
        accept && names.len() >= max_players ==> r == Some(DenialReason::MaxPlayers),
        accept && names.len() < max_players && name_taken(
            names@.map_values(|n: String| n@),
            name@,
        ) ==> r == Some(DenialReason::NameTaken),
        accept && names.len() < max_players && !name_taken(
            names@.map_values(|n: String| n@),
            name@,
        ) ==> r == if connection_known {
            None
        } else {
            Some(DenialReason::PermanentFailure)
        },
{
    if !accept {
        return Some(DenialReason::AcceptanceClosed);
    }
    if names.len() >= max_players as usize {
        return Some(DenialReason::MaxPlayers);
    }
    let ghost view = names@.map_values(|n: String| n@);
    let mut i: usize = 0;
    while i < names.len()
        invariant
            i <= names.len(),
            accept,
            names.len() < max_players,
            view == names@.map_values(|n: String| n@),
            forall|j: int| 0 <= j < i ==> view[j] != name@,
        decreases names.len() - i,
    {
        if names[i] == *name {
            assert(view[i as int] == name@);
            assert(name_taken(view, name@));
            return Some(DenialReason::NameTaken);
        }
        i = i + 1;
    }
    proof {
        if name_taken(view, name@) {
            let j = choose|j: int| 0 <= j < view.len() && view[j] == name@;
            assert(view[j] != name@);
        }
    }
    if connection_known {
        None
    } else {
        Some(DenialReason::PermanentFailure)
    }
}

/// `s` without any trailing whitespace
pub open spec fn trim_end(s: Seq<char>) -> Seq<char>
    decreases s.len(),
{
    if s.len() > 0 && is_space(s.last()) {
        trim_end(s.drop_last())
    } else {
        s
    }
}

/// The name to register for an entered value
///
/// Any trailing whitespace is removed from the value.
pub fn registration_name(value: &str) -> (r: String)
    ensures
        r@ == trim_end(value@),
{
    let len = value.unicode_len();
    let mut end = len;
    proof {
        assert(value@.subrange(0, len as int) =~= value@);
    }
    while end > 0 && crate::console::space_char(value.get_char(end - 1))
        invariant
            end <= len,
            len == value@.len(),
            trim_end(value@) == trim_end(value@.subrange(0, end as int)),
        decreases end,
    {
        proof {
            assert(value@.subrange(0, end as int).drop_last() =~= value@.subrange(0, end - 1));
        }
        end = end - 1;
    }
    String::from_str(value.substring_char(0, end))
}

} // verus!
