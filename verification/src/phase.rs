//! The game-phase enumeration and the mapping from the client's free-text
//! phase names onto it. Transition handling is edge-triggered elsewhere; this
//! module only fixes the vocabulary.

use vstd::prelude::*;
use crate::text::str_eq;

verus! {

/// The fixed, ordered enumeration of game phases the client reports.
/// A phase string outside this vocabulary decodes to `None` (unknown).
#[derive(Clone, Copy, Debug, PartialEq, Eq, Structural)]
pub enum GamePhase {
    Lobby,
    Matchmaking,
    ReadyCheck,
    ChampSelect,
    GameStart,
    InProgress,
    WaitingForStats,
    PreEndOfGame,
    EndOfGame,
}

/// What a phase string denotes: one of the nine known phases, or unknown.
pub open spec fn phase_of(s: Seq<char>) -> Option<GamePhase> {
    if s == "Lobby"@ {
        Some(GamePhase::Lobby)
    } else if s == "Matchmaking"@ {
        Some(GamePhase::Matchmaking)
    } else if s == "ReadyCheck"@ {
        Some(GamePhase::ReadyCheck)
    } else if s == "ChampSelect"@ {
        Some(GamePhase::ChampSelect)
    } else if s == "GameStart"@ {
        Some(GamePhase::GameStart)
    } else if s == "InProgress"@ {
        Some(GamePhase::InProgress)
    } else if s == "WaitingForStats"@ {
        Some(GamePhase::WaitingForStats)
    } else if s == "PreEndOfGame"@ {
        Some(GamePhase::PreEndOfGame)
    } else if s == "EndOfGame"@ {
        Some(GamePhase::EndOfGame)
    } else {
        None
    }
}

/// Decode a phase string; unrecognized names map to `None`.
pub fn parse_phase(s: &str) -> (r: Option<GamePhase>)
    ensures
        r == phase_of(s@),
{
    if str_eq(s, "Lobby") {
        Some(GamePhase::Lobby)
    } else if str_eq(s, "Matchmaking") {
        Some(GamePhase::Matchmaking)
    } else if str_eq(s, "ReadyCheck") {
        Some(GamePhase::ReadyCheck)
    } else if str_eq(s, "ChampSelect") {
        Some(GamePhase::ChampSelect)
    } else if str_eq(s, "GameStart") {
        Some(GamePhase::GameStart)
    } else if str_eq(s, "InProgress") {
        Some(GamePhase::InProgress)
    } else if str_eq(s, "WaitingForStats") {
        Some(GamePhase::WaitingForStats)
    } else if str_eq(s, "PreEndOfGame") {
        Some(GamePhase::PreEndOfGame)
    } else if str_eq(s, "EndOfGame") {
        Some(GamePhase::EndOfGame)
    } else {
        None
    }
}

} // verus!
