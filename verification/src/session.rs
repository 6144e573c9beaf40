//! The control loop's state: the last-observed value of every fact, with the
//! edge-triggered update rules. Each control-loop iteration drains one fact
//! queue, keeps only the latest value, and acts only when it differs from the
//! last-observed one; a transition into `GameStart` asks for a snapshot
//! commit, and a new champion id asks for provisioning.

use vstd::prelude::*;
use crate::loadout::Loadout;
use crate::loadout::loadout_eq;
use crate::loadout::loadouts_equal;
use crate::phase::GamePhase;
use crate::text::str_eq;

verus! {

/// A fact a snapshot commit was missing at a `GameStart` transition.
#[derive(Clone, Copy, Debug, PartialEq, Eq, Structural)]
pub enum MissingFact {
    ChampionId,
    AbilityPair,
    GameMode,
    ActiveLoadout,
}

/// What is written to the persistent store on a `GameStart` transition.
#[derive(Debug)]
pub struct Snapshot {
    pub champ_id: u64,
    pub spells: (u64, u64),
    pub game_mode: String,
    pub loadout: Loadout,
}

/// The last-observed value of every fact the decoders publish.
pub struct SessionState {
    pub game_mode: Option<String>,
    pub active_loadout: Option<Loadout>,
    pub champ_id: Option<u64>,
    pub phase: Option<GamePhase>,
    pub spells: Option<(u64, u64)>,
}

/// The state after observing a mode value.
pub open spec fn mode_next(s: SessionState, latest: String) -> SessionState {
    SessionState { game_mode: Some(latest), ..s }
}

/// A mode value differs from the last-observed one.
pub open spec fn mode_changed(s: SessionState, latest: String) -> bool {
    !(s.game_mode is Some && s.game_mode->0@ == latest@)
}

/// The state after observing an active-loadout value.
pub open spec fn loadout_next(s: SessionState, latest: Option<Loadout>) -> SessionState {
    SessionState { active_loadout: latest, ..s }
}

/// An active-loadout value differs from the last-observed one.
pub open spec fn loadout_changed(s: SessionState, latest: Option<Loadout>) -> bool {
    match (s.active_loadout, latest) {
        (Option::None, Option::None) => false,
        (Option::Some(a), Option::Some(b)) => !loadout_eq(a, b),
        _ => true,
    }
}

/// The state after observing a champion id.
pub open spec fn champ_next(s: SessionState, latest: u64) -> SessionState {
    SessionState { champ_id: Some(latest), ..s }
}

/// The provisioning request a champion-id observation raises: the id when it
/// is new or changed, nothing when it repeats the last-observed one.
pub open spec fn champ_action(s: SessionState, latest: u64) -> Option<u64> {
    if s.champ_id == Some(latest) {
        None
    } else {
        Some(latest)
    }
}

/// The state after observing an ability pair.
pub open spec fn spells_next(s: SessionState, latest: (u64, u64)) -> SessionState {
    SessionState { spells: Some(latest), ..s }
}

/// An ability pair differs from the last-observed one.
pub open spec fn spells_changed(s: SessionState, latest: (u64, u64)) -> bool {
    s.spells != Some(latest)
}

/// The state after observing a phase value.
pub open spec fn phase_next(s: SessionState, latest: Option<GamePhase>) -> SessionState {
    SessionState { phase: latest, ..s }
}

/// A phase observation asks for a snapshot commit exactly when it is an edge
/// into `GameStart`.
pub open spec fn phase_commits(s: SessionState, latest: Option<GamePhase>) -> bool {
    s.phase != latest && latest == Some(GamePhase::GameStart)
}

/// The diagnostics a skipped commit emits: one per missing fact, in a fixed
/// order.
pub open spec fn missing_of(s: SessionState, fetched_some: bool) -> Seq<MissingFact> {
    (if s.champ_id is None {
        seq![MissingFact::ChampionId]
    } else {
        Seq::empty()
    }) + (if s.spells is None {
        seq![MissingFact::AbilityPair]
    } else {
        Seq::empty()
    }) + (if s.game_mode is None {
        seq![MissingFact::GameMode]
    } else {
        Seq::empty()
    }) + (if !fetched_some {
        seq![MissingFact::ActiveLoadout]
    } else {
        Seq::empty()
    })
}

impl SessionState {
    /// A fresh session: nothing observed yet.
    pub fn new() -> (r: SessionState)
        ensures
            r.game_mode is None,
            r.active_loadout is None,
            r.champ_id is None,
            r.phase is None,
            r.spells is None,
    {
        SessionState {
            game_mode: None,
            active_loadout: None,
            champ_id: None,
            phase: None,
            spells: None,
        }
    }

    /// Drain the mode queue: keep the latest value; report whether it differs
    /// from the last-observed one.
    pub fn observe_mode(&mut self, drained: Vec<String>) -> (changed: bool)
        ensures
            drained@.len() == 0 ==> *final(self) == *old(self) && !changed,
            drained@.len() > 0 ==> *final(self) == mode_next(*old(self), drained@.last())
                && changed == mode_changed(*old(self), drained@.last()),
    {
        let mut d = drained;
        match d.pop() {
            None => false,
            Some(latest) => {
                let changed = match &self.game_mode {
                    Some(m) => !str_eq(m.as_str(), latest.as_str()),
                    None => true,
                };
                self.game_mode = Some(latest);
                changed
            },
        }
    }

    /// Drain the active-loadout queue: keep the latest value; report whether
    /// it differs from the last-observed one.
    pub fn observe_loadout(&mut self, drained: Vec<Option<Loadout>>) -> (changed: bool)
        ensures
            drained@.len() == 0 ==> *final(self) == *old(self) && !changed,
            drained@.len() > 0 ==> *final(self) == loadout_next(*old(self), drained@.last())
                && changed == loadout_changed(*old(self), drained@.last()),
    {
        let mut d = drained;
        match d.pop() {
            None => false,
            Some(latest) => {
                let changed = match (&self.active_loadout, &latest) {
                    (None, None) => false,
                    (Some(a), Some(b)) => !loadouts_equal(a, b),
                    _ => true,
                };
                self.active_loadout = latest;
                changed
            },
        }
    }

    /// Drain the champion-id queue: keep the latest value; raise a
    /// provisioning request exactly when it is new or changed.
    pub fn observe_champ(&mut self, drained: Vec<u64>) -> (r: Option<u64>)
        ensures
            drained@.len() == 0 ==> *final(self) == *old(self) && r is None,
            drained@.len() > 0 ==> *final(self) == champ_next(*old(self), drained@.last()) && r
                == champ_action(*old(self), drained@.last()),
    {
        let mut d = drained;
        match d.pop() {
            None => None,
            Some(latest) => {
                let changed = match self.champ_id {
                    Some(c) => c != latest,
                    None => true,
                };
                self.champ_id = Some(latest);
                if changed {
                    Some(latest)
                } else {
                    None
                }
            },
        }
    }

    /// Drain the ability-pair queue: keep the latest value; report whether it
    /// differs from the last-observed one.
    pub fn observe_spells(&mut self, drained: Vec<(u64, u64)>) -> (changed: bool)
        ensures
            drained@.len() == 0 ==> *final(self) == *old(self) && !changed,
            drained@.len() > 0 ==> *final(self) == spells_next(*old(self), drained@.last())
                && changed == spells_changed(*old(self), drained@.last()),
    {
        let mut d = drained;
        match d.pop() {
            None => false,
            Some(latest) => {
                let changed = match self.spells {
                    Some(s) => !(s.0 == latest.0 && s.1 == latest.1),
                    None => true,
                };
                self.spells = Some(latest);
                changed
            },
        }
    }

    /// Drain the phase queue: keep the latest value; report whether this is a
    /// transition into `GameStart`, which asks for a snapshot commit.
    pub fn observe_phase(&mut self, drained: Vec<Option<GamePhase>>) -> (game_start: bool)
        ensures
            drained@.len() == 0 ==> *final(self) == *old(self) && !game_start,
            drained@.len() > 0 ==> *final(self) == phase_next(*old(self), drained@.last())
                && game_start == phase_commits(*old(self), drained@.last()),
    {
        let mut d = drained;
        match d.pop() {
            None => false,
            Some(latest) => {
                let changed = match (self.phase, latest) {
                    (None, None) => false,
                    (Some(a), Some(b)) => a != b,
                    _ => true,
                };
                self.phase = latest;
                changed && matches!(latest, Some(GamePhase::GameStart))
            },
        }
    }

    /// The mode a provisioning request carries: the observed mode, or the
    /// fixed placeholder when none was observed yet.
    pub fn mode_for_provision(&self) -> (m: String)
        ensures
            self.game_mode is Some ==> m@ == self.game_mode->0@,
            self.game_mode is None ==> m@ == "UNKNOWN"@,
    {
        match &self.game_mode {
            Some(s) => s.clone(),
            None => "UNKNOWN".to_owned(),
        }
    }

    /// Decide the snapshot commit at a `GameStart` transition: commit exactly
    /// when champion, ability pair, mode and fetched loadout are all known;
    /// otherwise name each missing fact.
    pub fn snapshot_at_game_start(&self, fetched: Option<Loadout>) -> (r: Result<
        Snapshot,
        Vec<MissingFact>,
    >)
        ensures
            r is Ok <==> self.champ_id is Some && self.spells is Some && self.game_mode is Some
                && fetched is Some,
            r is Ok ==> r->Ok_0.champ_id == self.champ_id->0 && r->Ok_0.spells == self.spells->0
                && r->Ok_0.game_mode@ == self.game_mode->0@ && r->Ok_0.loadout == fetched->0,
            r is Err ==> r->Err_0@ == missing_of(*self, fetched is Some),
    {
        if self.champ_id.is_some() && self.spells.is_some() && self.game_mode.is_some()
            && fetched.is_some() {
            let champ_id = self.champ_id.unwrap();
            let spells = self.spells.unwrap();
            let game_mode = match &self.game_mode {
                Some(m) => m.clone(),
                None => String::new(),
            };
            let loadout = match fetched {
                Some(l) => l,
                None => Loadout::blank(),
            };
            Ok(Snapshot { champ_id, spells, game_mode, loadout })
        } else {
            let mut missing: Vec<MissingFact> = Vec::new();
            if self.champ_id.is_none() {
                missing.push(MissingFact::ChampionId);
            }
            if self.spells.is_none() {
                missing.push(MissingFact::AbilityPair);
            }
            if self.game_mode.is_none() {
                missing.push(MissingFact::GameMode);
            }
            if fetched.is_none() {
                missing.push(MissingFact::ActiveLoadout);
            }
            proof {
                assert(missing@ =~= missing_of(*self, fetched is Some));
            }
            Err(missing)
        }
    }
}

/// Law: a repeated mode value is never a change.
pub proof fn lemma_repeated_mode_is_no_change(s: SessionState, latest: String)
    ensures
        !mode_changed(mode_next(s, latest), latest),
{
}

/// Law: a repeated active-loadout value is never a change.
pub proof fn lemma_repeated_loadout_is_no_change(s: SessionState, latest: Option<Loadout>)
    ensures
        !loadout_changed(loadout_next(s, latest), latest),
{
}

/// Law: a repeated champion id never re-triggers provisioning; a changed one
/// always does.
pub proof fn lemma_champ_retrigger_only_on_change(s: SessionState, latest: u64)
    ensures
        champ_action(champ_next(s, latest), latest) is None,
        s.champ_id != Some(latest) ==> champ_action(s, latest) == Some(latest),
{
}

/// Law: a repeated ability pair is never a change.
pub proof fn lemma_repeated_spells_is_no_change(s: SessionState, latest: (u64, u64))
    ensures
        !spells_changed(spells_next(s, latest), latest),
{
}

/// Law: a repeated phase observation never re-commits; only an edge into
/// `GameStart` commits.
pub proof fn lemma_repeated_phase_no_recommit(s: SessionState, latest: Option<GamePhase>)
    ensures
        !phase_commits(phase_next(s, latest), latest),
        s.phase != Some(GamePhase::GameStart) && latest == Some(GamePhase::GameStart)
            ==> phase_commits(s, latest),
{
}


/// One team slot of a champion-select session, reduced to plain values.
#[derive(Clone, Copy, Debug, PartialEq, Eq, Structural)]
pub struct PlayerSlot {
    pub cell_id: u64,
    pub champion_id: u64,
    pub champion_pick_intent: u64,
    pub spell1_id: u64,
    pub spell2_id: u64,
}

/// The first slot belonging to the local player, if any.
pub open spec fn local_slot(team: Seq<PlayerSlot>, local_cell: u64) -> Option<PlayerSlot>
    decreases team.len(),
{
    if team.len() == 0 {
        None
    } else if team[0].cell_id == local_cell {
        Some(team[0])
    } else {
        local_slot(team.drop_first(), local_cell)
    }
}

/// The champion fact a slot yields: the locked champion when nonzero, else
/// the pick intent; nothing while both are zero.
pub open spec fn champ_fact(slot: PlayerSlot) -> Option<u64> {
    let c = if slot.champion_id != 0 {
        slot.champion_id
    } else {
        slot.champion_pick_intent
    };
    if c != 0 {
        Some(c)
    } else {
        None
    }
}

/// The ability-pair fact a slot yields: only when both ids are nonzero.
pub open spec fn spells_fact(slot: PlayerSlot) -> Option<(u64, u64)> {
    if slot.spell1_id != 0 && slot.spell2_id != 0 {
        Some((slot.spell1_id, slot.spell2_id))
    } else {
        None
    }
}

/// Decode one champion-select observation: find the local player's slot and
/// extract the champion and ability-pair facts it yields.
#[verifier::loop_isolation(false)]
pub fn decode_champ_select(local_cell: u64, team: &Vec<PlayerSlot>) -> (r: (
    Option<u64>,
    Option<(u64, u64)>,
))
    ensures
        r == (match local_slot(team@, local_cell) {
            Some(slot) => (champ_fact(slot), spells_fact(slot)),
            None => (None::<u64>, None::<(u64, u64)>),
        }),
{
    let mut j: usize = 0;
    proof {
        assert(team@.skip(0) =~= team@);
    }
    while j < team.len()
        invariant
            j <= team@.len(),
            local_slot(team@, local_cell) == local_slot(team@.skip(j as int), local_cell),
        decreases team@.len() - j,
    {
        proof {
            assert(team@.skip(j as int).drop_first() =~= team@.skip(j + 1));
        }
        if team[j].cell_id == local_cell {
            let slot = team[j];
            proof {
                assert(team@.skip(j as int)[0] == slot);
            }
            let champ = if slot.champion_id != 0 {
                slot.champion_id
            } else {
                slot.champion_pick_intent
            };
            let champ_r = if champ != 0 {
                Some(champ)
            } else {
                None
            };
            let spells_r = if slot.spell1_id != 0 && slot.spell2_id != 0 {
                Some((slot.spell1_id, slot.spell2_id))
            } else {
                None
            };
            return (champ_r, spells_r);
        }
        j = j + 1;
    }
    proof {
        assert(team@.skip(team@.len() as int) =~= Seq::<PlayerSlot>::empty());
    }
    (None, None)
}

} // verus!
