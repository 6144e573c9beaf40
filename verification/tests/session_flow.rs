use rune_agent::frames::{make_subscribe_frame, parse_frame, FrameDecision};
use rune_agent::loadout::Loadout;
use rune_agent::phase::{parse_phase, GamePhase};
use rune_agent::registry::{Registry, RegistryError};
use rune_agent::session::{decode_champ_select, MissingFact, PlayerSlot, SessionState};

fn loadout(name: &str) -> Loadout {
    Loadout {
        current: true,
        id: 9,
        is_active: true,
        is_deletable: true,
        is_editable: true,
        is_valid: true,
        last_modified: 42,
        name: name.to_string(),
        order: 1,
        primary_style_id: 8100,
        selected_perk_ids: vec![8112],
        sub_style_id: 8300,
    }
}

#[test]
fn game_start_edge_commits_once() {
    // ChampSelect -> GameStart with champion 64, abilities (7, 4), mode
    // "CLASSIC": the snapshot commits under that key; a repeated GameStart
    // observation does not re-commit.
    let mut s = SessionState::new();
    assert!(s.observe_mode(vec!["CLASSIC".to_string()]));
    assert_eq!(s.observe_champ(vec![64]), Some(64));
    assert!(s.observe_spells(vec![(7, 4)]));
    assert!(!s.observe_phase(vec![Some(GamePhase::ChampSelect)]));
    assert!(s.observe_phase(vec![Some(GamePhase::GameStart)]));
    let snap = s.snapshot_at_game_start(Some(loadout("current page"))).unwrap();
    assert_eq!(snap.champ_id, 64);
    assert_eq!(snap.spells, (7, 4));
    assert_eq!(snap.game_mode, "CLASSIC");
    assert_eq!(snap.loadout.name, "current page");
    // No intervening phase change: the repeated observation is not an edge.
    assert!(!s.observe_phase(vec![Some(GamePhase::GameStart)]));
}

#[test]
fn repeated_facts_do_not_retrigger() {
    let mut s = SessionState::new();
    assert_eq!(s.observe_champ(vec![103]), Some(103));
    assert_eq!(s.observe_champ(vec![103]), None);
    assert_eq!(s.observe_champ(vec![103, 64]), Some(64));
    assert!(s.observe_mode(vec!["ARAM".to_string()]));
    assert!(!s.observe_mode(vec!["ARAM".to_string()]));
    assert!(s.observe_spells(vec![(4, 11)]));
    assert!(!s.observe_spells(vec![(4, 11)]));
}

#[test]
fn drain_keeps_only_latest_value() {
    let mut s = SessionState::new();
    // Several pending champion ids: only the latest counts.
    assert_eq!(s.observe_champ(vec![1, 2, 3]), Some(3));
    // The latest equals the last-observed: no action, even though earlier
    // queued values differ.
    assert_eq!(s.observe_champ(vec![9, 3]), None);
}

#[test]
fn empty_drain_changes_nothing() {
    let mut s = SessionState::new();
    assert_eq!(s.observe_champ(Vec::new()), None);
    assert!(!s.observe_mode(Vec::new()));
    assert!(!s.observe_spells(Vec::new()));
    assert!(!s.observe_phase(Vec::new()));
    assert!(!s.observe_loadout(Vec::new()));
}

#[test]
fn snapshot_names_each_missing_fact() {
    let mut s = SessionState::new();
    assert!(s.observe_mode(vec!["CLASSIC".to_string()]));
    let missing = s.snapshot_at_game_start(None).unwrap_err();
    assert_eq!(
        missing,
        vec![MissingFact::ChampionId, MissingFact::AbilityPair, MissingFact::ActiveLoadout]
    );
}

#[test]
fn mode_defaults_to_placeholder() {
    let mut s = SessionState::new();
    assert_eq!(s.mode_for_provision(), "UNKNOWN");
    s.observe_mode(vec!["URF".to_string()]);
    assert_eq!(s.mode_for_provision(), "URF");
}

#[test]
fn phase_names_map_to_the_enumeration() {
    assert_eq!(parse_phase("Lobby"), Some(GamePhase::Lobby));
    assert_eq!(parse_phase("Matchmaking"), Some(GamePhase::Matchmaking));
    assert_eq!(parse_phase("ReadyCheck"), Some(GamePhase::ReadyCheck));
    assert_eq!(parse_phase("ChampSelect"), Some(GamePhase::ChampSelect));
    assert_eq!(parse_phase("GameStart"), Some(GamePhase::GameStart));
    assert_eq!(parse_phase("InProgress"), Some(GamePhase::InProgress));
    assert_eq!(parse_phase("WaitingForStats"), Some(GamePhase::WaitingForStats));
    assert_eq!(parse_phase("PreEndOfGame"), Some(GamePhase::PreEndOfGame));
    assert_eq!(parse_phase("EndOfGame"), Some(GamePhase::EndOfGame));
    assert_eq!(parse_phase("TerrainReveal"), None);
    assert_eq!(parse_phase(""), None);
}

#[test]
fn registry_hands_out_fresh_ids_in_order() {
    let mut reg = Registry::new();
    let a = reg.subscribe("alpha".to_string());
    let b = reg.subscribe("beta".to_string());
    let c = reg.subscribe("alpha".to_string());
    assert_eq!((a, b, c), (0, 1, 2));
    assert_eq!(reg.handlers_for("alpha"), vec![0, 2]);
    assert_eq!(reg.handlers_for("beta"), vec![1]);
    assert_eq!(reg.handlers_for("gamma"), Vec::<u64>::new());
}

#[test]
fn unsubscribe_removes_exactly_the_id() {
    let mut reg = Registry::new();
    let a = reg.subscribe("alpha".to_string());
    let b = reg.subscribe("alpha".to_string());
    assert_eq!(reg.unsubscribe(a), Ok(()));
    assert_eq!(reg.handlers_for("alpha"), vec![b]);
    assert_eq!(reg.unsubscribe(a), Err(RegistryError::IdNotFound));
    assert_eq!(reg.unsubscribe(999), Err(RegistryError::IdNotFound));
}

#[test]
fn event_frames_decode_to_topic_and_payload() {
    match parse_frame("[8,\"OnJsonApiEvent_lol-gameflow_v1_session\",{\"data\":{}}]") {
        FrameDecision::Deliver { topic, payload } => {
            assert_eq!(topic, "OnJsonApiEvent_lol-gameflow_v1_session");
            assert_eq!(payload, "{\"data\":{}}");
        },
        _ => panic!("expected delivery"),
    }
}

#[test]
fn empty_frames_are_ignored() {
    assert!(matches!(parse_frame(""), FrameDecision::Ignore));
}

#[test]
fn malformed_frames_end_the_session() {
    assert!(matches!(parse_frame("hello"), FrameDecision::Malformed));
    assert!(matches!(parse_frame("[no digits\"x\",1]"), FrameDecision::Malformed));
    assert!(matches!(parse_frame("[8]"), FrameDecision::Malformed));
    assert!(matches!(parse_frame("[8,\"unterminated,1]"), FrameDecision::Malformed));
    assert!(matches!(parse_frame("[8,\"t\",1"), FrameDecision::Malformed));
}

#[test]
fn empty_payload_frames_still_deliver() {
    match parse_frame("[5,\"topic\",]") {
        FrameDecision::Deliver { topic, payload } => {
            assert_eq!(topic, "topic");
            assert_eq!(payload, "");
        },
        _ => panic!("expected delivery"),
    }
}

#[test]
fn subscribe_frames_carry_the_topic() {
    assert_eq!(
        make_subscribe_frame("OnJsonApiEvent_lol-perks_v1_currentpage"),
        "[5, \"OnJsonApiEvent_lol-perks_v1_currentpage\"]"
    );
}

#[test]
fn loadout_change_detection_compares_content() {
    let mut s = SessionState::new();
    assert!(s.observe_loadout(vec![Some(loadout("A"))]));
    assert!(!s.observe_loadout(vec![Some(loadout("A"))]));
    assert!(s.observe_loadout(vec![Some(loadout("B"))]));
    assert!(s.observe_loadout(vec![None]));
    assert!(!s.observe_loadout(vec![None]));
}

#[test]
fn champ_select_decoder_prefers_locked_champion() {
    let me = PlayerSlot {
        cell_id: 2,
        champion_id: 0,
        champion_pick_intent: 103,
        spell1_id: 4,
        spell2_id: 0,
    };
    let other = PlayerSlot {
        cell_id: 1,
        champion_id: 64,
        champion_pick_intent: 0,
        spell1_id: 7,
        spell2_id: 14,
    };
    // Pick intent stands in while nothing is locked; a zero ability id
    // suppresses the pair.
    assert_eq!(decode_champ_select(2, &vec![other, me]), (Some(103), None));
    let locked = PlayerSlot { champion_id: 55, spell1_id: 4, spell2_id: 14, ..me };
    assert_eq!(decode_champ_select(2, &vec![other, locked]), (Some(55), Some((4, 14))));
    // No slot for the local cell: no facts.
    assert_eq!(decode_champ_select(9, &vec![other, me]), (None, None));
    // Neither locked nor intended: no champion fact.
    let idle = PlayerSlot { champion_id: 0, champion_pick_intent: 0, ..me };
    assert_eq!(decode_champ_select(2, &vec![idle]), (None, None));
}
