use rune_agent::capacity::{plan_capacity, CapacityError};
use rune_agent::cleanup::{plan_cleanup, CleanupError};
use rune_agent::loadout::Loadout;
use rune_agent::provision::{
    cached_candidate, community_candidates, live_pair, plan_provisioning, rank_community,
    Candidate, RawBuild,
};

fn page(id: u64, name: &str, last_modified: u64, deletable: bool, valid: bool) -> Loadout {
    Loadout {
        current: false,
        id,
        is_active: false,
        is_deletable: deletable,
        is_editable: true,
        is_valid: valid,
        last_modified,
        name: name.to_string(),
        order: 0,
        primary_style_id: 8100,
        selected_perk_ids: vec![8112, 8126],
        sub_style_id: 8300,
    }
}

fn candidate(name: &str, spells: (u64, u64), perks: Vec<i64>, win_key: u64) -> Candidate {
    Candidate {
        loadout: Loadout {
            current: false,
            id: 0,
            is_active: false,
            is_deletable: false,
            is_editable: false,
            is_valid: false,
            last_modified: 0,
            name: name.to_string(),
            order: 0,
            primary_style_id: 8100,
            selected_perk_ids: perks,
            sub_style_id: 8300,
        },
        spells,
        win_key,
    }
}

#[test]
fn cached_only_provisioning_applies_swapped_pair() {
    // A cached candidate for (champion 103, mode "ARAM") with pair (4, 11),
    // while the recommendation provider is unreachable: provisioning uses
    // only the cached candidate and applies the live pair (11, 4).
    let stored = page(77, "old name", 5, false, true);
    let cached = cached_candidate(stored, "Ahri", (4, 11));
    assert_eq!(cached.loadout.name, "Ahri (saved) (RP)");
    let plan = plan_provisioning(Some(cached), Vec::new(), 3);
    assert_eq!(plan.writes.len(), 1);
    assert_eq!(plan.writes[0].loadout.name, "Ahri (saved) (RP)");
    assert_eq!(plan.writes[0].spells, (4, 11));
    assert_eq!(plan.live_spells, Some((11, 4)));
}

#[test]
fn live_pair_swaps_reserved_id_only() {
    assert_eq!(live_pair((4, 11)), (11, 4));
    assert_eq!(live_pair((7, 4)), (7, 4));
    assert_eq!(live_pair((12, 21)), (12, 21));
}

#[test]
fn dedup_keeps_earlier_of_identical_builds() {
    // Same ability pair, styles and perk set (up to order): only the earlier
    // candidate survives.
    let a = candidate("first", (1, 2), vec![9, 3, 7], 100);
    let b = candidate("second", (1, 2), vec![3, 7, 9], 50);
    let plan = plan_provisioning(None, vec![a, b], 5);
    assert_eq!(plan.writes.len(), 1);
    assert_eq!(plan.writes[0].loadout.name, "first");
    // Perk order was normalized ascending.
    assert_eq!(plan.writes[0].loadout.selected_perk_ids, vec![3, 7, 9]);
}

#[test]
fn truncation_keeps_highest_ranked_and_writes_them_reversed() {
    let a = candidate("top", (1, 2), vec![1], 300);
    let b = candidate("mid", (3, 4), vec![2], 200);
    let c = candidate("low", (5, 6), vec![3], 100);
    let plan = plan_provisioning(None, vec![a, b, c], 2);
    // min(3, 2) survive; lowest-ranked of the kept two is written first,
    // the top-ranked last (and is thus left active).
    assert_eq!(plan.writes.len(), 2);
    assert_eq!(plan.writes[0].loadout.name, "mid");
    assert_eq!(plan.writes[1].loadout.name, "top");
    assert_eq!(plan.live_spells, Some((1, 2)));
}

#[test]
fn cached_candidate_outranks_community() {
    let cached = cached_candidate(page(0, "x", 0, false, true), "Lux", (7, 14));
    let community = vec![candidate("meta build", (1, 2), vec![1], u64::MAX)];
    let plan = plan_provisioning(Some(cached), community, 1);
    assert_eq!(plan.writes.len(), 1);
    assert_eq!(plan.writes[0].loadout.name, "Lux (saved) (RP)");
    assert_eq!(plan.live_spells, Some((7, 14)));
}

#[test]
fn rank_sort_is_stable_and_descending() {
    let a = candidate("a", (1, 1), vec![], 10);
    let b = candidate("b", (2, 2), vec![], 30);
    let c = candidate("c", (3, 3), vec![], 10);
    let d = candidate("d", (4, 4), vec![], 20);
    let sorted = rank_community(vec![a, b, c, d]);
    let names: Vec<&str> = sorted.iter().map(|c| c.loadout.name.as_str()).collect();
    assert_eq!(names, vec!["b", "d", "a", "c"]);
}

#[test]
fn community_candidates_parse_and_tag() {
    let build = RawBuild {
        name: "Electrocute".to_string(),
        win_key: 123,
        style: "8100".to_string(),
        sub_style: "8300".to_string(),
        perk_ids: vec!["8112".to_string(), "junk".to_string(), "8126".to_string()],
        spells: vec!["4".to_string(), "14".to_string()],
    };
    let cands = community_candidates(vec![build]).unwrap();
    assert_eq!(cands.len(), 1);
    assert_eq!(cands[0].loadout.name, "Electrocute (mobalytics) (RP)");
    assert_eq!(cands[0].loadout.primary_style_id, 8100);
    assert_eq!(cands[0].loadout.sub_style_id, 8300);
    assert_eq!(cands[0].loadout.selected_perk_ids, vec![8112, 8126]);
    assert_eq!(cands[0].spells, (4, 14));
    assert_eq!(cands[0].win_key, 123);
}

#[test]
fn community_candidates_reject_bad_style() {
    let build = RawBuild {
        name: "broken".to_string(),
        win_key: 1,
        style: "not a number".to_string(),
        sub_style: "8300".to_string(),
        perk_ids: vec![],
        spells: vec!["4".to_string(), "14".to_string()],
    };
    assert!(community_candidates(vec![build]).is_err());
}

#[test]
fn community_candidates_reject_missing_spells() {
    let build = RawBuild {
        name: "broken".to_string(),
        win_key: 1,
        style: "8100".to_string(),
        sub_style: "8300".to_string(),
        perk_ids: vec![],
        spells: vec!["4".to_string()],
    };
    assert!(community_candidates(vec![build]).is_err());
}

#[test]
fn capacity_purges_managed_and_counts_slots() {
    let pages = vec![
        page(1, "mine (RP)", 10, true, true),
        page(2, "kept", 20, true, true),
        page(3, "immortal", 30, false, true),
    ];
    let plan = plan_capacity(pages, 5).unwrap();
    assert_eq!(plan.purge_ids, vec![1]);
    assert_eq!(plan.evict_id, None);
    // Non-deletable pages are not counted toward the working set.
    assert_eq!(plan.available, 4);
}

#[test]
fn capacity_evicts_oldest_when_full() {
    let pages = vec![
        page(1, "newer", 200, true, true),
        page(2, "oldest", 50, true, true),
        page(3, "mid", 100, true, true),
    ];
    let plan = plan_capacity(pages, 3).unwrap();
    assert_eq!(plan.purge_ids, Vec::<u64>::new());
    assert_eq!(plan.evict_id, Some(2));
    assert_eq!(plan.available, 1);
}

#[test]
fn capacity_always_leaves_a_slot() {
    let pages = vec![page(1, "a", 1, true, true)];
    let plan = plan_capacity(pages, 1).unwrap();
    assert!(plan.available >= 1);
}

#[test]
fn capacity_fails_only_with_zero_slots() {
    let err = plan_capacity(Vec::new(), 0).unwrap_err();
    assert_eq!(err, CapacityError::NoSlotFree);
}

#[test]
fn cleanup_deletes_older_name_collision_only() {
    // "Foo" at ts 100 and ts 200 plus a valid "Bar": only the ts-100 "Foo"
    // is deleted, "Bar" is untouched.
    let pages = vec![
        page(1, "Foo", 100, true, true),
        page(2, "Foo", 200, true, true),
        page(3, "Bar", 150, true, true),
    ];
    let doomed = plan_cleanup(pages).unwrap();
    assert_eq!(doomed, vec![1]);
}

#[test]
fn cleanup_marks_invalid_pages() {
    let pages = vec![
        page(1, "A", 10, true, false),
        page(2, "B", 20, true, true),
    ];
    let doomed = plan_cleanup(pages).unwrap();
    assert_eq!(doomed, vec![1]);
}

#[test]
fn cleanup_never_marks_the_last_sorted_page() {
    let pages = vec![page(1, "only", 10, true, false)];
    let doomed = plan_cleanup(pages).unwrap();
    assert_eq!(doomed, Vec::<u64>::new());
}

#[test]
fn cleanup_requires_some_pages() {
    assert_eq!(plan_cleanup(Vec::new()).unwrap_err(), CleanupError::NotReady);
}

#[test]
fn cleanup_ignores_non_deletable_pages() {
    let pages = vec![
        page(1, "Foo", 100, false, true),
        page(2, "Foo", 200, true, true),
    ];
    let doomed = plan_cleanup(pages).unwrap();
    assert_eq!(doomed, Vec::<u64>::new());
}
