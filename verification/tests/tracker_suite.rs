use ttrpg_utils::entry::{InitiativeTrackerEntry, PcInfo};
use ttrpg_utils::initiative_tracker::InitiativeTracker;

fn entry(name: &str, initiative: i32) -> InitiativeTrackerEntry {
    InitiativeTrackerEntry {
        name: name.to_string(),
        initiative,
        hp_current: 10,
        hp_total: 10,
        hp_update: 0,
        update_sign: -1,
        conditions: String::new(),
    }
}

fn tracker_with_initiatives(inits: &[i32]) -> InitiativeTracker {
    let mut t = InitiativeTracker::default();
    for (i, &init) in inits.iter().enumerate() {
        t.entries.push(entry(&format!("c{}", i), init));
    }
    t
}

#[test]
fn default_entry_is_fresh_template() {
    let e = InitiativeTrackerEntry::default();
    assert_eq!(e.name, "New Combatant");
    assert_eq!(e.initiative, 0);
    assert_eq!(e.hp_current, 10);
    assert_eq!(e.hp_total, 10);
    assert_eq!(e.hp_update, 0);
    assert_eq!(e.update_sign, -1);
    assert_eq!(e.conditions, "");
}

#[test]
fn default_tracker_is_empty_round_one() {
    let t = InitiativeTracker::default();
    assert!(t.entries.is_empty());
    assert_eq!(t.active_index, None);
    assert_eq!(t.round_count, 1);
    assert!(!t.show_tie_breaker);
    assert!(t.tied_init.is_empty());
}

#[test]
fn add_default_entry_appends_template() {
    let mut t = InitiativeTracker::default();
    t.add_default_entry();
    assert_eq!(t.entries.len(), 1);
    assert_eq!(t.entries[0].name, "New Combatant");
    assert_eq!(t.entries[0].hp_current, 10);
}

#[test]
fn sort_orders_initiatives_nonincreasing() {
    let mut t = tracker_with_initiatives(&[3, 15, 7, 7, 1]);
    t.sort_by_initiative();
    let inits: Vec<i32> = t.entries.iter().map(|e| e.initiative).collect();
    assert_eq!(inits, vec![15, 7, 7, 3, 1]);
    for w in inits.windows(2) {
        assert!(w[0] >= w[1]);
    }
    assert_eq!(t.active_index, Some(0));
}

#[test]
fn sort_empty_list_leaves_no_active_entry() {
    let mut t = InitiativeTracker::default();
    t.sort_by_initiative();
    assert_eq!(t.active_index, None);
    assert!(!t.show_tie_breaker);
    assert!(t.tied_init.is_empty());
}

#[test]
fn sort_is_stable_for_equal_initiatives() {
    let mut t = InitiativeTracker::default();
    t.entries.push(entry("first", 5));
    t.entries.push(entry("higher", 9));
    t.entries.push(entry("second", 5));
    t.entries.push(entry("third", 5));
    t.sort_by_initiative();
    let names: Vec<&str> = t.entries.iter().map(|e| e.name.as_str()).collect();
    assert_eq!(names, vec!["higher", "first", "second", "third"]);
}

#[test]
fn update_hp_applies_damage() {
    let mut t = InitiativeTracker::default();
    t.entries.push(entry("a", 0));
    t.entries[0].hp_update = 3;
    t.entries[0].update_sign = -1;
    t.update_hp(0);
    assert_eq!(t.entries[0].hp_current, 7);
}

#[test]
fn update_hp_clamps_below_zero() {
    let mut t = InitiativeTracker::default();
    t.entries.push(entry("a", 0));
    t.entries[0].hp_update = 25;
    t.entries[0].update_sign = -1;
    t.update_hp(0);
    assert_eq!(t.entries[0].hp_current, 0);
}

#[test]
fn update_hp_clamps_above_total() {
    let mut t = InitiativeTracker::default();
    t.entries.push(entry("a", 0));
    t.entries[0].hp_current = 4;
    t.entries[0].hp_update = 100;
    t.entries[0].update_sign = 1;
    t.update_hp(0);
    assert_eq!(t.entries[0].hp_current, 10);
}

#[test]
fn update_hp_survives_extreme_delta() {
    let mut t = InitiativeTracker::default();
    t.entries.push(entry("a", 0));
    t.entries[0].hp_update = i32::MAX;
    t.entries[0].update_sign = -1;
    t.update_hp(0);
    assert_eq!(t.entries[0].hp_current, 0);
    t.entries[0].hp_update = i32::MAX;
    t.entries[0].update_sign = 1;
    t.update_hp(0);
    assert_eq!(t.entries[0].hp_current, 10);
}

#[test]
fn next_turn_on_empty_list_changes_nothing() {
    let mut t = InitiativeTracker::default();
    t.next_turn();
    assert_eq!(t.active_index, None);
    assert_eq!(t.round_count, 1);
}

#[test]
fn next_turn_activates_first_entry() {
    let mut t = tracker_with_initiatives(&[4, 2]);
    t.next_turn();
    assert_eq!(t.active_index, Some(0));
    assert_eq!(t.round_count, 1);
}

#[test]
fn next_turn_wrap_increments_round() {
    let mut t = tracker_with_initiatives(&[4, 2]);
    t.active_index = Some(1);
    t.next_turn();
    assert_eq!(t.active_index, Some(0));
    assert_eq!(t.round_count, 2);
}

#[test]
fn full_round_returns_to_start_and_adds_one_round() {
    let mut t = tracker_with_initiatives(&[9, 5, 1]);
    t.sort_by_initiative();
    assert_eq!(t.active_index, Some(0));
    assert_eq!(t.round_count, 1);
    for _ in 0..t.entries.len() {
        t.next_turn();
    }
    assert_eq!(t.active_index, Some(0));
    assert_eq!(t.round_count, 2);
}

#[test]
fn reset_combat_clears_everything_but_ties() {
    let mut t = tracker_with_initiatives(&[4, 2]);
    t.active_index = Some(1);
    t.round_count = 7;
    t.reset_combat();
    assert!(t.entries.is_empty());
    assert_eq!(t.active_index, None);
    assert_eq!(t.round_count, 1);
}

#[test]
fn remove_entry_keeps_active_on_same_combatant() {
    let mut t = tracker_with_initiatives(&[9, 5, 1]);
    t.active_index = Some(2);
    t.remove_entry(0);
    assert_eq!(t.entries.len(), 2);
    assert_eq!(t.active_index, Some(1));
    assert_eq!(t.entries[1].initiative, 1);
}

#[test]
fn remove_active_last_entry_wraps_to_front() {
    let mut t = tracker_with_initiatives(&[9, 5, 1]);
    t.active_index = Some(2);
    t.remove_entry(2);
    assert_eq!(t.entries.len(), 2);
    assert_eq!(t.active_index, Some(0));
}

#[test]
fn remove_last_remaining_entry_deactivates() {
    let mut t = tracker_with_initiatives(&[9]);
    t.active_index = Some(0);
    t.remove_entry(0);
    assert!(t.entries.is_empty());
    assert_eq!(t.active_index, None);
}

#[test]
fn tie_detection_finds_two_groups() {
    let mut t = tracker_with_initiatives(&[10, 10, 8, 5, 5, 5]);
    t.sort_by_initiative();
    assert_eq!(t.tied_init, vec![10, 5]);
    assert!(t.show_tie_breaker);
}

#[test]
fn resolving_one_tie_leaves_the_other_pending() {
    let mut t = tracker_with_initiatives(&[10, 10, 8, 5, 5, 5]);
    t.sort_by_initiative();
    t.confirm_tie_group();
    assert_eq!(t.tied_init, vec![5]);
    assert!(t.show_tie_breaker);
    t.confirm_tie_group();
    assert!(t.tied_init.is_empty());
    assert!(!t.show_tie_breaker);
}

#[test]
fn no_ties_means_no_dialog() {
    let mut t = tracker_with_initiatives(&[10, 8, 5]);
    t.sort_by_initiative();
    assert!(t.tied_init.is_empty());
    assert!(!t.show_tie_breaker);
}

#[test]
fn tied_group_indices_lists_the_first_group() {
    let mut t = tracker_with_initiatives(&[10, 10, 8, 5, 5, 5]);
    t.sort_by_initiative();
    assert_eq!(t.tied_group_indices(), vec![0, 1]);
    t.confirm_tie_group();
    assert_eq!(t.tied_group_indices(), vec![3, 4, 5]);
}

#[test]
fn swap_entries_reorders_a_tied_pair() {
    let mut t = InitiativeTracker::default();
    t.entries.push(entry("a", 10));
    t.entries.push(entry("b", 10));
    t.entries.push(entry("c", 3));
    t.sort_by_initiative();
    t.swap_entries(0, 1);
    assert_eq!(t.entries[0].name, "b");
    assert_eq!(t.entries[1].name, "a");
    assert_eq!(t.entries[2].name, "c");
}

#[test]
fn all_equal_initiatives_form_one_group() {
    let mut t = tracker_with_initiatives(&[7, 7, 7]);
    t.sort_by_initiative();
    assert_eq!(t.tied_init, vec![7]);
    assert!(t.show_tie_breaker);
    assert_eq!(t.tied_group_indices(), vec![0, 1, 2]);
}

#[test]
fn remove_behind_active_entry_keeps_index() {
    let mut t = tracker_with_initiatives(&[9, 5, 1]);
    t.active_index = Some(0);
    t.remove_entry(2);
    assert_eq!(t.active_index, Some(0));
    assert_eq!(t.entries.len(), 2);
}

#[test]
fn update_hp_pulls_manual_edit_back_into_range() {
    let mut t = InitiativeTracker::default();
    t.entries.push(entry("a", 0));
    t.entries[0].hp_current = 15;
    t.entries[0].hp_update = 0;
    t.update_hp(0);
    assert_eq!(t.entries[0].hp_current, 10);
}

#[test]
fn loaded_records_become_entries() {
    let mut t = InitiativeTracker::default();
    let pcs = vec![
        PcInfo { name: "Aria".to_string(), hp: 24 },
        PcInfo { name: "Borin".to_string(), hp: 31 },
    ];
    t.add_loaded_pcs(&pcs);
    assert_eq!(t.entries.len(), 2);
    assert_eq!(t.entries[0].name, "Aria");
    assert_eq!(t.entries[0].hp_current, 24);
    assert_eq!(t.entries[0].hp_total, 24);
    assert_eq!(t.entries[0].initiative, 0);
    assert_eq!(t.entries[0].conditions, "");
    assert_eq!(t.entries[1].name, "Borin");
    assert_eq!(t.entries[1].hp_current, 31);
    assert_eq!(t.entries[1].hp_total, 31);
    assert_eq!(t.entries[1].initiative, 0);
    assert_eq!(t.entries[1].conditions, "");
}
