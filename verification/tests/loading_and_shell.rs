use ttrpg_utils::entry::PcInfo;
use ttrpg_utils::initiative_tracker::InitiativeTracker;
use ttrpg_utils::shell::{AppShell, AppView};

#[test]
fn loading_the_roster_fixture_yields_matching_entries() {
    let data = r#"[{"name":"Aria","hp":24},{"name":"Borin","hp":31}]"#;
    let parsed: serde_json::Value = serde_json::from_str(data).unwrap();
    let mut pcs: Vec<PcInfo> = Vec::new();
    for item in parsed.as_array().unwrap() {
        pcs.push(PcInfo {
            name: item.get("name").unwrap().as_str().unwrap().to_string(),
            hp: item.get("hp").unwrap().as_i64().unwrap() as i32,
        });
    }
    let mut t = InitiativeTracker::default();
    t.add_loaded_pcs(&pcs);
    assert_eq!(t.entries.len(), 2);
    assert_eq!(t.entries[0].name, "Aria");
    assert_eq!(t.entries[0].hp_current, 24);
    assert_eq!(t.entries[0].hp_total, 24);
    assert_eq!(t.entries[1].name, "Borin");
    assert_eq!(t.entries[1].hp_current, 31);
    assert_eq!(t.entries[1].hp_total, 31);
    for e in &t.entries {
        assert_eq!(e.initiative, 0);
        assert_eq!(e.conditions, "");
    }
}

#[test]
fn malformed_roster_data_is_rejected_by_the_parser() {
    let data = r#"[{"name":"Aria","hp":"not a number"}]"#;
    let parsed: serde_json::Value = serde_json::from_str(data).unwrap();
    let item = &parsed.as_array().unwrap()[0];
    assert!(item.get("hp").unwrap().as_i64().is_none());
}

#[test]
fn shell_starts_on_landing_page() {
    let s = AppShell::new(3);
    assert_eq!(s.current_view, AppView::LandingPage);
    assert!(!s.sidebar_open);
    assert_eq!(s.app_count, 3);
}

#[test]
fn shell_opens_a_tool_and_returns() {
    let mut s = AppShell::new(2);
    s.select_app(1);
    assert_eq!(s.current_view, AppView::SubApp(1));
    s.toggle_sidebar();
    assert!(s.sidebar_open);
    s.toggle_sidebar();
    assert!(!s.sidebar_open);
    s.back_to_landing();
    assert_eq!(s.current_view, AppView::LandingPage);
}
