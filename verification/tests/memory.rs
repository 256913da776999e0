use server::memory::{palace_map, truncate, PalaceRow};

fn row(wing: &str, room: Option<&str>) -> PalaceRow {
    PalaceRow { wing: wing.to_string(), room: room.map(|r| r.to_string()) }
}

#[test]
fn palace_map_reflects_contents() {
    let empty = palace_map(None, Some(&[]));
    assert!(empty.contains("empty"));

    let rows = vec![row("stride", Some("auth-design"))];
    let map = palace_map(None, Some(&rows));
    assert!(map.contains("- stride"));
    assert!(map.contains("  - auth-design"));
}

#[test]
fn palace_map_lists_each_wing_once_with_its_rooms() {
    let rows = vec![
        row("alpha", Some("one")),
        row("alpha", Some("two")),
        row("beta", None),
        row("gamma", Some("")),
        row("gamma", Some("three")),
    ];
    let map = palace_map(Some("alpha"), Some(&rows));
    assert!(map.starts_with("## Memory Palace\n\n"));
    assert!(map.contains("Its memory wing is `alpha` — `remember`"));
    assert!(map.ends_with(
        "Current palace:\n- alpha\n  - one\n  - two\n- beta\n- gamma\n  - three\n"
    ));
}

#[test]
fn palace_map_without_rows_has_only_the_header() {
    let map = palace_map(None, None);
    assert!(map.ends_with("- `connect_memories` — link two related rooms.\n\n"));
    assert!(!map.contains("Current palace"));
    assert!(!map.contains("belongs to a project"));
}

#[test]
fn truncate_trims_and_cuts_with_an_ellipsis() {
    assert_eq!(truncate("  hello world  ", 5), "hello…");
    assert_eq!(truncate("  hi \n", 10), "hi");
    assert_eq!(truncate("exact", 5), "exact");
    assert_eq!(truncate("héllo wörld", 7), "héllo w…");
    assert_eq!(truncate("", 0), "");
}
