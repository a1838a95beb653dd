use tab_groups::tab_settings::{
    ShowVerticalTabPanelInRestoredWindows, TabGroup, TabGroupAssignment, TabGroupAssignments,
    TabGroupId, TabGroups, UseLatestUserPromptAsConversationTitleInTabNames,
};

fn assignments(entries: &[(&str, TabGroupAssignment)]) -> TabGroupAssignments {
    TabGroupAssignments(
        entries
            .iter()
            .map(|(path, a)| ((*path).to_string(), a.clone()))
            .collect(),
    )
}

fn gid(s: &str) -> TabGroupId {
    TabGroupId(s.to_string())
}

#[test]
fn group_for_directory_returns_none_when_empty() {
    let a = TabGroupAssignments::default();
    assert!(a.group_for_directory("/nonexistent/intavia").is_none());
}

#[test]
fn group_for_directory_matches_broader_in_group_prefix() {
    let a = assignments(&[(
        "/nonexistent/intavia",
        TabGroupAssignment::InGroup(gid("g-intavia")),
    )]);
    assert_eq!(
        a.group_for_directory("/nonexistent/intavia/crates/app"),
        Some(gid("g-intavia"))
    );
}

#[test]
fn group_for_directory_excluded_shadows_broader_in_group() {
    // Longest prefix first, then interpret: the child Excluded must win over
    // the broader InGroup.
    let a = assignments(&[
        (
            "/nonexistent/intavia",
            TabGroupAssignment::InGroup(gid("g-intavia")),
        ),
        ("/nonexistent/intavia/scratch", TabGroupAssignment::Excluded),
    ]);

    // A path inside the excluded child resolves to ungrouped.
    assert_eq!(a.group_for_directory("/nonexistent/intavia/scratch"), None);
    assert_eq!(
        a.group_for_directory("/nonexistent/intavia/scratch/sub"),
        None
    );

    // A sibling inside the parent (not under the excluded child) still gets the
    // broader InGroup.
    assert_eq!(
        a.group_for_directory("/nonexistent/intavia/crates/app"),
        Some(gid("g-intavia"))
    );
}

#[test]
fn group_for_directory_longer_in_group_overrides_shorter() {
    let a = assignments(&[
        (
            "/nonexistent/projects",
            TabGroupAssignment::InGroup(gid("g-all")),
        ),
        (
            "/nonexistent/projects/intavia",
            TabGroupAssignment::InGroup(gid("g-intavia")),
        ),
    ]);
    assert_eq!(
        a.group_for_directory("/nonexistent/projects/intavia/cli"),
        Some(gid("g-intavia"))
    );
    assert_eq!(
        a.group_for_directory("/nonexistent/projects/nova"),
        Some(gid("g-all"))
    );
}

#[test]
fn group_for_directory_equal_length_tiebreak_is_deterministic() {
    let a = assignments(&[
        ("/nonexistent/aaa", TabGroupAssignment::InGroup(gid("g-a"))),
        ("/nonexistent/aab", TabGroupAssignment::InGroup(gid("g-b"))),
    ]);

    let r1 = a.group_for_directory("/nonexistent/aaa/sub");
    let r2 = a.group_for_directory("/nonexistent/aaa/sub");
    assert_eq!(r1, r2);
    assert_eq!(r1, Some(gid("g-a")));
}

#[test]
fn with_assignment_inserts_canonicalized_key() {
    let a = TabGroupAssignments::default();
    let updated = a.with_assignment(
        "/nonexistent/intavia",
        TabGroupAssignment::InGroup(gid("g-intavia")),
    );
    assert_eq!(
        updated.group_for_directory("/nonexistent/intavia"),
        Some(gid("g-intavia"))
    );
}

#[test]
fn tab_groups_uses_synced_toml_path() {
    assert_eq!(TabGroups::toml_path(), Some("appearance.tabs.tab_groups"));
}

#[test]
fn tab_group_assignments_uses_local_only_toml_path() {
    assert_eq!(
        TabGroupAssignments::toml_path(),
        Some("appearance.tabs.tab_group_assignments")
    );
}

#[test]
fn tab_groups_with_collapsed_updates_only_matching_id() {
    let g1 = TabGroup {
        id: gid("g1"),
        name: "Intavia".into(),
        color: None,
        collapsed: false,
    };
    let g2 = TabGroup {
        id: gid("g2"),
        name: "Nova".into(),
        color: None,
        collapsed: false,
    };
    let groups = TabGroups(vec![g1.clone(), g2.clone()]);

    let updated = groups.with_collapsed(&gid("g1"), true);
    assert!(updated.get(&gid("g1")).unwrap().collapsed);
    assert!(!updated.get(&gid("g2")).unwrap().collapsed);

    // Unknown id is a no-op.
    let unchanged = groups.with_collapsed(&gid("missing"), true);
    assert_eq!(unchanged, groups);
}

#[test]
fn use_latest_user_prompt_as_conversation_title_in_tab_names_uses_vertical_tabs_path() {
    assert_eq!(
        UseLatestUserPromptAsConversationTitleInTabNames::toml_path(),
        Some("appearance.vertical_tabs.use_latest_prompt_as_title")
    );
    assert_eq!(
        UseLatestUserPromptAsConversationTitleInTabNames::hierarchy(),
        Some("appearance.vertical_tabs")
    );
    assert_eq!(
        UseLatestUserPromptAsConversationTitleInTabNames::toml_key(),
        "use_latest_prompt_as_title"
    );
}

#[test]
fn show_vertical_tab_panel_in_restored_windows_uses_vertical_tabs_path() {
    assert_eq!(
        ShowVerticalTabPanelInRestoredWindows::toml_path(),
        Some("appearance.vertical_tabs.show_panel_in_restored_windows")
    );
    assert_eq!(
        ShowVerticalTabPanelInRestoredWindows::hierarchy(),
        Some("appearance.vertical_tabs")
    );
    assert_eq!(
        ShowVerticalTabPanelInRestoredWindows::toml_key(),
        "show_panel_in_restored_windows"
    );
}

// Only whole path components match: a sibling whose name merely starts
// with the assigned name is not covered.
#[test]
fn group_for_directory_matches_whole_components_only() {
    let a = assignments(&[("/p/app", TabGroupAssignment::InGroup(gid("g")))]);
    assert_eq!(a.group_for_directory("/p/apple"), None);
    assert_eq!(a.group_for_directory("/p/app"), Some(gid("g")));
    assert_eq!(a.group_for_directory("/p/app/src"), Some(gid("g")));
    assert_eq!(a.group_for_directory("/p"), None);
}

#[test]
fn group_for_directory_root_and_trailing_separator_keys() {
    let a = assignments(&[
        ("/", TabGroupAssignment::InGroup(gid("root"))),
        ("/home/", TabGroupAssignment::InGroup(gid("home"))),
    ]);
    assert_eq!(a.group_for_directory("/etc"), Some(gid("root")));
    assert_eq!(a.group_for_directory("/home/me"), Some(gid("home")));
    assert_eq!(a.group_for_directory("relative/dir"), None);
    // Matching is on strings: the key `/home/` does not cover `/home`.
    assert_eq!(a.group_for_directory("/home"), Some(gid("root")));
}

// Later entries with the same key count, as in a map built from them.
#[test]
fn group_for_directory_repeated_key_uses_last_entry() {
    let a = assignments(&[
        ("/w", TabGroupAssignment::InGroup(gid("first"))),
        ("/w", TabGroupAssignment::InGroup(gid("second"))),
    ]);
    assert_eq!(a.group_for_directory("/w/x"), Some(gid("second")));
}

// Reading a directory right after assigning it gives that assignment, even
// under a broader assignment and over an earlier one.
#[test]
fn with_assignment_replaces_and_then_resolves_to_it() {
    let a = assignments(&[
        ("/p", TabGroupAssignment::InGroup(gid("outer"))),
        ("/p/q", TabGroupAssignment::InGroup(gid("inner"))),
    ]);
    let b = a.with_assignment("/p/q", TabGroupAssignment::Excluded);
    assert_eq!(b.group_for_directory("/p/q"), None);
    assert_eq!(b.group_for_directory("/p/q/r"), None);
    assert_eq!(b.group_for_directory("/p/z"), Some(gid("outer")));
    assert_eq!(b.0.len(), 2);
    // The receiver is left as it was.
    assert_eq!(a.group_for_directory("/p/q/r"), Some(gid("inner")));
}

#[test]
fn tab_groups_lookup_by_id() {
    let groups = TabGroups(vec![
        TabGroup {
            id: gid("x"),
            name: "first".into(),
            color: Some("red".into()),
            collapsed: false,
        },
        TabGroup {
            id: gid("x"),
            name: "second".into(),
            color: None,
            collapsed: true,
        },
    ]);
    assert!(groups.contains(&gid("x")));
    assert!(!groups.contains(&gid("y")));
    assert_eq!(groups.get(&gid("x")).unwrap().name, "first");
    assert!(groups.get(&gid("y")).is_none());
    // Every group with the id is updated.
    let all = groups.with_collapsed(&gid("x"), true);
    assert!(all.0.iter().all(|g| g.collapsed));
    assert_eq!(all.0[0].color, Some("red".to_string()));
}

#[test]
fn group_for_directory_handles_non_ascii_paths() {
    let a = assignments(&[("/home/åsa", TabGroupAssignment::InGroup(gid("å")))]);
    assert_eq!(a.group_for_directory("/home/åsa/projekt"), Some(gid("å")));
    assert_eq!(a.group_for_directory("/home/åsaö"), None);
}

// The new entry goes last; the other entries keep their order.
#[test]
fn with_assignment_keeps_other_entries_in_order() {
    let a = assignments(&[
        ("/x", TabGroupAssignment::Excluded),
        ("/y", TabGroupAssignment::InGroup(gid("y"))),
        ("/z", TabGroupAssignment::Excluded),
    ]);
    let b = a.with_assignment("/y", TabGroupAssignment::InGroup(gid("y2")));
    assert_eq!(
        b.0,
        assignments(&[
            ("/x", TabGroupAssignment::Excluded),
            ("/z", TabGroupAssignment::Excluded),
            ("/y", TabGroupAssignment::InGroup(gid("y2"))),
        ])
        .0
    );
}

// Equality compares where directories send their tabs, not entry order or
// shadowed entries.
#[test]
fn assignment_tables_compare_by_destinations() {
    let a = assignments(&[
        ("/x", TabGroupAssignment::Excluded),
        ("/y", TabGroupAssignment::InGroup(gid("g"))),
    ]);
    let reordered = assignments(&[
        ("/y", TabGroupAssignment::InGroup(gid("g"))),
        ("/x", TabGroupAssignment::Excluded),
    ]);
    let shadowed = assignments(&[
        ("/y", TabGroupAssignment::Excluded),
        ("/x", TabGroupAssignment::Excluded),
        ("/y", TabGroupAssignment::InGroup(gid("g"))),
    ]);
    assert_eq!(a, reordered);
    assert_eq!(a, shadowed);
    assert_ne!(a, assignments(&[("/x", TabGroupAssignment::Excluded)]));
    assert_ne!(
        a,
        assignments(&[
            ("/x", TabGroupAssignment::Excluded),
            ("/y", TabGroupAssignment::InGroup(gid("h"))),
        ])
    );
    assert_ne!(
        a,
        assignments(&[
            ("/x", TabGroupAssignment::Excluded),
            ("/y", TabGroupAssignment::Excluded),
        ])
    );
}
