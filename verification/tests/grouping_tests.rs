use std::collections::HashMap;
use std::path::PathBuf;

use tab_groups::grouping::{
    partition_resolved_tabs, partition_visible_tabs, partition_visible_tabs_by_index,
    GroupedTabListItem, GroupedTabs, PaneId, VisibleTab,
};
use tab_groups::tab_settings::{
    TabGroup, TabGroupAssignment, TabGroupAssignments, TabGroupId, TabGroups,
};

/// Partitions through the by-index entry point, resolving each tab by a
/// per-tab override first and by its directory's assignment otherwise.
fn partition_for_test(
    visible_tabs: Vec<VisibleTab>,
    tab_groups: &TabGroups,
    assignments: &TabGroupAssignments,
    index_to_dir: &HashMap<usize, PathBuf>,
    index_to_override: &HashMap<usize, TabGroupId>,
) -> GroupedTabs {
    partition_visible_tabs_by_index(visible_tabs, tab_groups, |tab_index| {
        index_to_override.get(&tab_index).cloned().or_else(|| {
            index_to_dir
                .get(&tab_index)
                .and_then(|d| d.to_str())
                .and_then(|d| assignments.group_for_directory(d))
        })
    })
}

fn gid(s: &str) -> TabGroupId {
    TabGroupId(s.to_string())
}

fn group(id: &str, name: &str) -> TabGroup {
    TabGroup {
        id: gid(id),
        name: name.into(),
        color: None,
        collapsed: false,
    }
}

fn assignments(entries: &[(&str, TabGroupAssignment)]) -> TabGroupAssignments {
    TabGroupAssignments(
        entries
            .iter()
            .map(|(p, a)| ((*p).to_string(), a.clone()))
            .collect(),
    )
}

fn dirs(entries: &[(usize, &str)]) -> HashMap<usize, PathBuf> {
    entries
        .iter()
        .map(|(i, p)| (*i, PathBuf::from(*p)))
        .collect()
}

#[test]
fn empty_visible_tabs_yields_empty_partition() {
    let g = partition_for_test(
        vec![],
        &TabGroups::default(),
        &TabGroupAssignments::default(),
        &HashMap::new(),
        &HashMap::new(),
    );
    assert!(g.ungrouped.is_empty());
    assert!(g.groups.is_empty());
}

#[test]
fn no_groups_means_everything_ungrouped() {
    let groups = TabGroups::default();
    let assigns = TabGroupAssignments::default();
    let dirs = dirs(&[(0, "/x/a"), (1, "/x/b")]);
    let g = partition_for_test(
        vec![(0, None), (1, None)],
        &groups,
        &assigns,
        &dirs,
        &HashMap::new(),
    );
    assert_eq!(g.ungrouped, vec![(0, None), (1, None)]);
    assert!(g.groups.is_empty());
}

#[test]
fn tabs_partition_into_groups_in_tab_groups_order() {
    let groups = TabGroups(vec![group("intavia", "Intavia"), group("nova", "Nova")]);
    let assigns = assignments(&[
        (
            "/projects/intavia",
            TabGroupAssignment::InGroup(gid("intavia")),
        ),
        ("/projects/nova", TabGroupAssignment::InGroup(gid("nova"))),
    ]);
    let dirs = dirs(&[
        (0, "/projects/intavia/crates/app"),
        (1, "/projects/nova"),
        (2, "/projects/intavia/crates/cli"),
        (3, "/scratch"),
    ]);

    let g = partition_for_test(
        vec![(0, None), (1, None), (2, None), (3, None)],
        &groups,
        &assigns,
        &dirs,
        &HashMap::new(),
    );

    // Ungrouped preserves model order.
    assert_eq!(g.ungrouped, vec![(3, None)]);

    // Groups appear in TabGroups order, not insertion order from
    // assignments. Tabs within a group preserve their visible_tabs order.
    assert_eq!(
        g.groups,
        vec![
            (gid("intavia"), vec![(0, None), (2, None)]),
            (gid("nova"), vec![(1, None)]),
        ]
    );
    assert_eq!(
        g.items,
        vec![
            GroupedTabListItem::Group {
                id: gid("intavia"),
                tabs: vec![(0, None), (2, None)],
            },
            GroupedTabListItem::Group {
                id: gid("nova"),
                tabs: vec![(1, None)],
            },
            GroupedTabListItem::Ungrouped((3, None)),
        ]
    );
}

#[test]
fn top_level_items_interleave_ungrouped_tabs_and_group_sections() {
    let groups = TabGroups(vec![group("intavia", "Intavia"), group("nova", "Nova")]);
    let assigns = assignments(&[
        (
            "/projects/intavia",
            TabGroupAssignment::InGroup(gid("intavia")),
        ),
        ("/projects/nova", TabGroupAssignment::InGroup(gid("nova"))),
    ]);
    let dirs = dirs(&[
        (0, "/scratch/one"),
        (1, "/projects/intavia/crates/app"),
        (2, "/scratch/two"),
        (3, "/projects/intavia/crates/cli"),
        (4, "/projects/nova"),
    ]);

    let g = partition_for_test(
        vec![(0, None), (1, None), (2, None), (3, None), (4, None)],
        &groups,
        &assigns,
        &dirs,
        &HashMap::new(),
    );

    assert_eq!(
        g.items,
        vec![
            GroupedTabListItem::Ungrouped((0, None)),
            GroupedTabListItem::Group {
                id: gid("intavia"),
                tabs: vec![(1, None), (3, None)],
            },
            GroupedTabListItem::Ungrouped((2, None)),
            GroupedTabListItem::Group {
                id: gid("nova"),
                tabs: vec![(4, None)],
            },
        ]
    );
}

#[test]
fn empty_groups_remain_visible_in_output() {
    // Empty groups stay so the user can see freshly-created groups that
    // have no auto-assignment yet.
    let groups = TabGroups(vec![group("intavia", "Intavia"), group("nova", "Nova")]);
    let assigns = assignments(&[(
        "/projects/intavia",
        TabGroupAssignment::InGroup(gid("intavia")),
    )]);
    let dirs = dirs(&[(0, "/projects/intavia")]);

    let g = partition_for_test(vec![(0, None)], &groups, &assigns, &dirs, &HashMap::new());

    // Both groups appear, in TabGroups order. Nova is empty.
    assert_eq!(g.groups.len(), 2);
    assert_eq!(g.groups[0].0, gid("intavia"));
    assert_eq!(g.groups[0].1, vec![(0, None)]);
    assert_eq!(g.groups[1].0, gid("nova"));
    assert!(g.groups[1].1.is_empty());
}

#[test]
fn unknown_group_ids_in_assignments_fall_back_to_ungrouped() {
    // A stale assignment pointing at a group that no longer exists lands the
    // tab in the ungrouped bucket; the known but empty group still appears.
    let groups = TabGroups(vec![group("intavia", "Intavia")]);
    let assigns = assignments(&[(
        "/projects/deleted",
        TabGroupAssignment::InGroup(gid("nonexistent")),
    )]);
    let dirs = dirs(&[(0, "/projects/deleted")]);

    let g = partition_for_test(vec![(0, None)], &groups, &assigns, &dirs, &HashMap::new());
    assert_eq!(g.ungrouped, vec![(0, None)]);
    assert_eq!(g.groups.len(), 1);
    assert_eq!(g.groups[0].0, gid("intavia"));
    assert!(g.groups[0].1.is_empty());
}

#[test]
fn search_payload_round_trips_through_partition() {
    // The search-filter payload must survive the partition.
    let groups = TabGroups(vec![group("intavia", "Intavia")]);
    let assigns = assignments(&[(
        "/projects/intavia",
        TabGroupAssignment::InGroup(gid("intavia")),
    )]);
    let dirs = dirs(&[(0, "/projects/intavia"), (1, "/scratch")]);

    let pane_filter = Some(vec![PaneId(1)]);
    let g = partition_for_test(
        vec![(0, pane_filter.clone()), (1, None)],
        &groups,
        &assigns,
        &dirs,
        &HashMap::new(),
    );

    assert_eq!(g.groups[0].1, vec![(0, pane_filter)]);
    assert_eq!(g.ungrouped, vec![(1, None)]);
}

#[test]
fn collapse_flag_does_not_affect_partition() {
    // Collapse is a render concern; partitioning ignores it.
    let mut g_intavia = group("intavia", "Intavia");
    g_intavia.collapsed = true;
    let groups = TabGroups(vec![g_intavia]);
    let assigns = assignments(&[(
        "/projects/intavia",
        TabGroupAssignment::InGroup(gid("intavia")),
    )]);
    let dirs = dirs(&[(0, "/projects/intavia/crates/app")]);

    let g = partition_for_test(vec![(0, None)], &groups, &assigns, &dirs, &HashMap::new());
    assert_eq!(g.groups.len(), 1);
    assert_eq!(g.groups[0].1, vec![(0, None)]);
}

#[test]
fn excluded_child_directory_lands_ungrouped_even_with_parent_in_group() {
    let groups = TabGroups(vec![group("intavia", "Intavia")]);
    let assigns = assignments(&[
        (
            "/projects/intavia",
            TabGroupAssignment::InGroup(gid("intavia")),
        ),
        ("/projects/intavia/scratch", TabGroupAssignment::Excluded),
    ]);
    let dirs = dirs(&[
        (0, "/projects/intavia/crates/app"),
        (1, "/projects/intavia/scratch/foo"),
    ]);

    let g = partition_for_test(
        vec![(0, None), (1, None)],
        &groups,
        &assigns,
        &dirs,
        &HashMap::new(),
    );

    assert_eq!(g.ungrouped, vec![(1, None)]);
    assert_eq!(g.groups[0].1, vec![(0, None)]);
}

#[test]
fn per_tab_override_wins_over_directory_assignment() {
    let groups = TabGroups(vec![group("intavia", "Intavia"), group("nova", "Nova")]);
    let assigns = assignments(&[(
        "/projects/intavia",
        TabGroupAssignment::InGroup(gid("intavia")),
    )]);
    let dirs = dirs(&[(0, "/projects/intavia"), (1, "/projects/intavia")]);
    let overrides = HashMap::from([(1, gid("nova"))]);

    let g = partition_for_test(
        vec![(0, None), (1, None)],
        &groups,
        &assigns,
        &dirs,
        &overrides,
    );

    assert_eq!(g.groups[0].1, vec![(0, None)]);
    assert_eq!(g.groups[1].1, vec![(1, None)]);
}

// The workspace-tab entry point: tabs whose index is not a workspace tab are
// dropped, and the resolver sees the workspace entry.
#[test]
fn workspace_entry_point_drops_tabs_without_a_workspace_entry() {
    let groups = TabGroups(vec![group("a", "A")]);
    let workspace_tabs = vec!["in-a", "loose"];
    let g = partition_visible_tabs(
        vec![(0, None), (5, None), (1, Some(vec![PaneId(3)]))],
        &workspace_tabs,
        &groups,
        |tab: &&str| {
            if *tab == "in-a" {
                Some(gid("a"))
            } else {
                None
            }
        },
    );
    assert_eq!(g.ungrouped, vec![(1, Some(vec![PaneId(3)]))]);
    assert_eq!(g.groups, vec![(gid("a"), vec![(0, None)])]);
    assert_eq!(
        g.items,
        vec![
            GroupedTabListItem::Group {
                id: gid("a"),
                tabs: vec![(0, None)],
            },
            GroupedTabListItem::Ungrouped((1, Some(vec![PaneId(3)]))),
        ]
    );
}

#[test]
fn workspace_entry_point_with_no_workspace_tabs_keeps_only_empty_groups() {
    let groups = TabGroups(vec![group("a", "A")]);
    let workspace_tabs: Vec<u32> = vec![];
    let g = partition_visible_tabs(vec![(0, None)], &workspace_tabs, &groups, |_t: &u32| None);
    assert!(g.ungrouped.is_empty());
    assert_eq!(g.groups, vec![(gid("a"), vec![])]);
    assert_eq!(
        g.items,
        vec![GroupedTabListItem::Group {
            id: gid("a"),
            tabs: vec![],
        }]
    );
}

// A group section stands at its first tab and gathers the later ones; each
// group id gets exactly one section, and the ungrouped items are the
// ungrouped tabs in order.
#[test]
fn each_group_gets_one_section_at_its_first_tab() {
    let groups = TabGroups(vec![group("a", "A"), group("b", "B"), group("c", "C")]);
    let entries = vec![
        ((0, None), Some(gid("b"))),
        ((1, None), None),
        ((2, None), Some(gid("a"))),
        ((3, None), Some(gid("b"))),
        ((4, None), Some(gid("zzz"))),
        ((5, None), Some(gid("a"))),
    ];
    let g = partition_resolved_tabs(entries, &groups);
    assert_eq!(g.ungrouped, vec![(1, None), (4, None)]);
    assert_eq!(
        g.groups,
        vec![
            (gid("a"), vec![(2, None), (5, None)]),
            (gid("b"), vec![(0, None), (3, None)]),
            (gid("c"), vec![]),
        ]
    );
    // Every tab is shown exactly once by the items.
    let mut shown: Vec<usize> = g
        .items
        .iter()
        .flat_map(|item| match item {
            GroupedTabListItem::Ungrouped(t) => vec![t.0],
            GroupedTabListItem::Group { tabs, .. } => tabs.iter().map(|t| t.0).collect(),
        })
        .collect();
    shown.sort();
    assert_eq!(shown, vec![0, 1, 2, 3, 4, 5]);
    assert_eq!(
        g.items,
        vec![
            GroupedTabListItem::Group {
                id: gid("b"),
                tabs: vec![(0, None), (3, None)],
            },
            GroupedTabListItem::Ungrouped((1, None)),
            GroupedTabListItem::Group {
                id: gid("a"),
                tabs: vec![(2, None), (5, None)],
            },
            GroupedTabListItem::Ungrouped((4, None)),
            GroupedTabListItem::Group {
                id: gid("c"),
                tabs: vec![],
            },
        ]
    );
}

// A group id listed twice gets a bucket per listing but a single section.
#[test]
fn repeated_group_id_gets_one_section() {
    let groups = TabGroups(vec![group("a", "A"), group("a", "A again"), group("e", "E")]);
    let entries = vec![((7, None), Some(gid("a")))];
    let g = partition_resolved_tabs(entries, &groups);
    assert_eq!(
        g.groups,
        vec![
            (gid("a"), vec![(7, None)]),
            (gid("a"), vec![(7, None)]),
            (gid("e"), vec![]),
        ]
    );
    assert_eq!(
        g.items,
        vec![
            GroupedTabListItem::Group {
                id: gid("a"),
                tabs: vec![(7, None)],
            },
            GroupedTabListItem::Group {
                id: gid("e"),
                tabs: vec![],
            },
        ]
    );
}

// The same tab list against groups that differ only in their collapse flags
// partitions the same way.
#[test]
fn collapsing_a_group_leaves_the_partition_unchanged() {
    let groups = TabGroups(vec![group("a", "A"), group("b", "B")]);
    let collapsed = groups.with_collapsed(&gid("b"), true);
    let entries = || {
        vec![
            ((0, None), Some(gid("b"))),
            ((1, None), None),
            ((2, None), Some(gid("a"))),
        ]
    };
    assert_eq!(
        partition_resolved_tabs(entries(), &groups),
        partition_resolved_tabs(entries(), &collapsed)
    );
}

#[test]
fn cloned_partition_equals_its_source() {
    let groups = TabGroups(vec![group("a", "A"), group("b", "B")]);
    let entries = vec![
        ((0, Some(vec![PaneId(9), PaneId(4)])), Some(gid("a"))),
        ((1, None), None),
    ];
    let g = partition_resolved_tabs(entries, &groups);
    let copy = g.clone();
    assert_eq!(copy, g);
    assert_eq!(copy.items[0].clone(), g.items[0]);
}

// With distinct group ids the items are the ungrouped tabs plus one section
// per group, and the sections without tabs close the list in group order.
#[test]
fn empty_sections_close_the_items_in_group_order() {
    let groups = TabGroups(vec![
        group("c", "C"),
        group("a", "A"),
        group("d", "D"),
        group("b", "B"),
    ]);
    let entries = vec![
        ((0, None), None),
        ((1, None), Some(gid("a"))),
        ((2, None), None),
        ((3, None), Some(gid("a"))),
    ];
    let g = partition_resolved_tabs(entries, &groups);
    assert_eq!(g.items.len(), g.ungrouped.len() + g.groups.len());
    assert_eq!(
        g.items,
        vec![
            GroupedTabListItem::Ungrouped((0, None)),
            GroupedTabListItem::Group {
                id: gid("a"),
                tabs: vec![(1, None), (3, None)],
            },
            GroupedTabListItem::Ungrouped((2, None)),
            GroupedTabListItem::Group {
                id: gid("c"),
                tabs: vec![],
            },
            GroupedTabListItem::Group {
                id: gid("d"),
                tabs: vec![],
            },
            GroupedTabListItem::Group {
                id: gid("b"),
                tabs: vec![],
            },
        ]
    );
}

// The workspace entry point gives what the by-index entry point gives for
// the tabs that have a workspace entry, with the resolver composed.
#[test]
fn workspace_entry_point_matches_index_entry_point() {
    let groups = TabGroups(vec![group("a", "A"), group("b", "B")]);
    let workspace_tabs = vec!["b", "a", "none", "a"];
    let resolve = |tab: &&str| match *tab {
        "a" => Some(gid("a")),
        "b" => Some(gid("b")),
        _ => None,
    };
    let visible: Vec<VisibleTab> = vec![(3, None), (9, None), (0, Some(vec![PaneId(2)])), (2, None), (1, None)];
    let direct = partition_visible_tabs(visible.clone(), &workspace_tabs, &groups, resolve);
    let kept: Vec<VisibleTab> = visible
        .into_iter()
        .filter(|(i, _)| *i < workspace_tabs.len())
        .collect();
    let by_index =
        partition_visible_tabs_by_index(kept, &groups, |i| resolve(&workspace_tabs[i]));
    assert_eq!(direct, by_index);
    assert_eq!(direct.ungrouped, vec![(2, None)]);
}
