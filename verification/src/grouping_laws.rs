//! Properties of the partition of visible tabs that hold for every input.
use vstd::multiset::Multiset;
use vstd::prelude::*;

use crate::grouping::{
    effective_group, effective_groups, empty_section_items, entry_groups, entry_tabs, group_tabs,
    is_partition_of, lemma_is_partition_weaken, lemma_tabs_in_range_members, partition_model,
    resolution_views, section_items, seen_before, tabs_in_range, ungrouped_tabs, GroupedItemView,
    GroupedTabListItem, GroupedTabs, GroupedTabsView, TabView,
};
use crate::tab_settings::{collapsed_groups, group_ids, TabGroup, TabGroupId};

verus! {

/// The tabs of the `Ungrouped` items, in order.
pub open spec fn ungrouped_of_items(items: Seq<GroupedItemView>) -> Seq<TabView>
    decreases items.len(),
{
    if items.len() == 0 {
        Seq::empty()
    } else {
        let rest = ungrouped_of_items(items.drop_last());
        match items.last() {
            GroupedItemView::Ungrouped(t) => rest.push(t),
            GroupedItemView::Group { .. } => rest,
        }
    }
}

/// The number of group sections for `id` among the items.
pub open spec fn section_count(items: Seq<GroupedItemView>, id: Seq<char>) -> nat
    decreases items.len(),
{
    if items.len() == 0 {
        0
    } else {
        let rest = section_count(items.drop_last(), id);
        match items.last() {
            GroupedItemView::Group { id: g, .. } => if g == id {
                rest + 1
            } else {
                rest
            },
            GroupedItemView::Ungrouped(_) => rest,
        }
    }
}

proof fn lemma_ungrouped_of_push(items: Seq<GroupedItemView>, x: GroupedItemView)
    ensures
        ungrouped_of_items(items.push(x)) == match x {
            GroupedItemView::Ungrouped(t) => ungrouped_of_items(items).push(t),
            GroupedItemView::Group { .. } => ungrouped_of_items(items),
        },
{
    assert(items.push(x).drop_last() =~= items);
}

proof fn lemma_section_count_push(items: Seq<GroupedItemView>, x: GroupedItemView, id: Seq<char>)
    ensures
        section_count(items.push(x), id) == match x {
            GroupedItemView::Group { id: g, .. } => if g == id {
                section_count(items, id) + 1
            } else {
                section_count(items, id)
            },
            GroupedItemView::Ungrouped(_) => section_count(items, id),
        },
{
    assert(items.push(x).drop_last() =~= items);
}

proof fn lemma_ungrouped_of_append(a: Seq<GroupedItemView>, b: Seq<GroupedItemView>)
    ensures
        ungrouped_of_items(a + b) == ungrouped_of_items(a) + ungrouped_of_items(b),
    decreases b.len(),
{
    if b.len() == 0 {
        assert(a + b =~= a);
        assert(ungrouped_of_items(a) + ungrouped_of_items(b) =~= ungrouped_of_items(a));
    } else {
        let bl = b.drop_last();
        lemma_ungrouped_of_append(a, bl);
        assert(a + b =~= (a + bl).push(b.last()));
        assert(b =~= bl.push(b.last()));
        lemma_ungrouped_of_push(a + bl, b.last());
        lemma_ungrouped_of_push(bl, b.last());
        match b.last() {
            GroupedItemView::Ungrouped(t) => {
                assert(ungrouped_of_items(a) + ungrouped_of_items(bl).push(t) =~= (
                ungrouped_of_items(a) + ungrouped_of_items(bl)).push(t));
            },
            GroupedItemView::Group { .. } => {},
        }
    }
}

proof fn lemma_section_count_append(a: Seq<GroupedItemView>, b: Seq<GroupedItemView>, id: Seq<char>)
    ensures
        section_count(a + b, id) == section_count(a, id) + section_count(b, id),
    decreases b.len(),
{
    if b.len() == 0 {
        assert(a + b =~= a);
    } else {
        let bl = b.drop_last();
        lemma_section_count_append(a, bl, id);
        assert(a + b =~= (a + bl).push(b.last()));
        assert(b =~= bl.push(b.last()));
        lemma_section_count_push(a + bl, b.last(), id);
        lemma_section_count_push(bl, b.last(), id);
    }
}

proof fn lemma_sections_ungrouped(tabs: Seq<TabView>, eff: Seq<Option<Seq<char>>>, n: int)
    requires
        0 <= n,
    ensures
        ungrouped_of_items(section_items(tabs, eff, n)) == ungrouped_tabs(tabs, eff, n),
    decreases n,
{
    if n > 0 {
        lemma_sections_ungrouped(tabs, eff, n - 1);
        let rest = section_items(tabs, eff, n - 1);
        match eff[n - 1] {
            None => lemma_ungrouped_of_push(rest, GroupedItemView::Ungrouped(tabs[n - 1])),
            Some(id) => if !seen_before(eff, id, n - 1) {
                lemma_ungrouped_of_push(
                    rest,
                    GroupedItemView::Group { id: id, tabs: group_tabs(tabs, eff, id, tabs.len() as int) },
                );
            },
        }
    }
}

proof fn lemma_empty_sections_ungrouped(ids: Seq<Seq<char>>, eff: Seq<Option<Seq<char>>>, m: int)
    requires
        0 <= m,
    ensures
        ungrouped_of_items(empty_section_items(ids, eff, m)) == Seq::<TabView>::empty(),
    decreases m,
{
    if m > 0 {
        lemma_empty_sections_ungrouped(ids, eff, m - 1);
        let rest = empty_section_items(ids, eff, m - 1);
        lemma_ungrouped_of_push(rest, GroupedItemView::Group { id: ids[m - 1], tabs: Seq::empty() });
    }
}

proof fn lemma_sections_count(tabs: Seq<TabView>, eff: Seq<Option<Seq<char>>>, n: int, id: Seq<char>)
    requires
        0 <= n <= eff.len(),
    ensures
        section_count(section_items(tabs, eff, n), id) == if seen_before(eff, id, n) {
            1nat
        } else {
            0nat
        },
    decreases n,
{
    if n > 0 {
        lemma_sections_count(tabs, eff, n - 1, id);
        let rest = section_items(tabs, eff, n - 1);
        if eff[n - 1] == Some(id) {
            assert(seen_before(eff, id, n));
        } else {
            assert(seen_before(eff, id, n) == seen_before(eff, id, n - 1)) by {
                if seen_before(eff, id, n) {
                    let j = choose|j: int| 0 <= j < n && eff[j] == Some(id);
                    assert(j < n - 1);
                }
            }
        }
        match eff[n - 1] {
            None => lemma_section_count_push(rest, GroupedItemView::Ungrouped(tabs[n - 1]), id),
            Some(g) => if !seen_before(eff, g, n - 1) {
                lemma_section_count_push(
                    rest,
                    GroupedItemView::Group { id: g, tabs: group_tabs(tabs, eff, g, tabs.len() as int) },
                    id,
                );
            },
        }
    }
}

proof fn lemma_empty_sections_count(
    ids: Seq<Seq<char>>,
    eff: Seq<Option<Seq<char>>>,
    m: int,
    id: Seq<char>,
)
    requires
        0 <= m <= ids.len(),
    ensures
        section_count(empty_section_items(ids, eff, m), id) == if !seen_before(
            eff,
            id,
            eff.len() as int,
        ) && exists|j: int| 0 <= j < m && ids[j] == id {
            1nat
        } else {
            0nat
        },
    decreases m,
{
    if m > 0 {
        lemma_empty_sections_count(ids, eff, m - 1, id);
        let rest = empty_section_items(ids, eff, m - 1);
        let g = ids[m - 1];
        lemma_section_count_push(rest, GroupedItemView::Group { id: g, tabs: Seq::empty() }, id);
        if g == id {
            assert(exists|j: int| 0 <= j < m && ids[j] == id) by {
                assert(ids[m - 1] == id);
            }
        } else {
            assert((exists|j: int| 0 <= j < m && ids[j] == id) == (exists|j: int|
                0 <= j < m - 1 && ids[j] == id)) by {
                if exists|j: int| 0 <= j < m && ids[j] == id {
                    let j = choose|j: int| 0 <= j < m && ids[j] == id;
                    assert(j < m - 1);
                }
            }
        }
    }
}

proof fn lemma_group_tabs_empty(tabs: Seq<TabView>, eff: Seq<Option<Seq<char>>>, id: Seq<char>, n: int)
    requires
        0 <= n <= eff.len(),
        !seen_before(eff, id, n),
    ensures
        group_tabs(tabs, eff, id, n) == Seq::<TabView>::empty(),
    decreases n,
{
    if n > 0 {
        assert(eff[n - 1] != Some(id));
        assert(!seen_before(eff, id, n - 1)) by {
            if seen_before(eff, id, n - 1) {
                let j = choose|j: int| 0 <= j < n - 1 && eff[j] == Some(id);
                assert(0 <= j < n && eff[j] == Some(id));
            }
        }
        lemma_group_tabs_empty(tabs, eff, id, n - 1);
    }
}

/// Every item of `section_items` that is a section carries the whole bucket
/// of its group, and its group is one that some tab is in.
proof fn lemma_sections_carry_buckets(tabs: Seq<TabView>, eff: Seq<Option<Seq<char>>>, n: int)
    requires
        0 <= n <= eff.len(),
    ensures
        forall|i: int|
            0 <= i < section_items(tabs, eff, n).len() ==> match #[trigger] section_items(
                tabs,
                eff,
                n,
            )[i] {
                GroupedItemView::Group { id, tabs: t } => t == group_tabs(
                    tabs,
                    eff,
                    id,
                    tabs.len() as int,
                ) && seen_before(eff, id, n),
                GroupedItemView::Ungrouped(_) => true,
            },
    decreases n,
{
    if n > 0 {
        lemma_sections_carry_buckets(tabs, eff, n - 1);
        let rest = section_items(tabs, eff, n - 1);
        let cur = section_items(tabs, eff, n);
        assert forall|i: int| 0 <= i < cur.len() implies match #[trigger] cur[i] {
            GroupedItemView::Group { id, tabs: t } => t == group_tabs(
                tabs,
                eff,
                id,
                tabs.len() as int,
            ) && seen_before(eff, id, n),
            GroupedItemView::Ungrouped(_) => true,
        } by {
            if i < rest.len() {
                assert(cur[i] == rest[i]);
                match rest[i] {
                    GroupedItemView::Group { id, tabs: t } => {
                        let j = choose|j: int| 0 <= j < n - 1 && eff[j] == Some(id);
                        assert(0 <= j < n && eff[j] == Some(id));
                    },
                    GroupedItemView::Ungrouped(_) => {},
                }
            } else {
                match eff[n - 1] {
                    Some(g) => {
                        assert(eff[n - 1] == Some(g));
                    },
                    None => {},
                }
            }
        }
    }
}

proof fn lemma_empty_sections_are_empty(ids: Seq<Seq<char>>, eff: Seq<Option<Seq<char>>>, m: int)
    requires
        0 <= m <= ids.len(),
    ensures
        forall|i: int|
            0 <= i < empty_section_items(ids, eff, m).len() ==> match #[trigger] empty_section_items(
                ids,
                eff,
                m,
            )[i] {
                GroupedItemView::Group { id, tabs: t } => t == Seq::<TabView>::empty()
                    && !seen_before(eff, id, eff.len() as int) && ids.contains(id),
                GroupedItemView::Ungrouped(_) => false,
            },
    decreases m,
{
    if m > 0 {
        lemma_empty_sections_are_empty(ids, eff, m - 1);
        let rest = empty_section_items(ids, eff, m - 1);
        let cur = empty_section_items(ids, eff, m);
        assert forall|i: int| 0 <= i < cur.len() implies match #[trigger] cur[i] {
            GroupedItemView::Group { id, tabs: t } => t == Seq::<TabView>::empty() && !seen_before(
                eff,
                id,
                eff.len() as int,
            ) && ids.contains(id),
            GroupedItemView::Ungrouped(_) => false,
        } by {
            if i < rest.len() {
                assert(cur[i] == rest[i]);
            } else {
                assert(ids[m - 1] == ids[m - 1]);
            }
        }
    }
}

/// A tab is only ever placed in a group that is one of the tab groups.
proof fn lemma_effective_in_ids(ids: Seq<Seq<char>>, resolved: Seq<Option<Seq<char>>>, id: Seq<char>)
    requires
        seen_before(effective_groups(ids, resolved), id, resolved.len() as int),
    ensures
        ids.contains(id),
{
    let eff = effective_groups(ids, resolved);
    let j = choose|j: int| 0 <= j < resolved.len() && eff[j] == Some(id);
    assert(eff[j] == effective_group(ids, resolved[j]));
}

/// The top-level items and the buckets agree: the ungrouped items, in order,
/// are the ungrouped tabs; every tab group id gets exactly one section and no
/// other id gets one; and every section holds exactly the bucket of its group
/// (empty for a group that no tab is in).
pub proof fn lemma_items_agree_with_buckets(
    tabs: Seq<TabView>,
    ids: Seq<Seq<char>>,
    resolved: Seq<Option<Seq<char>>>,
)
    requires
        resolved.len() == tabs.len(),
    ensures
        ({
            let p = partition_model(tabs, ids, resolved);
            &&& ungrouped_of_items(p.items) == p.ungrouped
            &&& forall|id: Seq<char>| #[trigger]
                section_count(p.items, id) == if ids.contains(id) {
                    1nat
                } else {
                    0nat
                }
            &&& forall|i: int, j: int|
                0 <= i < p.items.len() && 0 <= j < ids.len() ==> match #[trigger] p.items[i] {
                    GroupedItemView::Group { id, tabs: t } => id == ids[j] ==> t == #[trigger] p.groups[j].1,
                    GroupedItemView::Ungrouped(_) => true,
                }
        }),
{
    let p = partition_model(tabs, ids, resolved);
    let eff = effective_groups(ids, resolved);
    let n = tabs.len() as int;
    let m = ids.len() as int;
    let a = section_items(tabs, eff, n);
    let b = empty_section_items(ids, eff, m);
    lemma_ungrouped_of_append(a, b);
    lemma_sections_ungrouped(tabs, eff, n);
    lemma_empty_sections_ungrouped(ids, eff, m);
    assert(ungrouped_of_items(a) + ungrouped_of_items(b) =~= ungrouped_of_items(a));
    assert forall|id: Seq<char>| #[trigger]
        section_count(p.items, id) == if ids.contains(id) {
            1nat
        } else {
            0nat
        } by {
        lemma_section_count_append(a, b, id);
        lemma_sections_count(tabs, eff, n, id);
        lemma_empty_sections_count(ids, eff, m, id);
        if seen_before(eff, id, n) {
            lemma_effective_in_ids(ids, resolved, id);
        }
        if ids.contains(id) {
            let j = choose|j: int| 0 <= j < ids.len() && ids[j] == id;
            assert(0 <= j < m && ids[j] == id);
        } else {
            assert(!exists|j: int| 0 <= j < m && ids[j] == id);
        }
    }
    lemma_sections_carry_buckets(tabs, eff, n);
    lemma_empty_sections_are_empty(ids, eff, m);
    assert forall|i: int, j: int| 0 <= i < p.items.len() && 0 <= j < ids.len() implies match #[trigger] p.items[i] {
        GroupedItemView::Group { id, tabs: t } => id == ids[j] ==> t == #[trigger] p.groups[j].1,
        GroupedItemView::Ungrouped(_) => true,
    } by {
        if i < a.len() {
            assert(p.items[i] == a[i]);
        } else {
            assert(p.items[i] == b[i - a.len()]);
            match b[i - a.len()] {
                GroupedItemView::Group { id, tabs: t } => {
                    lemma_group_tabs_empty(tabs, eff, id, n);
                },
                GroupedItemView::Ungrouped(_) => {},
            }
        }
    }
}

proof fn lemma_ungrouped_contains(tabs: Seq<TabView>, eff: Seq<Option<Seq<char>>>, n: int, k: int)
    requires
        0 <= k < n <= eff.len(),
        n <= tabs.len(),
        eff[k] is None,
    ensures
        ungrouped_tabs(tabs, eff, n).contains(tabs[k]),
    decreases n,
{
    let u = ungrouped_tabs(tabs, eff, n);
    if k == n - 1 {
        assert(u[u.len() - 1] == tabs[k]);
    } else {
        lemma_ungrouped_contains(tabs, eff, n - 1, k);
        let prev = ungrouped_tabs(tabs, eff, n - 1);
        let i = choose|i: int| 0 <= i < prev.len() && prev[i] == tabs[k];
        assert(u[i] == tabs[k]);
    }
}

proof fn lemma_group_contains(
    tabs: Seq<TabView>,
    eff: Seq<Option<Seq<char>>>,
    id: Seq<char>,
    n: int,
    k: int,
)
    requires
        0 <= k < n <= eff.len(),
        n <= tabs.len(),
        eff[k] == Some(id),
    ensures
        group_tabs(tabs, eff, id, n).contains(tabs[k]),
    decreases n,
{
    let u = group_tabs(tabs, eff, id, n);
    if k == n - 1 {
        assert(u[u.len() - 1] == tabs[k]);
    } else {
        lemma_group_contains(tabs, eff, id, n - 1, k);
        let prev = group_tabs(tabs, eff, id, n - 1);
        let i = choose|i: int| 0 <= i < prev.len() && prev[i] == tabs[k];
        assert(u[i] == tabs[k]);
    }
}

/// No visible tab is lost: a tab whose resolved group is none, or is not one
/// of the tab groups, is among the ungrouped tabs; a tab resolved to one of
/// the tab groups is in the bucket of every group with that id. The buckets
/// come in the order of the tab groups, one per group.
pub proof fn lemma_every_tab_is_placed(
    tabs: Seq<TabView>,
    ids: Seq<Seq<char>>,
    resolved: Seq<Option<Seq<char>>>,
    k: int,
)
    requires
        resolved.len() == tabs.len(),
        0 <= k < tabs.len(),
    ensures
        ({
            let p = partition_model(tabs, ids, resolved);
            &&& p.groups.len() == ids.len()
            &&& forall|j: int| 0 <= j < ids.len() ==> (#[trigger] p.groups[j]).0 == ids[j]
            &&& match resolved[k] {
                Some(id) => if ids.contains(id) {
                    forall|j: int| 0 <= j < ids.len() && ids[j] == id ==> (
                    #[trigger] p.groups[j]).1.contains(tabs[k])
                } else {
                    p.ungrouped.contains(tabs[k])
                },
                None => p.ungrouped.contains(tabs[k]),
            }
        }),
{
    let eff = effective_groups(ids, resolved);
    let n = tabs.len() as int;
    assert(eff[k] == effective_group(ids, resolved[k]));
    match eff[k] {
        None => lemma_ungrouped_contains(tabs, eff, n, k),
        Some(id) => lemma_group_contains(tabs, eff, id, n, k),
    }
}

/// Collapsing or expanding groups leaves their ids, and therefore the
/// partition, unchanged: collapse is a rendering concern.
pub proof fn lemma_collapse_keeps_partition(
    groups: Seq<TabGroup>,
    id: Seq<char>,
    collapsed: bool,
    tabs: Seq<TabView>,
    resolved: Seq<Option<Seq<char>>>,
)
    ensures
        partition_model(tabs, group_ids(collapsed_groups(groups, id, collapsed)), resolved)
            == partition_model(tabs, group_ids(groups), resolved),
{
    assert(group_ids(collapsed_groups(groups, id, collapsed)) =~= group_ids(groups));
}

/// The tabs an item shows: its own tab, or the tabs of its section.
pub open spec fn item_tabs(x: GroupedItemView) -> Seq<TabView> {
    match x {
        GroupedItemView::Ungrouped(t) => seq![t],
        GroupedItemView::Group { tabs, .. } => tabs,
    }
}

/// All tabs shown by the items, in order.
pub open spec fn flatten_items(items: Seq<GroupedItemView>) -> Seq<TabView>
    decreases items.len(),
{
    if items.len() == 0 {
        Seq::empty()
    } else {
        flatten_items(items.drop_last()) + item_tabs(items.last())
    }
}

/// The tabs of the section opened at tab `j`, with buckets over the first `b`
/// tabs: the bucket of `j`'s group when `j` is the first tab of that group.
spec fn opened_section(tabs: Seq<TabView>, eff: Seq<Option<Seq<char>>>, b: int, j: int) -> Multiset<
    TabView,
> {
    match eff[j] {
        Some(x) => if !seen_before(eff, x, j) {
            group_tabs(tabs, eff, x, b).to_multiset()
        } else {
            Multiset::empty()
        },
        None => Multiset::empty(),
    }
}

/// The tabs of all sections opened among the first `m` tabs, with buckets
/// over the first `b` tabs.
spec fn opened_sections(tabs: Seq<TabView>, eff: Seq<Option<Seq<char>>>, b: int, m: int) -> Multiset<
    TabView,
>
    decreases m,
{
    if m <= 0 {
        Multiset::empty()
    } else {
        opened_sections(tabs, eff, b, m - 1).add(opened_section(tabs, eff, b, m - 1))
    }
}

proof fn lemma_flatten_push(items: Seq<GroupedItemView>, x: GroupedItemView)
    ensures
        flatten_items(items.push(x)) == flatten_items(items) + item_tabs(x),
{
    assert(items.push(x).drop_last() =~= items);
}

proof fn lemma_flatten_append(a: Seq<GroupedItemView>, b: Seq<GroupedItemView>)
    ensures
        flatten_items(a + b) == flatten_items(a) + flatten_items(b),
    decreases b.len(),
{
    if b.len() == 0 {
        assert(a + b =~= a);
        assert(flatten_items(a) + flatten_items(b) =~= flatten_items(a));
    } else {
        let bl = b.drop_last();
        lemma_flatten_append(a, bl);
        assert(a + b =~= (a + bl).push(b.last()));
        assert(b =~= bl.push(b.last()));
        lemma_flatten_push(a + bl, b.last());
        lemma_flatten_push(bl, b.last());
        assert(flatten_items(a) + (flatten_items(bl) + item_tabs(b.last())) =~= (flatten_items(a)
            + flatten_items(bl)) + item_tabs(b.last()));
    }
}

proof fn lemma_flatten_empty_sections(ids: Seq<Seq<char>>, eff: Seq<Option<Seq<char>>>, m: int)
    requires
        0 <= m,
    ensures
        flatten_items(empty_section_items(ids, eff, m)) == Seq::<TabView>::empty(),
    decreases m,
{
    if m > 0 {
        lemma_flatten_empty_sections(ids, eff, m - 1);
        let rest = empty_section_items(ids, eff, m - 1);
        let x = GroupedItemView::Group { id: ids[m - 1], tabs: Seq::empty() };
        lemma_flatten_push(rest, x);
        assert(flatten_items(rest) + item_tabs(x) =~= Seq::<TabView>::empty());
    }
}

/// The tabs shown while walking the first `n` tabs are the ungrouped ones
/// among them and the whole sections opened among them.
proof fn lemma_flatten_sections(tabs: Seq<TabView>, eff: Seq<Option<Seq<char>>>, n: int)
    requires
        0 <= n <= eff.len(),
        eff.len() == tabs.len(),
    ensures
        flatten_items(section_items(tabs, eff, n)).to_multiset() =~= ungrouped_tabs(
            tabs,
            eff,
            n,
        ).to_multiset().add(opened_sections(tabs, eff, tabs.len() as int, n)),
    decreases n,
{
    broadcast use vstd::seq_lib::group_to_multiset_ensures, vstd::multiset::group_multiset_axioms;

    if n == 0 {
        assert(flatten_items(section_items(tabs, eff, 0)) =~= Seq::<TabView>::empty());
        assert(ungrouped_tabs(tabs, eff, 0) =~= Seq::<TabView>::empty());
    } else {
        lemma_flatten_sections(tabs, eff, n - 1);
        let rest = section_items(tabs, eff, n - 1);
        let big = tabs.len() as int;
        match eff[n - 1] {
            None => {
                let x = GroupedItemView::Ungrouped(tabs[n - 1]);
                lemma_flatten_push(rest, x);
                vstd::seq_lib::lemma_multiset_commutative(flatten_items(rest), item_tabs(x));
                assert(item_tabs(x) =~= Seq::<TabView>::empty().push(tabs[n - 1]));
            },
            Some(g) => {
                if !seen_before(eff, g, n - 1) {
                    let x = GroupedItemView::Group { id: g, tabs: group_tabs(tabs, eff, g, big) };
                    lemma_flatten_push(rest, x);
                    vstd::seq_lib::lemma_multiset_commutative(flatten_items(rest), item_tabs(x));
                }
            },
        }
    }
}

/// Extending the buckets by tab `n` adds that tab once to the opened sections
/// among the first `m` tabs, when its group's section is among them.
proof fn lemma_opened_sections_grow(tabs: Seq<TabView>, eff: Seq<Option<Seq<char>>>, n: int, m: int)
    requires
        0 <= m <= n < eff.len(),
        eff.len() == tabs.len(),
    ensures
        opened_sections(tabs, eff, n + 1, m) =~= opened_sections(tabs, eff, n, m).add(
            if eff[n] is Some && seen_before(eff, eff[n]->0, m) {
                Multiset::singleton(tabs[n])
            } else {
                Multiset::empty()
            },
        ),
    decreases m,
{
    broadcast use vstd::seq_lib::group_to_multiset_ensures, vstd::multiset::group_multiset_axioms;

    if m > 0 {
        lemma_opened_sections_grow(tabs, eff, n, m - 1);
        let j = m - 1;
        match eff[n] {
            Some(x) => {
                assert(seen_before(eff, x, m) == (seen_before(eff, x, j) || eff[j] == Some(x))) by {
                    if seen_before(eff, x, m) && !seen_before(eff, x, j) {
                        let l = choose|l: int| 0 <= l < m && eff[l] == Some(x);
                        assert(l == j);
                    }
                    if seen_before(eff, x, j) {
                        let l = choose|l: int| 0 <= l < j && eff[l] == Some(x);
                        assert(0 <= l < m && eff[l] == Some(x));
                    }
                    if eff[j] == Some(x) {
                        assert(0 <= j < m && eff[j] == Some(x));
                    }
                }
            },
            None => {},
        }
        match eff[j] {
            Some(y) => {
                if !seen_before(eff, y, j) {
                    let g1 = group_tabs(tabs, eff, y, n + 1);
                    let g0 = group_tabs(tabs, eff, y, n);
                    if eff[n] == Some(y) {
                        assert(g1 == g0.push(tabs[n]));
                    } else {
                        assert(g1 == g0);
                    }
                }
            },
            None => {},
        }
    }
}

/// The first `n` tabs are the ungrouped ones among them and the sections
/// opened among them, with buckets over those tabs.
proof fn lemma_prefix_split(tabs: Seq<TabView>, eff: Seq<Option<Seq<char>>>, n: int)
    requires
        0 <= n <= eff.len(),
        eff.len() == tabs.len(),
    ensures
        tabs.take(n).to_multiset() =~= ungrouped_tabs(tabs, eff, n).to_multiset().add(
            opened_sections(tabs, eff, n, n),
        ),
    decreases n,
{
    broadcast use vstd::seq_lib::group_to_multiset_ensures, vstd::multiset::group_multiset_axioms;

    if n == 0 {
        assert(tabs.take(0) =~= Seq::<TabView>::empty());
        assert(ungrouped_tabs(tabs, eff, 0) =~= Seq::<TabView>::empty());
    } else {
        let k = n - 1;
        lemma_prefix_split(tabs, eff, k);
        lemma_opened_sections_grow(tabs, eff, k, k);
        assert(tabs.take(n) =~= tabs.take(k).push(tabs[k]));
        match eff[k] {
            Some(x) => {
                if !seen_before(eff, x, k) {
                    lemma_group_tabs_empty(tabs, eff, x, k);
                    assert(group_tabs(tabs, eff, x, n) =~= Seq::<TabView>::empty().push(tabs[k]));
                }
            },
            None => {},
        }
    }
}

/// Each visible tab is shown exactly once by the top-level items: the tabs of
/// the items (a tab for an ungrouped item, the section's tabs for a group)
/// are the visible tabs, as a multiset.
pub proof fn lemma_items_show_each_tab_once(
    tabs: Seq<TabView>,
    ids: Seq<Seq<char>>,
    resolved: Seq<Option<Seq<char>>>,
)
    requires
        resolved.len() == tabs.len(),
    ensures
        flatten_items(partition_model(tabs, ids, resolved).items).to_multiset()
            =~= tabs.to_multiset(),
{
    broadcast use vstd::seq_lib::group_to_multiset_ensures, vstd::multiset::group_multiset_axioms;

    let eff = effective_groups(ids, resolved);
    let n = tabs.len() as int;
    let a = section_items(tabs, eff, n);
    let b = empty_section_items(ids, eff, ids.len() as int);
    lemma_flatten_append(a, b);
    lemma_flatten_empty_sections(ids, eff, ids.len() as int);
    assert(flatten_items(a) + flatten_items(b) =~= flatten_items(a));
    lemma_flatten_sections(tabs, eff, n);
    lemma_prefix_split(tabs, eff, n);
    assert(tabs.take(n) =~= tabs);
}

/// The group id of a section item (empty for an ungrouped item).
pub open spec fn section_id(x: GroupedItemView) -> Seq<char> {
    match x {
        GroupedItemView::Group { id, .. } => id,
        GroupedItemView::Ungrouped(_) => Seq::empty(),
    }
}

/// The item is a group section without tabs.
pub open spec fn is_empty_section(x: GroupedItemView) -> bool {
    match x {
        GroupedItemView::Group { tabs, .. } => tabs.len() == 0,
        GroupedItemView::Ungrouped(_) => false,
    }
}

/// The ids of the group sections among the items, in order.
pub open spec fn section_ids(items: Seq<GroupedItemView>) -> Seq<Seq<char>>
    decreases items.len(),
{
    if items.len() == 0 {
        Seq::empty()
    } else {
        let rest = section_ids(items.drop_last());
        match items.last() {
            GroupedItemView::Group { id, .. } => rest.push(id),
            GroupedItemView::Ungrouped(_) => rest,
        }
    }
}

proof fn lemma_items_split_count(items: Seq<GroupedItemView>)
    ensures
        items.len() == ungrouped_of_items(items).len() + section_ids(items).len(),
    decreases items.len(),
{
    if items.len() > 0 {
        lemma_items_split_count(items.drop_last());
    }
}

proof fn lemma_section_ids_count(items: Seq<GroupedItemView>, id: Seq<char>)
    ensures
        section_ids(items).to_multiset().count(id) == section_count(items, id),
    decreases items.len(),
{
    broadcast use vstd::seq_lib::group_to_multiset_ensures, vstd::multiset::group_multiset_axioms;

    if items.len() == 0 {
        assert(section_ids(items) =~= Seq::<Seq<char>>::empty());
    } else {
        lemma_section_ids_count(items.drop_last(), id);
    }
}

/// The empty sections appended for the first `m` ids name ids among the first
/// `m`, at increasing positions of `ids`.
proof fn lemma_empty_sections_ordered(ids: Seq<Seq<char>>, eff: Seq<Option<Seq<char>>>, m: int)
    requires
        0 <= m <= ids.len(),
        ids.no_duplicates(),
    ensures
        forall|i: int|
            0 <= i < empty_section_items(ids, eff, m).len() ==> exists|c: int|
                0 <= c < m && section_id(#[trigger] empty_section_items(ids, eff, m)[i]) == ids[c],
        forall|i: int, j: int, a: int, b: int|
            #![trigger empty_section_items(ids, eff, m)[i], empty_section_items(ids, eff, m)[j], ids[a], ids[b]]
            0 <= i < j < empty_section_items(ids, eff, m).len() && 0 <= a < ids.len() && 0 <= b
                < ids.len() && section_id(empty_section_items(ids, eff, m)[i]) == ids[a]
                && section_id(empty_section_items(ids, eff, m)[j]) == ids[b] ==> a < b,
    decreases m,
{
    if m > 0 {
        lemma_empty_sections_ordered(ids, eff, m - 1);
        let rest = empty_section_items(ids, eff, m - 1);
        let cur = empty_section_items(ids, eff, m);
        assert forall|i: int| 0 <= i < cur.len() implies exists|c: int|
            0 <= c < m && section_id(#[trigger] cur[i]) == ids[c] by {
            if i < rest.len() {
                assert(cur[i] == rest[i]);
                let c = choose|c: int| 0 <= c < m - 1 && section_id(rest[i]) == ids[c];
                assert(0 <= c < m && section_id(cur[i]) == ids[c]);
            } else {
                assert(section_id(cur[i]) == ids[m - 1]);
            }
        }
        assert forall|i: int, j: int, a: int, b: int|
            0 <= i < j < cur.len() && 0 <= a < ids.len() && 0 <= b < ids.len() && section_id(
                #[trigger] cur[i],
            ) == #[trigger] ids[a] && section_id(#[trigger] cur[j]) == #[trigger] ids[b] implies a
            < b by {
            assert(cur[i] == rest[i]);
            if j < rest.len() {
                assert(cur[j] == rest[j]);
            } else {
                assert(section_id(cur[j]) == ids[m - 1]);
                assert(b == m - 1);
                let c = choose|c: int| 0 <= c < m - 1 && section_id(rest[i]) == ids[c];
                assert(a == c);
            }
        }
    }
}

/// When the tab group ids are distinct, the items are exactly the ungrouped
/// tabs and one section per tab group (`items.len() == ungrouped.len() +
/// groups.len()`), and the sections without tabs close the list: before the
/// returned position no item is an empty section, from it on every item is
/// one, and their groups come in the order of the tab groups.
pub proof fn lemma_empty_sections_close_the_items(
    tabs: Seq<TabView>,
    ids: Seq<Seq<char>>,
    resolved: Seq<Option<Seq<char>>>,
) -> (k: int)
    requires
        resolved.len() == tabs.len(),
        ids.no_duplicates(),
    ensures
        ({
            let p = partition_model(tabs, ids, resolved);
            &&& p.items.len() == p.ungrouped.len() + p.groups.len()
            &&& 0 <= k <= p.items.len()
            &&& forall|i: int| 0 <= i < k ==> !is_empty_section(#[trigger] p.items[i])
            &&& forall|i: int| k <= i < p.items.len() ==> is_empty_section(#[trigger] p.items[i])
            &&& forall|i: int, j: int, a: int, b: int|
                #![trigger p.items[i], p.items[j], ids[a], ids[b]]
                k <= i < j < p.items.len() && 0 <= a < ids.len() && 0 <= b < ids.len()
                    && section_id(p.items[i]) == ids[a] && section_id(p.items[j]) == ids[b] ==> a
                    < b
        }),
{
    broadcast use vstd::seq_lib::group_to_multiset_ensures, vstd::multiset::group_multiset_axioms;

    let p = partition_model(tabs, ids, resolved);
    let eff = effective_groups(ids, resolved);
    let n = tabs.len() as int;
    let m = ids.len() as int;
    let a = section_items(tabs, eff, n);
    let b = empty_section_items(ids, eff, m);
    lemma_items_agree_with_buckets(tabs, ids, resolved);

    // One section per tab group.
    lemma_items_split_count(p.items);
    ids.lemma_multiset_has_no_duplicates();
    assert forall|id: Seq<char>| #[trigger] section_ids(p.items).to_multiset().count(id)
        == ids.to_multiset().count(id) by {
        lemma_section_ids_count(p.items, id);
        if ids.contains(id) {
            assert(ids.to_multiset().contains(id));
        } else {
            assert(ids.to_multiset().count(id) == 0);
        }
    }
    assert(section_ids(p.items).to_multiset() =~= ids.to_multiset());
    assert(section_ids(p.items).len() == section_ids(p.items).to_multiset().len());
    assert(ids.len() == ids.to_multiset().len());
    assert(ungrouped_of_items(p.items) == p.ungrouped);
    assert(p.items.len() == p.ungrouped.len() + p.groups.len());

    // The sections opened by tabs carry at least their first tab.
    lemma_sections_carry_buckets(tabs, eff, n);
    lemma_empty_sections_are_empty(ids, eff, m);
    lemma_empty_sections_ordered(ids, eff, m);
    let k = a.len() as int;
    assert forall|i: int| 0 <= i < k implies !is_empty_section(#[trigger] p.items[i]) by {
        assert(p.items[i] == a[i]);
        match a[i] {
            GroupedItemView::Group { id, tabs: t } => {
                let j = choose|j: int| 0 <= j < n && eff[j] == Some(id);
                lemma_group_contains(tabs, eff, id, n, j);
            },
            GroupedItemView::Ungrouped(_) => {},
        }
    }
    assert forall|i: int| k <= i < p.items.len() implies is_empty_section(#[trigger] p.items[i]) by {
        assert(p.items[i] == b[i - k]);
    }
    assert forall|i: int, j: int, x: int, y: int|
        k <= i < j < p.items.len() && 0 <= x < ids.len() && 0 <= y < ids.len() && section_id(
            #[trigger] p.items[i],
        ) == #[trigger] ids[x] && section_id(#[trigger] p.items[j]) == #[trigger] ids[y] implies x
        < y by {
        assert(p.items[i] == b[i - k]);
        assert(p.items[j] == b[j - k]);
    }
    k
}

/// Partitioning against the workspace tabs is partitioning by index: for a
/// resolver `f` of workspace entries and a resolver `g` of indices that may
/// return, for every index of a workspace tab, what `f` may return for that
/// tab, a result is a partition of the visible tabs that have a workspace tab
/// under `f` exactly when it is one under `g`.
pub proof fn lemma_workspace_partition_is_index_partition<T, F, G>(
    out: GroupedTabsView,
    visible: Seq<TabView>,
    workspace_tabs: Seq<T>,
    ids: Seq<Seq<char>>,
    f: F,
    g: G,
) where F: Fn(&T) -> Option<TabGroupId>, G: Fn(usize) -> Option<TabGroupId>
    requires
        forall|i: usize, x: Option<TabGroupId>|
            i < workspace_tabs.len() ==> (#[trigger] call_ensures(g, (i,), x) <==> call_ensures(
                f,
                (&workspace_tabs[i as int],),
                x,
            )),
    ensures
        is_partition_of(
            out,
            tabs_in_range(visible, workspace_tabs.len() as int),
            ids,
            |i: usize, x: Option<TabGroupId>| call_ensures(f, (&workspace_tabs[i as int],), x),
        ) <==> is_partition_of(
            out,
            tabs_in_range(visible, workspace_tabs.len() as int),
            ids,
            |i: usize, x: Option<TabGroupId>| call_ensures(g, (i,), x),
        ),
{
    let kept = tabs_in_range(visible, workspace_tabs.len() as int);
    let by_entry = |i: usize, x: Option<TabGroupId>| call_ensures(f, (&workspace_tabs[i as int],), x);
    let by_index = |i: usize, x: Option<TabGroupId>| call_ensures(g, (i,), x);
    lemma_tabs_in_range_members(visible, workspace_tabs.len() as int);
    assert forall|k: int, x: Option<TabGroupId>|
        0 <= k < kept.len() && #[trigger] by_entry(kept[k].0, x) implies by_index(kept[k].0, x) by {
        assert(kept[k].0 < workspace_tabs.len());
    }
    assert forall|k: int, x: Option<TabGroupId>|
        0 <= k < kept.len() && #[trigger] by_index(kept[k].0, x) implies by_entry(kept[k].0, x) by {
        assert(kept[k].0 < workspace_tabs.len());
    }
    if is_partition_of(out, kept, ids, by_entry) {
        lemma_is_partition_weaken(out, kept, ids, by_entry, by_index);
    }
    if is_partition_of(out, kept, ids, by_index) {
        lemma_is_partition_weaken(out, kept, ids, by_index, by_entry);
    }
}

/// `out` lists, in order, the tabs among the first `n` at the positions
/// `keep` accepts, each once: `idx` gives the position of each listed tab,
/// strictly increasing, and every accepted position is listed.
pub open spec fn is_ordered_selection(
    out: Seq<TabView>,
    tabs: Seq<TabView>,
    n: int,
    keep: spec_fn(int) -> bool,
    idx: Seq<int>,
) -> bool {
    &&& idx.len() == out.len()
    &&& forall|m: int|
        0 <= m < idx.len() ==> 0 <= #[trigger] idx[m] < n && keep(idx[m]) && out[m] == tabs[idx[m]]
    &&& forall|m1: int, m2: int|
        0 <= m1 < m2 < idx.len() ==> #[trigger] idx[m1] < #[trigger] idx[m2]
    &&& forall|k: int|
        0 <= k < n && #[trigger] keep(k) ==> exists|m: int| 0 <= m < idx.len() && idx[m] == k
}

proof fn lemma_selection_empty(tabs: Seq<TabView>, keep: spec_fn(int) -> bool)
    ensures
        is_ordered_selection(Seq::empty(), tabs, 0, keep, Seq::empty()),
{
}

proof fn lemma_selection_step(
    out: Seq<TabView>,
    tabs: Seq<TabView>,
    n: int,
    keep: spec_fn(int) -> bool,
    idx: Seq<int>,
)
    requires
        0 <= n,
        is_ordered_selection(out, tabs, n, keep, idx),
    ensures
        keep(n) ==> is_ordered_selection(out.push(tabs[n]), tabs, n + 1, keep, idx.push(n)),
        !keep(n) ==> is_ordered_selection(out, tabs, n + 1, keep, idx),
{
    if keep(n) {
        let o2 = out.push(tabs[n]);
        let i2 = idx.push(n);
        assert forall|m: int| 0 <= m < i2.len() implies 0 <= #[trigger] i2[m] < n + 1 && keep(i2[m])
            && o2[m] == tabs[i2[m]] by {
            if m < idx.len() {
                assert(i2[m] == idx[m]);
            }
        }
        assert forall|m1: int, m2: int| 0 <= m1 < m2 < i2.len() implies #[trigger] i2[m1]
            < #[trigger] i2[m2] by {
            assert(i2[m1] == idx[m1]);
            if m2 < idx.len() {
                assert(i2[m2] == idx[m2]);
            }
        }
        assert forall|k: int| 0 <= k < n + 1 && #[trigger] keep(k) implies exists|m: int|
            0 <= m < i2.len() && i2[m] == k by {
            if k < n {
                let m = choose|m: int| 0 <= m < idx.len() && idx[m] == k;
                assert(i2[m] == k);
            } else {
                assert(i2[idx.len() as int] == k);
            }
        }
    } else {
        assert forall|k: int| 0 <= k < n + 1 && #[trigger] keep(k) implies exists|m: int|
            0 <= m < idx.len() && idx[m] == k by {
            assert(k != n);
        }
    }
}

proof fn lemma_group_tabs_selection(
    tabs: Seq<TabView>,
    eff: Seq<Option<Seq<char>>>,
    id: Seq<char>,
    n: int,
    keep: spec_fn(int) -> bool,
) -> (idx: Seq<int>)
    requires
        0 <= n <= eff.len(),
        n <= tabs.len(),
        forall|k: int| 0 <= k < eff.len() ==> #[trigger] keep(k) == (eff[k] == Some(id)),
    ensures
        is_ordered_selection(group_tabs(tabs, eff, id, n), tabs, n, keep, idx),
    decreases n,
{
    if n == 0 {
        lemma_selection_empty(tabs, keep);
        Seq::empty()
    } else {
        let idx0 = lemma_group_tabs_selection(tabs, eff, id, n - 1, keep);
        lemma_selection_step(group_tabs(tabs, eff, id, n - 1), tabs, n - 1, keep, idx0);
        assert(keep(n - 1) == (eff[n - 1] == Some(id)));
        if keep(n - 1) {
            idx0.push(n - 1)
        } else {
            idx0
        }
    }
}

proof fn lemma_ungrouped_tabs_selection(
    tabs: Seq<TabView>,
    eff: Seq<Option<Seq<char>>>,
    n: int,
    keep: spec_fn(int) -> bool,
) -> (idx: Seq<int>)
    requires
        0 <= n <= eff.len(),
        n <= tabs.len(),
        forall|k: int| 0 <= k < eff.len() ==> #[trigger] keep(k) == (eff[k] is None),
    ensures
        is_ordered_selection(ungrouped_tabs(tabs, eff, n), tabs, n, keep, idx),
    decreases n,
{
    if n == 0 {
        lemma_selection_empty(tabs, keep);
        Seq::empty()
    } else {
        let idx0 = lemma_ungrouped_tabs_selection(tabs, eff, n - 1, keep);
        lemma_selection_step(ungrouped_tabs(tabs, eff, n - 1), tabs, n - 1, keep, idx0);
        assert(keep(n - 1) == (eff[n - 1] is None));
        if keep(n - 1) {
            idx0.push(n - 1)
        } else {
            idx0
        }
    }
}

/// The bucket of each tab group is the visible tabs resolved to that group,
/// each once, in their visible order: the selection of the tab positions whose
/// resolved group is the group's id.
pub proof fn lemma_bucket_is_ordered_selection(
    tabs: Seq<TabView>,
    ids: Seq<Seq<char>>,
    resolved: Seq<Option<Seq<char>>>,
    j: int,
) -> (idx: Seq<int>)
    requires
        resolved.len() == tabs.len(),
        0 <= j < ids.len(),
    ensures
        is_ordered_selection(
            partition_model(tabs, ids, resolved).groups[j].1,
            tabs,
            tabs.len() as int,
            |k: int| resolved[k] == Some(ids[j]),
            idx,
        ),
{
    let eff = effective_groups(ids, resolved);
    let keep = |k: int| resolved[k] == Some(ids[j]);
    assert forall|k: int| 0 <= k < eff.len() implies #[trigger] keep(k) == (eff[k] == Some(ids[j])) by {
        assert(eff[k] == effective_group(ids, resolved[k]));
        assert(ids.contains(ids[j]));
    }
    lemma_group_tabs_selection(tabs, eff, ids[j], tabs.len() as int, keep)
}

/// The ungrouped tabs are the visible tabs whose resolved group is none or is
/// not one of the tab groups, each once, in their visible order.
pub proof fn lemma_ungrouped_is_ordered_selection(
    tabs: Seq<TabView>,
    ids: Seq<Seq<char>>,
    resolved: Seq<Option<Seq<char>>>,
) -> (idx: Seq<int>)
    requires
        resolved.len() == tabs.len(),
    ensures
        is_ordered_selection(
            partition_model(tabs, ids, resolved).ungrouped,
            tabs,
            tabs.len() as int,
            |k: int| resolved[k] is None || !ids.contains(resolved[k]->0),
            idx,
        ),
{
    let eff = effective_groups(ids, resolved);
    let keep = |k: int| resolved[k] is None || !ids.contains(resolved[k]->0);
    assert forall|k: int| 0 <= k < eff.len() implies #[trigger] keep(k) == (eff[k] is None) by {
        assert(eff[k] == effective_group(ids, resolved[k]));
    }
    lemma_ungrouped_tabs_selection(tabs, eff, tabs.len() as int, keep)
}

proof fn lemma_tabs_in_range_prefix(tabs: Seq<TabView>, len: int, n: int, keep: spec_fn(int) -> bool) -> (idx: Seq<int>)
    requires
        0 <= n <= tabs.len(),
        forall|k: int| 0 <= k < tabs.len() ==> #[trigger] keep(k) == (tabs[k].0 < len),
    ensures
        is_ordered_selection(tabs_in_range(tabs.take(n), len), tabs, n, keep, idx),
    decreases n,
{
    if n == 0 {
        assert(tabs.take(0) =~= Seq::<TabView>::empty());
        lemma_selection_empty(tabs, keep);
        Seq::empty()
    } else {
        let idx0 = lemma_tabs_in_range_prefix(tabs, len, n - 1, keep);
        lemma_selection_step(tabs_in_range(tabs.take(n - 1), len), tabs, n - 1, keep, idx0);
        let s = tabs.take(n);
        assert(s.drop_last() =~= tabs.take(n - 1));
        assert(s.last() == tabs[n - 1]);
        assert(keep(n - 1) == (tabs[n - 1].0 < len));
        if keep(n - 1) {
            idx0.push(n - 1)
        } else {
            idx0
        }
    }
}

/// The tabs kept against `len` workspace tabs are the visible tabs whose index
/// is below `len`, each once, in their visible order: none is dropped.
pub proof fn lemma_tabs_in_range_is_ordered_selection(tabs: Seq<TabView>, len: int) -> (idx: Seq<
    int,
>)
    ensures
        is_ordered_selection(
            tabs_in_range(tabs, len),
            tabs,
            tabs.len() as int,
            |k: int| tabs[k].0 < len,
            idx,
        ),
{
    let keep = |k: int| tabs[k].0 < len;
    let idx = lemma_tabs_in_range_prefix(tabs, len, tabs.len() as int, keep);
    assert(tabs.take(tabs.len() as int) =~= tabs);
    idx
}

/// Positions `pos` anchor the first items of `section_items(n)`: each item
/// stands at a tab whose group is none (the item is that tab) or at the first
/// tab of its group (the item is that group's section), in tab order, and
/// every such tab has its item.
spec fn anchors_sections(
    tabs: Seq<TabView>,
    eff: Seq<Option<Seq<char>>>,
    n: int,
    items: Seq<GroupedItemView>,
    pos: Seq<int>,
) -> bool {
    &&& pos.len() == items.len()
    &&& forall|m: int| 0 <= m < pos.len() ==> 0 <= #[trigger] pos[m] < n && match items[m] {
        GroupedItemView::Ungrouped(t) => eff[pos[m]] is None && t == tabs[pos[m]],
        GroupedItemView::Group { id, .. } => eff[pos[m]] == Some(id) && !seen_before(
            eff,
            id,
            pos[m],
        ),
    }
    &&& forall|m1: int, m2: int| 0 <= m1 < m2 < pos.len() ==> #[trigger] pos[m1] < #[trigger] pos[m2]
    &&& forall|k: int|
        0 <= k < n && (eff[k] is None || !seen_before(eff, #[trigger] eff[k]->0, k)) ==> exists|m: int|
            0 <= m < pos.len() && pos[m] == k
}

proof fn lemma_sections_anchored(tabs: Seq<TabView>, eff: Seq<Option<Seq<char>>>, n: int) -> (pos: Seq<int>)
    requires
        0 <= n <= eff.len(),
        n <= tabs.len(),
    ensures
        anchors_sections(tabs, eff, n, section_items(tabs, eff, n), pos),
    decreases n,
{
    if n == 0 {
        Seq::empty()
    } else {
        let p0 = lemma_sections_anchored(tabs, eff, n - 1);
        let rest = section_items(tabs, eff, n - 1);
        let cur = section_items(tabs, eff, n);
        let k = n - 1;
        let anchor = eff[k] is None || !seen_before(eff, eff[k]->0, k);
        if anchor {
            let p1 = p0.push(k);
            assert(cur.len() == rest.len() + 1);
            assert forall|m: int| 0 <= m < p1.len() implies 0 <= #[trigger] p1[m] < n && match cur[m] {
                GroupedItemView::Ungrouped(t) => eff[p1[m]] is None && t == tabs[p1[m]],
                GroupedItemView::Group { id, .. } => eff[p1[m]] == Some(id) && !seen_before(
                    eff,
                    id,
                    p1[m],
                ),
            } by {
                if m < p0.len() {
                    assert(p1[m] == p0[m]);
                    assert(cur[m] == rest[m]);
                }
            }
            assert forall|m1: int, m2: int| 0 <= m1 < m2 < p1.len() implies #[trigger] p1[m1]
                < #[trigger] p1[m2] by {
                assert(p1[m1] == p0[m1]);
                if m2 < p0.len() {
                    assert(p1[m2] == p0[m2]);
                }
            }
            assert forall|j: int|
                0 <= j < n && (eff[j] is None || !seen_before(eff, #[trigger] eff[j]->0, j)) implies exists|m: int|
                0 <= m < p1.len() && p1[m] == j by {
                if j < k {
                    let m = choose|m: int| 0 <= m < p0.len() && p0[m] == j;
                    assert(p1[m] == j);
                } else {
                    assert(p1[p0.len() as int] == j);
                }
            }
            p1
        } else {
            assert(cur == rest);
            assert forall|j: int|
                0 <= j < n && (eff[j] is None || !seen_before(eff, #[trigger] eff[j]->0, j)) implies exists|m: int|
                0 <= m < p0.len() && p0[m] == j by {
                assert(j != k);
            }
            p0
        }
    }
}

/// The tab at position `k` is placed in group `id`: it resolved to `id` and
/// `id` is one of the tab groups.
pub open spec fn placed_in(ids: Seq<Seq<char>>, resolved: Seq<Option<Seq<char>>>, k: int, id: Seq<
    char,
>) -> bool {
    resolved[k] == Some(id) && ids.contains(id)
}

/// The tab at position `k` is in no group.
pub open spec fn unplaced(ids: Seq<Seq<char>>, resolved: Seq<Option<Seq<char>>>, k: int) -> bool {
    resolved[k] is None || !ids.contains(resolved[k]->0)
}

/// The top-level items follow the visible tabs: walking the tabs in order,
/// a tab in no group gives its own item, the first tab of a group gives that
/// group's section, and later tabs of the group give nothing; the returned
/// positions are those tabs, increasing, and every such tab has its item.
/// The items after them are sections of groups that no tab is in, without
/// tabs.
pub proof fn lemma_items_follow_the_tabs(
    tabs: Seq<TabView>,
    ids: Seq<Seq<char>>,
    resolved: Seq<Option<Seq<char>>>,
) -> (pos: Seq<int>)
    requires
        resolved.len() == tabs.len(),
    ensures
        ({
            let p = partition_model(tabs, ids, resolved);
            &&& pos.len() <= p.items.len()
            &&& forall|m: int| 0 <= m < pos.len() ==> 0 <= #[trigger] pos[m] < tabs.len() && match p.items[m] {
                GroupedItemView::Ungrouped(t) => unplaced(ids, resolved, pos[m]) && t == tabs[pos[m]],
                GroupedItemView::Group { id, .. } => placed_in(ids, resolved, pos[m], id) && forall|j: int|
                    0 <= j < pos[m] ==> !placed_in(ids, resolved, j, id),
            }
            &&& forall|m1: int, m2: int| 0 <= m1 < m2 < pos.len() ==> #[trigger] pos[m1] < #[trigger] pos[m2]
            &&& forall|k: int|
                0 <= k < tabs.len() && (unplaced(ids, resolved, k) || forall|j: int|
                    0 <= j < k ==> !placed_in(ids, resolved, j, resolved[k]->0)) ==> exists|m: int|
                    0 <= m < pos.len() && #[trigger] pos[m] == k
            &&& forall|m: int| pos.len() <= m < p.items.len() ==> match #[trigger] p.items[m] {
                GroupedItemView::Group { id, tabs: t } => t.len() == 0 && ids.contains(id) && forall|j: int|
                    0 <= j < tabs.len() ==> !placed_in(ids, resolved, j, id),
                GroupedItemView::Ungrouped(_) => false,
            }
        }),
{
    let p = partition_model(tabs, ids, resolved);
    let eff = effective_groups(ids, resolved);
    let n = tabs.len() as int;
    let a = section_items(tabs, eff, n);
    let b = empty_section_items(ids, eff, ids.len() as int);
    let pos = lemma_sections_anchored(tabs, eff, n);
    lemma_empty_sections_are_empty(ids, eff, ids.len() as int);
    assert forall|k: int| 0 <= k < n implies eff[k] == effective_group(ids, resolved[k]) by {}
    assert forall|k: int, id: Seq<char>| 0 <= k < n implies (#[trigger] placed_in(ids, resolved, k, id)
        == (eff[k] == Some(id))) by {
        assert(eff[k] == effective_group(ids, resolved[k]));
    }
    assert forall|id: Seq<char>, k: int| 0 <= k <= n implies (#[trigger] seen_before(eff, id, k) == exists|j: int|
        0 <= j < k && placed_in(ids, resolved, j, id)) by {
        if seen_before(eff, id, k) {
            let j = choose|j: int| 0 <= j < k && eff[j] == Some(id);
            assert(placed_in(ids, resolved, j, id));
        }
        if exists|j: int| 0 <= j < k && placed_in(ids, resolved, j, id) {
            let j = choose|j: int| 0 <= j < k && placed_in(ids, resolved, j, id);
            assert(eff[j] == Some(id));
        }
    }
    assert forall|m: int| 0 <= m < pos.len() implies 0 <= #[trigger] pos[m] < tabs.len() && match p.items[m] {
        GroupedItemView::Ungrouped(t) => unplaced(ids, resolved, pos[m]) && t == tabs[pos[m]],
        GroupedItemView::Group { id, .. } => placed_in(ids, resolved, pos[m], id) && forall|j: int|
            0 <= j < pos[m] ==> !placed_in(ids, resolved, j, id),
    } by {
        assert(p.items[m] == a[m]);
        let k = pos[m];
        assert(eff[k] == effective_group(ids, resolved[k]));
        match a[m] {
            GroupedItemView::Ungrouped(t) => {},
            GroupedItemView::Group { id, .. } => {
                assert(!seen_before(eff, id, k));
                assert forall|j: int| 0 <= j < k implies !placed_in(ids, resolved, j, id) by {
                    assert(placed_in(ids, resolved, j, id) == (eff[j] == Some(id)));
                }
            },
        }
    }
    assert forall|k: int|
        0 <= k < tabs.len() && (unplaced(ids, resolved, k) || forall|j: int|
            0 <= j < k ==> !placed_in(ids, resolved, j, resolved[k]->0)) implies exists|m: int|
        0 <= m < pos.len() && #[trigger] pos[m] == k by {
        assert(eff[k] == effective_group(ids, resolved[k]));
        if !unplaced(ids, resolved, k) {
            let id = resolved[k]->0;
            assert(eff[k] == Some(id));
            assert(!seen_before(eff, id, k)) by {
                if seen_before(eff, id, k) {
                    let j = choose|j: int| 0 <= j < k && eff[j] == Some(id);
                    assert(placed_in(ids, resolved, j, id));
                }
            }
            assert(eff[k]->0 == id);
        }
        assert(eff[k] is None || !seen_before(eff, eff[k]->0, k));
    }
    assert forall|m: int| pos.len() <= m < p.items.len() implies match #[trigger] p.items[m] {
        GroupedItemView::Group { id, tabs: t } => t.len() == 0 && ids.contains(id) && forall|j: int|
            0 <= j < tabs.len() ==> !placed_in(ids, resolved, j, id),
        GroupedItemView::Ungrouped(_) => false,
    } by {
        assert(p.items[m] == b[m - a.len()]);
        match b[m - a.len()] {
            GroupedItemView::Group { id, tabs: t } => {
                assert(!seen_before(eff, id, n));
                assert forall|j: int| 0 <= j < tabs.len() implies !placed_in(ids, resolved, j, id) by {
                    assert(placed_in(ids, resolved, j, id) == (eff[j] == Some(id)));
                }
            },
            GroupedItemView::Ungrouped(_) => {},
        }
    }
    pos
}

/// With a resolver that returns one determined group per tab index, a
/// partition for what it returned is the partition for those groups: the
/// result of a partition entry point is fixed by the resolver's answers.
pub proof fn lemma_partition_of_determined_resolver(
    out: GroupedTabsView,
    tabs: Seq<TabView>,
    ids: Seq<Seq<char>>,
    returned: spec_fn(usize, Option<TabGroupId>) -> bool,
    answer: spec_fn(usize) -> Option<TabGroupId>,
)
    requires
        is_partition_of(out, tabs, ids, returned),
        forall|i: usize, g: Option<TabGroupId>| #[trigger] returned(i, g) ==> g == answer(i),
    ensures
        out == partition_model(
            tabs,
            ids,
            Seq::new(tabs.len(), |k: int| answer(tabs[k].0).deep_view()),
        ),
{
    let resolved = choose|resolved: Seq<Option<TabGroupId>>|
        #![trigger resolution_views(resolved)]
        {
            &&& resolved.len() == tabs.len()
            &&& forall|k: int|
                0 <= k < resolved.len() ==> #[trigger] returned(tabs[k].0, resolved[k])
            &&& out == partition_model(tabs, ids, resolution_views(resolved))
        };
    assert forall|k: int| 0 <= k < tabs.len() implies resolved[k] == answer(tabs[k].0) by {
        assert(returned(tabs[k].0, resolved[k]));
    }
    assert(resolution_views(resolved) =~= Seq::new(
        tabs.len(),
        |k: int| answer(tabs[k].0).deep_view(),
    ));
}

/// The tabs and resolved groups of resolved entries are their two halves,
/// entry by entry, and the value of a list of resolutions is the list of
/// their values.
pub proof fn lemma_entry_projections(
    entries: Seq<(TabView, Option<Seq<char>>)>,
    resolved: Seq<Option<TabGroupId>>,
)
    ensures
        entry_tabs(entries).len() == entries.len(),
        entry_groups(entries).len() == entries.len(),
        forall|k: int|
            0 <= k < entries.len() ==> #[trigger] entry_tabs(entries)[k] == entries[k].0
                && entry_groups(entries)[k] == entries[k].1,
        resolution_views(resolved).len() == resolved.len(),
        forall|k: int|
            0 <= k < resolved.len() ==> #[trigger] resolution_views(resolved)[k] == match resolved[k] {
                Some(id) => Some(id@),
                None => None,
            },
{
}

/// The value of a partition result is the value of each of its lists, item
/// by item, in order.
pub proof fn lemma_grouped_tabs_value(g: GroupedTabs)
    ensures
        g.deep_view().ungrouped.len() == g.ungrouped@.len(),
        forall|i: int|
            0 <= i < g.ungrouped@.len() ==> #[trigger] g.deep_view().ungrouped[i]
                == g.ungrouped@[i].deep_view(),
        g.deep_view().groups.len() == g.groups@.len(),
        forall|i: int|
            0 <= i < g.groups@.len() ==> #[trigger] g.deep_view().groups[i] == (
            g.groups@[i].0@,
            g.groups@[i].1.deep_view(),
            ),
        g.deep_view().items.len() == g.items@.len(),
        forall|i: int|
            0 <= i < g.items@.len() ==> #[trigger] g.deep_view().items[i] == match g.items@[i] {
                GroupedTabListItem::Ungrouped(t) => GroupedItemView::Ungrouped(t.deep_view()),
                GroupedTabListItem::Group { id, tabs } => GroupedItemView::Group {
                    id: id@,
                    tabs: tabs.deep_view(),
                },
            },
{
}

} // verus!
