//! Projection of the visible-tabs list into ungrouped rows and per-group
//! sections.
//!
//! A group section is emitted at the position of its first visible tab; later
//! tabs of the same group are gathered into that section and are not emitted
//! again at the top level. Groups that no visible tab resolves to are appended
//! after all tabs, in the order of the tab groups, so that a freshly created
//! group stays visible.
use vstd::prelude::*;

use crate::tab_settings::{TabGroupId, TabGroups};

verus! {

/// Identifier of a pane inside a tab.
#[derive(Debug, Clone, Copy, PartialEq, Eq, Hash)]
pub struct PaneId(pub u64);

impl DeepView for PaneId {
    type V = PaneId;

    open spec fn deep_view(&self) -> PaneId {
        *self
    }
}

/// One row of the visible-tabs list: an index into the workspace tabs and,
/// when a search is active, the ids of the panes that matched.
pub type VisibleTab = (usize, Option<Vec<PaneId>>);

/// The mathematical value of a `VisibleTab`.
pub type TabView = (usize, Option<Seq<PaneId>>);

/// One rendered item in the grouped tabs list.
#[derive(Debug, PartialEq)]
pub enum GroupedTabListItem {
    Ungrouped(VisibleTab),
    Group { id: TabGroupId, tabs: Vec<VisibleTab> },
}

/// The mathematical value of a `GroupedTabListItem`.
pub enum GroupedItemView {
    Ungrouped(TabView),
    Group { id: Seq<char>, tabs: Seq<TabView> },
}

impl DeepView for GroupedTabListItem {
    type V = GroupedItemView;

    open spec fn deep_view(&self) -> GroupedItemView {
        match self {
            GroupedTabListItem::Ungrouped(t) => GroupedItemView::Ungrouped(t.deep_view()),
            GroupedTabListItem::Group { id, tabs } => GroupedItemView::Group {
                id: id@,
                tabs: tabs.deep_view(),
            },
        }
    }
}

/// Output of the partition. Indices stay indices into the workspace tabs.
#[derive(Debug, Default, PartialEq)]
pub struct GroupedTabs {
    /// Tabs not assigned to any group, in their visible order.
    pub ungrouped: Vec<VisibleTab>,
    /// The tabs of each group, in the order of the tab groups; groups without
    /// tabs are included.
    pub groups: Vec<(TabGroupId, Vec<VisibleTab>)>,
    /// Top-level render order: ungrouped tabs and group sections interleaved
    /// by the visible order, then the groups without visible tabs.
    pub items: Vec<GroupedTabListItem>,
}

/// The mathematical value of a `GroupedTabs`.
pub struct GroupedTabsView {
    pub ungrouped: Seq<TabView>,
    pub groups: Seq<(Seq<char>, Seq<TabView>)>,
    pub items: Seq<GroupedItemView>,
}

impl DeepView for GroupedTabs {
    type V = GroupedTabsView;

    open spec fn deep_view(&self) -> GroupedTabsView {
        GroupedTabsView {
            ungrouped: self.ungrouped.deep_view(),
            groups: self.groups.deep_view(),
            items: self.items.deep_view(),
        }
    }
}

/// The group a tab is placed in: the resolved group when it is one of the
/// tab groups, otherwise none (a stale id counts as no group).
pub open spec fn effective_group(ids: Seq<Seq<char>>, resolved: Option<Seq<char>>) -> Option<
    Seq<char>,
> {
    match resolved {
        Some(id) => if ids.contains(id) {
            Some(id)
        } else {
            None
        },
        None => None,
    }
}

/// `effective_group` of each resolution.
pub open spec fn effective_groups(ids: Seq<Seq<char>>, resolved: Seq<Option<Seq<char>>>) -> Seq<
    Option<Seq<char>>,
> {
    Seq::new(resolved.len(), |k: int| effective_group(ids, resolved[k]))
}

/// The tabs among the first `n` whose group is none, in order.
pub open spec fn ungrouped_tabs(tabs: Seq<TabView>, eff: Seq<Option<Seq<char>>>, n: int) -> Seq<
    TabView,
>
    decreases n,
{
    if n <= 0 {
        Seq::empty()
    } else if eff[n - 1] is None {
        ungrouped_tabs(tabs, eff, n - 1).push(tabs[n - 1])
    } else {
        ungrouped_tabs(tabs, eff, n - 1)
    }
}

/// The tabs among the first `n` whose group is `id`, in order.
pub open spec fn group_tabs(
    tabs: Seq<TabView>,
    eff: Seq<Option<Seq<char>>>,
    id: Seq<char>,
    n: int,
) -> Seq<TabView>
    decreases n,
{
    if n <= 0 {
        Seq::empty()
    } else if eff[n - 1] == Some(id) {
        group_tabs(tabs, eff, id, n - 1).push(tabs[n - 1])
    } else {
        group_tabs(tabs, eff, id, n - 1)
    }
}

/// Some tab among the first `n` is in group `id`.
pub open spec fn seen_before(eff: Seq<Option<Seq<char>>>, id: Seq<char>, n: int) -> bool {
    exists|j: int| 0 <= j < n && eff[j] == Some(id)
}

/// The items emitted while walking the first `n` tabs: an ungrouped tab gives
/// its own item, the first tab of a group gives the whole section of that
/// group, later tabs of the group give nothing.
pub open spec fn section_items(tabs: Seq<TabView>, eff: Seq<Option<Seq<char>>>, n: int) -> Seq<
    GroupedItemView,
>
    decreases n,
{
    if n <= 0 {
        Seq::empty()
    } else {
        let rest = section_items(tabs, eff, n - 1);
        match eff[n - 1] {
            None => rest.push(GroupedItemView::Ungrouped(tabs[n - 1])),
            Some(id) => if seen_before(eff, id, n - 1) {
                rest
            } else {
                rest.push(GroupedItemView::Group { id: id, tabs: group_tabs(tabs, eff, id, tabs.len() as int) })
            },
        }
    }
}

/// The empty sections appended for the first `m` group ids: one for each id
/// that no tab is in and that does not occur earlier among the ids.
pub open spec fn empty_section_items(ids: Seq<Seq<char>>, eff: Seq<Option<Seq<char>>>, m: int) -> Seq<
    GroupedItemView,
>
    decreases m,
{
    if m <= 0 {
        Seq::empty()
    } else {
        let rest = empty_section_items(ids, eff, m - 1);
        let id = ids[m - 1];
        if seen_before(eff, id, eff.len() as int) || exists|j: int| 0 <= j < m - 1 && ids[j] == id {
            rest
        } else {
            rest.push(GroupedItemView::Group { id: id, tabs: Seq::empty() })
        }
    }
}

/// The partition of `tabs`, whose resolved groups are `resolved`, against
/// the tab groups whose ids are `ids`.
pub open spec fn partition_model(
    tabs: Seq<TabView>,
    ids: Seq<Seq<char>>,
    resolved: Seq<Option<Seq<char>>>,
) -> GroupedTabsView {
    let eff = effective_groups(ids, resolved);
    let n = tabs.len() as int;
    GroupedTabsView {
        ungrouped: ungrouped_tabs(tabs, eff, n),
        groups: Seq::new(ids.len(), |i: int| (ids[i], group_tabs(tabs, eff, ids[i], n))),
        items: section_items(tabs, eff, n) + empty_section_items(ids, eff, ids.len() as int),
    }
}

/// The tabs of resolved entries.
pub open spec fn entry_tabs(entries: Seq<(TabView, Option<Seq<char>>)>) -> Seq<TabView> {
    Seq::new(entries.len(), |k: int| entries[k].0)
}

/// The resolved groups of resolved entries.
pub open spec fn entry_groups(entries: Seq<(TabView, Option<Seq<char>>)>) -> Seq<
    Option<Seq<char>>,
> {
    Seq::new(entries.len(), |k: int| entries[k].1)
}

/// The mathematical value of a sequence of resolutions.
pub open spec fn resolution_views(resolved: Seq<Option<TabGroupId>>) -> Seq<Option<Seq<char>>> {
    Seq::new(resolved.len(), |k: int| resolved[k].deep_view())
}

/// The visible tabs whose index is below `len`, in order.
pub open spec fn tabs_in_range(tabs: Seq<TabView>, len: int) -> Seq<TabView>
    decreases tabs.len(),
{
    if tabs.len() == 0 {
        Seq::empty()
    } else if tabs.last().0 < len {
        tabs_in_range(tabs.drop_last(), len).push(tabs.last())
    } else {
        tabs_in_range(tabs.drop_last(), len)
    }
}

/// A copy of a visible tab, with the same value.
fn copy_visible_tab(t: &VisibleTab) -> (res: VisibleTab)
    ensures
        res.deep_view() == t.deep_view(),
{
    match &t.1 {
        None => (t.0, None),
        Some(panes) => {
            let n = panes.len();
            let mut out: Vec<PaneId> = Vec::new();
            let mut i: usize = 0;
            while i < n
                invariant
                    n == panes@.len(),
                    i <= n,
                    out@ == panes@.take(i as int),
                decreases n - i,
            {
                out.push(panes[i]);
                i += 1;
                assert(out@ =~= panes@.take(i as int));
            }
            assert(out@ =~= panes@);
            let res: VisibleTab = (t.0, Some(out));
            assert(res.1.deep_view() =~= t.1.deep_view()) by {
                assert(out.deep_view() =~= panes.deep_view());
            }
            res
        },
    }
}

/// A copy of a list of visible tabs, with the same value.
fn copy_visible_tabs(tabs: &Vec<VisibleTab>) -> (res: Vec<VisibleTab>)
    ensures
        res.deep_view() == tabs.deep_view(),
{
    let n = tabs.len();
    let mut out: Vec<VisibleTab> = Vec::new();
    let mut i: usize = 0;
    while i < n
        invariant
            n == tabs@.len(),
            i <= n,
            out.deep_view() == tabs.deep_view().take(i as int),
        decreases n - i,
    {
        let t = copy_visible_tab(&tabs[i]);
        let ghost prev = out.deep_view();
        out.push(t);
        i += 1;
        assert(out.deep_view() =~= tabs.deep_view().take(i as int)) by {
            assert(out.deep_view() =~= prev.push(t.deep_view()));
        }
    }
    assert(out.deep_view() =~= tabs.deep_view());
    out
}

impl Clone for GroupedTabListItem {
    fn clone(&self) -> (res: GroupedTabListItem)
        ensures
            res.deep_view() == self.deep_view(),
    {
        match self {
            GroupedTabListItem::Ungrouped(t) => GroupedTabListItem::Ungrouped(copy_visible_tab(t)),
            GroupedTabListItem::Group { id, tabs } => GroupedTabListItem::Group {
                id: id.duplicate(),
                tabs: copy_visible_tabs(tabs),
            },
        }
    }
}

impl Clone for GroupedTabs {
    fn clone(&self) -> (res: GroupedTabs)
        ensures
            res.deep_view() == self.deep_view(),
    {
        let n = self.groups.len();
        let mut groups: Vec<(TabGroupId, Vec<VisibleTab>)> = Vec::new();
        let mut i: usize = 0;
        while i < n
            invariant
                n == self.groups@.len(),
                i <= n,
                groups.deep_view() == self.groups.deep_view().take(i as int),
            decreases n - i,
        {
            let entry = (self.groups[i].0.duplicate(), copy_visible_tabs(&self.groups[i].1));
            let ghost prev = groups.deep_view();
            groups.push(entry);
            i += 1;
            assert(groups.deep_view() =~= self.groups.deep_view().take(i as int)) by {
                assert(groups.deep_view() =~= prev.push(entry.deep_view()));
            }
        }
        let m = self.items.len();
        let mut items: Vec<GroupedTabListItem> = Vec::new();
        let mut i: usize = 0;
        while i < m
            invariant
                m == self.items@.len(),
                i <= m,
                items.deep_view() == self.items.deep_view().take(i as int),
            decreases m - i,
        {
            let item = self.items[i].clone();
            let ghost prev = items.deep_view();
            items.push(item);
            i += 1;
            assert(items.deep_view() =~= self.items.deep_view().take(i as int)) by {
                assert(items.deep_view() =~= prev.push(item.deep_view()));
            }
        }
        let res = GroupedTabs { ungrouped: copy_visible_tabs(&self.ungrouped), groups, items };
        assert(res.groups.deep_view() =~= self.groups.deep_view());
        assert(res.items.deep_view() =~= self.items.deep_view());
        res
    }
}

/// Whether the group of entry `k` is `id`.
fn is_in_group(eff: &Vec<Option<TabGroupId>>, k: usize, id: &TabGroupId) -> (res: bool)
    requires
        k < eff@.len(),
    ensures
        res == (eff.deep_view()[k as int] == Some(id@)),
{
    match &eff[k] {
        Some(g) => g.same_as(id),
        None => false,
    }
}

/// Whether some entry before `n` is in group `id`.
fn seen_before_exec(eff: &Vec<Option<TabGroupId>>, id: &TabGroupId, n: usize) -> (res: bool)
    requires
        n <= eff@.len(),
    ensures
        res == seen_before(eff.deep_view(), id@, n as int),
{
    let mut j: usize = 0;
    while j < n
        invariant
            n <= eff@.len(),
            j <= n,
            forall|i: int| 0 <= i < j ==> eff.deep_view()[i] != Some(id@),
        decreases n - j,
    {
        if is_in_group(eff, j, id) {
            return true;
        }
        j += 1;
    }
    false
}

/// The tabs of the entries in group `id`, in order.
fn collect_group(
    entries: &Vec<(VisibleTab, Option<TabGroupId>)>,
    eff: &Vec<Option<TabGroupId>>,
    id: &TabGroupId,
) -> (res: Vec<VisibleTab>)
    requires
        eff@.len() == entries@.len(),
    ensures
        res.deep_view() == group_tabs(
            entry_tabs(entries.deep_view()),
            eff.deep_view(),
            id@,
            entries@.len() as int,
        ),
{
    let ghost tabs = entry_tabs(entries.deep_view());
    let n = entries.len();
    let mut out: Vec<VisibleTab> = Vec::new();
    let mut k: usize = 0;
    while k < n
        invariant
            n == entries@.len(),
            eff@.len() == n,
            k <= n,
            tabs == entry_tabs(entries.deep_view()),
            out.deep_view() == group_tabs(tabs, eff.deep_view(), id@, k as int),
        decreases n - k,
    {
        if is_in_group(eff, k, id) {
            let t = copy_visible_tab(&entries[k].0);
            let ghost prev = out.deep_view();
            out.push(t);
            assert(out.deep_view() =~= prev.push(tabs[k as int]));
        }
        k += 1;
    }
    out
}

/// Partition of tabs whose groups are already resolved: `entries` pairs each
/// visible tab with the group it resolved to. A resolved group that is not one
/// of `tab_groups` counts as no group. Every entry is kept with its search
/// payload.
pub fn partition_resolved_tabs(
    entries: Vec<(VisibleTab, Option<TabGroupId>)>,
    tab_groups: &TabGroups,
) -> (res: GroupedTabs)
    ensures
        res.deep_view() == partition_model(
            entry_tabs(entries.deep_view()),
            tab_groups.ids(),
            entry_groups(entries.deep_view()),
        ),
{
    let ghost tabs = entry_tabs(entries.deep_view());
    let ghost ids = tab_groups.ids();
    let ghost res0 = entry_groups(entries.deep_view());
    let ghost effs = effective_groups(ids, res0);
    let n = entries.len();

    // The group each entry is placed in.
    let mut eff: Vec<Option<TabGroupId>> = Vec::new();
    let mut k: usize = 0;
    while k < n
        invariant
            n == entries@.len(),
            k <= n,
            ids == tab_groups.ids(),
            res0 == entry_groups(entries.deep_view()),
            effs == effective_groups(ids, res0),
            eff.deep_view() == effs.take(k as int),
        decreases n - k,
    {
        let g: Option<TabGroupId> = match &entries[k].1 {
            Some(id) => if tab_groups.contains(id) {
                Some(id.duplicate())
            } else {
                None
            },
            None => None,
        };
        let ghost prev = eff.deep_view();
        eff.push(g);
        k += 1;
        assert(eff.deep_view() =~= effs.take(k as int)) by {
            assert(eff.deep_view() =~= prev.push(g.deep_view()));
        }
    }
    assert(eff.deep_view() =~= effs);

    // Ungrouped tabs.
    let mut ungrouped: Vec<VisibleTab> = Vec::new();
    let mut k: usize = 0;
    while k < n
        invariant
            n == entries@.len(),
            k <= n,
            tabs == entry_tabs(entries.deep_view()),
            eff.deep_view() == effs,
            effs.len() == n,
            ungrouped.deep_view() == ungrouped_tabs(tabs, effs, k as int),
        decreases n - k,
    {
        if eff[k].is_none() {
            let t = copy_visible_tab(&entries[k].0);
            let ghost prev = ungrouped.deep_view();
            ungrouped.push(t);
            assert(ungrouped.deep_view() =~= prev.push(tabs[k as int]));
        }
        k += 1;
    }

    // One bucket per tab group, in the order of the tab groups.
    let g = tab_groups.0.len();
    let mut groups: Vec<(TabGroupId, Vec<VisibleTab>)> = Vec::new();
    let mut j: usize = 0;
    while j < g
        invariant
            n == entries@.len(),
            g == tab_groups.0@.len(),
            j <= g,
            ids == tab_groups.ids(),
            tabs == entry_tabs(entries.deep_view()),
            eff.deep_view() == effs,
            effs.len() == n,
            groups.deep_view() == Seq::new(
                j as nat,
                |i: int| (ids[i], group_tabs(tabs, effs, ids[i], n as int)),
            ),
        decreases g - j,
    {
        let id = tab_groups.0[j].id.duplicate();
        let bucket = collect_group(&entries, &eff, &id);
        let ghost prev = groups.deep_view();
        groups.push((id, bucket));
        j += 1;
        assert(groups.deep_view() =~= Seq::new(
            j as nat,
            |i: int| (ids[i], group_tabs(tabs, effs, ids[i], n as int)),
        )) by {
            assert(groups.deep_view() =~= prev.push((id@, bucket.deep_view())));
        }
    }

    // Items in visible order: a section at the first tab of each group.
    let mut items: Vec<GroupedTabListItem> = Vec::new();
    let mut k: usize = 0;
    while k < n
        invariant
            n == entries@.len(),
            k <= n,
            tabs == entry_tabs(entries.deep_view()),
            eff.deep_view() == effs,
            effs.len() == n,
            items.deep_view() == section_items(tabs, effs, k as int),
        decreases n - k,
    {
        let ghost prev = items.deep_view();
        match &eff[k] {
            None => {
                let t = copy_visible_tab(&entries[k].0);
                items.push(GroupedTabListItem::Ungrouped(t));
                assert(items.deep_view() =~= prev.push(GroupedItemView::Ungrouped(tabs[k as int])));
            },
            Some(id) => {
                if !seen_before_exec(&eff, id, k) {
                    let bucket = collect_group(&entries, &eff, id);
                    let section = GroupedTabListItem::Group { id: id.duplicate(), tabs: bucket };
                    items.push(section);
                    assert(items.deep_view() =~= prev.push(
                        GroupedItemView::Group { id: id@, tabs: group_tabs(tabs, effs, id@, n as int) },
                    ));
                }
            },
        }
        k += 1;
    }

    // Groups without visible tabs, in the order of the tab groups.
    let ghost entry_part = items.deep_view();
    let mut j: usize = 0;
    while j < g
        invariant
            n == entries@.len(),
            g == tab_groups.0@.len(),
            j <= g,
            ids == tab_groups.ids(),
            eff.deep_view() == effs,
            effs.len() == n,
            items.deep_view() == entry_part + empty_section_items(ids, effs, j as int),
        decreases g - j,
    {
        let id = &tab_groups.0[j].id;
        let ghost prev = items.deep_view();
        let mut earlier = false;
        let mut i: usize = 0;
        while i < j
            invariant
                j < g,
                g == tab_groups.0@.len(),
                ids == tab_groups.ids(),
                i <= j,
                id == tab_groups.0@[j as int].id,
                earlier == exists|l: int| 0 <= l < i && ids[l] == id@,
            decreases j - i,
        {
            assert(ids[i as int] == tab_groups.0@[i as int].id@);
            if tab_groups.0[i].id.same_as(id) {
                earlier = true;
            }
            i += 1;
        }
        let seen = seen_before_exec(&eff, id, n);
        assert(ids[j as int] == id@);
        if !seen && !earlier {
            let no_tabs: Vec<VisibleTab> = Vec::new();
            assert(no_tabs.deep_view() =~= Seq::<TabView>::empty());
            items.push(GroupedTabListItem::Group { id: id.duplicate(), tabs: no_tabs });
            assert(items.deep_view() =~= prev.push(GroupedItemView::Group { id: id@, tabs: Seq::empty() }));
        }
        j += 1;
        assert(items.deep_view() =~= entry_part + empty_section_items(ids, effs, j as int));
    }

    let res = GroupedTabs { ungrouped, groups, items };
    assert(res.deep_view() == partition_model(tabs, ids, res0));
    res
}

/// `out` is the partition of `tabs` for some groups that the resolver
/// returned, one per tab: `returned(i, g)` says that asked for the tab with
/// index `i` the resolver may return `g`.
pub open spec fn is_partition_of(
    out: GroupedTabsView,
    tabs: Seq<TabView>,
    ids: Seq<Seq<char>>,
    returned: spec_fn(usize, Option<TabGroupId>) -> bool,
) -> bool {
    exists|resolved: Seq<Option<TabGroupId>>|
        #![trigger resolution_views(resolved)]
        {
            &&& resolved.len() == tabs.len()
            &&& forall|k: int|
                0 <= k < resolved.len() ==> #[trigger] returned(tabs[k].0, resolved[k])
            &&& out == partition_model(tabs, ids, resolution_views(resolved))
        }
}

/// A partition for the results one resolver may return is one for any
/// resolver that may return at least those results.
pub proof fn lemma_is_partition_weaken(
    out: GroupedTabsView,
    tabs: Seq<TabView>,
    ids: Seq<Seq<char>>,
    returned: spec_fn(usize, Option<TabGroupId>) -> bool,
    wider: spec_fn(usize, Option<TabGroupId>) -> bool,
)
    requires
        is_partition_of(out, tabs, ids, returned),
        forall|k: int, g: Option<TabGroupId>|
            0 <= k < tabs.len() && #[trigger] returned(tabs[k].0, g) ==> wider(tabs[k].0, g),
    ensures
        is_partition_of(out, tabs, ids, wider),
{
    let resolved = choose|resolved: Seq<Option<TabGroupId>>|
        #![trigger resolution_views(resolved)]
        {
            &&& resolved.len() == tabs.len()
            &&& forall|k: int|
                0 <= k < resolved.len() ==> #[trigger] returned(tabs[k].0, resolved[k])
            &&& out == partition_model(tabs, ids, resolution_views(resolved))
        };
    assert forall|k: int| 0 <= k < resolved.len() implies #[trigger] wider(
        tabs[k].0,
        resolved[k],
    ) by {
        assert(returned(tabs[k].0, resolved[k]));
    }
    assert(out == partition_model(tabs, ids, resolution_views(resolved)));
}

/// Every tab kept by `tabs_in_range` has an index below `len` and is one of
/// the given tabs.
pub proof fn lemma_tabs_in_range_members(tabs: Seq<TabView>, len: int)
    ensures
        forall|m: int|
            0 <= m < tabs_in_range(tabs, len).len() ==> (#[trigger] tabs_in_range(tabs, len)[m]).0
                < len && exists|j: int| 0 <= j < tabs.len() && tabs[j] == tabs_in_range(tabs, len)[m],
    decreases tabs.len(),
{
    if tabs.len() > 0 {
        let rest = tabs.drop_last();
        lemma_tabs_in_range_members(rest, len);
        let r = tabs_in_range(tabs, len);
        let r0 = tabs_in_range(rest, len);
        assert forall|m: int| 0 <= m < r.len() implies (#[trigger] r[m]).0 < len && exists|j: int|
            0 <= j < tabs.len() && tabs[j] == r[m] by {
            if m < r0.len() {
                assert(r[m] == r0[m]);
                let j = choose|j: int| 0 <= j < rest.len() && rest[j] == r0[m];
                assert(tabs[j] == r[m]);
            } else {
                assert(r[m] == tabs[tabs.len() - 1]);
            }
        }
    }
}

/// Partition `visible_tabs` into ungrouped tabs and per-group buckets, asking
/// `resolve_group` for the group of each tab by its index.
///
/// Group ids that `resolve_group` returns but that are not among `tab_groups`
/// are treated as no group (a stale reference left after a group is deleted).
/// The result is the partition of the tabs for the groups that the calls
/// returned, one call per visible tab.
pub fn partition_visible_tabs_by_index<F>(
    visible_tabs: Vec<VisibleTab>,
    tab_groups: &TabGroups,
    resolve_group: F,
) -> (res: GroupedTabs) where F: Fn(usize) -> Option<TabGroupId>
    requires
        forall|k: int|
            0 <= k < visible_tabs@.len() ==> call_requires(
                resolve_group,
                (#[trigger] visible_tabs@[k].0,),
            ),
    ensures
        is_partition_of(
            res.deep_view(),
            visible_tabs.deep_view(),
            tab_groups.ids(),
            |i: usize, g: Option<TabGroupId>| call_ensures(resolve_group, (i,), g),
        ),
{
    let n = visible_tabs.len();
    let mut entries: Vec<(VisibleTab, Option<TabGroupId>)> = Vec::new();
    let mut k: usize = 0;
    while k < n
        invariant
            n == visible_tabs@.len(),
            k <= n,
            entries@.len() == k,
            forall|i: int|
                0 <= i < n ==> call_requires(resolve_group, (#[trigger] visible_tabs@[i].0,)),
            forall|i: int|
                0 <= i < k ==> #[trigger] entries@[i].0.deep_view() == visible_tabs@[i].deep_view(),
            forall|i: int|
                0 <= i < k ==> call_ensures(
                    resolve_group,
                    (visible_tabs@[i].0,),
                    #[trigger] entries@[i].1,
                ),
        decreases n - k,
    {
        let t = copy_visible_tab(&visible_tabs[k]);
        let g = resolve_group(visible_tabs[k].0);
        entries.push((t, g));
        k += 1;
    }
    let ghost resolved = Seq::new(n as nat, |i: int| entries@[i].1);
    let ghost tabs = visible_tabs.deep_view();
    proof {
        assert(entry_tabs(entries.deep_view()) =~= tabs);
        assert(entry_groups(entries.deep_view()) =~= resolution_views(resolved));
        let returned = |i: usize, g: Option<TabGroupId>| call_ensures(resolve_group, (i,), g);
        assert forall|i: int| 0 <= i < resolved.len() implies #[trigger] returned(
            tabs[i].0,
            resolved[i],
        ) by {
            assert(resolved[i] == entries@[i].1);
            assert(tabs[i].0 == visible_tabs@[i].0);
        }
    }
    partition_resolved_tabs(entries, tab_groups)
}

/// Partition `visible_tabs` into ungrouped tabs and per-group buckets, asking
/// `resolve_group` for the group of each tab's workspace entry.
///
/// The visible tabs whose index is an index into `workspace_tabs` are kept,
/// in order, and partitioned by index with the resolver that reads the
/// workspace entry and asks `resolve_group`. The result is the partition of
/// the kept tabs for the groups that the calls returned, one call per kept
/// tab.
pub fn partition_visible_tabs<T, F>(
    visible_tabs: Vec<VisibleTab>,
    workspace_tabs: &[T],
    tab_groups: &TabGroups,
    resolve_group: F,
) -> (res: GroupedTabs) where F: Fn(&T) -> Option<TabGroupId>
    requires
        forall|k: int|
            0 <= k < visible_tabs@.len() && visible_tabs@[k].0 < workspace_tabs@.len()
                ==> call_requires(
                resolve_group,
                (&workspace_tabs@[#[trigger] visible_tabs@[k].0 as int],),
            ),
    ensures
        is_partition_of(
            res.deep_view(),
            tabs_in_range(visible_tabs.deep_view(), workspace_tabs@.len() as int),
            tab_groups.ids(),
            |i: usize, g: Option<TabGroupId>|
                call_ensures(resolve_group, (&workspace_tabs@[i as int],), g),
        ),
{
    let ghost all = visible_tabs.deep_view();
    let ghost len = workspace_tabs@.len() as int;
    let n = visible_tabs.len();
    let mut kept: Vec<VisibleTab> = Vec::new();
    let mut k: usize = 0;
    while k < n
        invariant
            n == visible_tabs@.len(),
            k <= n,
            all == visible_tabs.deep_view(),
            len == workspace_tabs@.len(),
            kept.deep_view() == tabs_in_range(all.take(k as int), len),
        decreases n - k,
    {
        let ghost prev = kept.deep_view();
        assert(all.take(k + 1).drop_last() =~= all.take(k as int));
        if visible_tabs[k].0 < workspace_tabs.len() {
            let t = copy_visible_tab(&visible_tabs[k]);
            kept.push(t);
            assert(kept.deep_view() =~= prev.push(all[k as int]));
        }
        k += 1;
    }
    assert(all.take(n as int) =~= all);
    let ghost kept_view = kept.deep_view();
    proof {
        lemma_tabs_in_range_members(all, len);
        assert forall|m: int| 0 <= m < kept@.len() implies (#[trigger] kept@[m].0) < len
            && call_requires(resolve_group, (&workspace_tabs@[kept@[m].0 as int],)) by {
            assert(kept_view[m].0 == kept@[m].0);
            let j = choose|j: int| 0 <= j < all.len() && all[j] == kept_view[m];
            assert(visible_tabs@[j].0 == all[j].0);
        }
    }
    let resolve = &resolve_group;
    let composed = |i: usize| -> (g: Option<TabGroupId>)
        requires
            i < workspace_tabs@.len(),
            call_requires(resolve, (&workspace_tabs@[i as int],)),
        ensures
            call_ensures(resolve, (&workspace_tabs@[i as int],), g),
        { resolve(&workspace_tabs[i]) };
    let res = partition_visible_tabs_by_index(kept, tab_groups, composed);
    proof {
        let by_index = |i: usize, g: Option<TabGroupId>| call_ensures(composed, (i,), g);
        let wanted = |i: usize, g: Option<TabGroupId>|
            call_ensures(resolve_group, (&workspace_tabs@[i as int], ), g);
        assert forall|m: int, g: Option<TabGroupId>|
            0 <= m < kept_view.len() && #[trigger] by_index(kept_view[m].0, g) implies wanted(
            kept_view[m].0,
            g,
        ) by {
            assert(kept_view[m].0 == kept@[m].0);
        }
        lemma_is_partition_weaken(res.deep_view(), kept_view, tab_groups.ids(), by_index, wanted);
    }
    res
}

} // verus!
