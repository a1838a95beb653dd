//! Tab group settings: the groups themselves, and the assignment of
//! directories to groups.
//!
//! A directory is resolved to a group by the *longest* assigned directory that
//! contains it (whole path components), and only then is that assignment
//! interpreted: an `Excluded` child directory therefore shadows a broader
//! `InGroup` parent.
use vstd::prelude::*;

verus! {

/// Identifier of a tab group.
#[derive(Debug, Clone, PartialEq, Eq, Hash)]
pub struct TabGroupId(pub String);

impl View for TabGroupId {
    type V = Seq<char>;

    open spec fn view(&self) -> Seq<char> {
        self.0@
    }
}

impl DeepView for TabGroupId {
    type V = Seq<char>;

    open spec fn deep_view(&self) -> Seq<char> {
        self.0@
    }
}

impl TabGroupId {
    /// A copy of this id, equal to it.
    pub fn duplicate(&self) -> (res: TabGroupId)
        ensures
            res == *self,
    {
        TabGroupId(self.0.clone())
    }

    /// Whether two ids spell the same string.
    pub fn same_as(&self, other: &TabGroupId) -> (res: bool)
        ensures
            res == (self@ == other@),
    {
        self.0 == other.0
    }
}

/// A tab group as the settings hold it.
#[derive(Debug, Clone, PartialEq, Eq)]
pub struct TabGroup {
    pub id: TabGroupId,
    pub name: String,
    pub color: Option<String>,
    pub collapsed: bool,
}

impl TabGroup {
    /// A copy of this group, equal to it.
    pub fn duplicate(&self) -> (res: TabGroup)
        ensures
            res == *self,
    {
        let color = match &self.color {
            Some(c) => Some(c.clone()),
            None => None,
        };
        TabGroup { id: self.id.duplicate(), name: self.name.clone(), color, collapsed: self.collapsed }
    }
}

/// The ids of a list of groups, in order.
pub open spec fn group_ids(groups: Seq<TabGroup>) -> Seq<Seq<char>> {
    Seq::new(groups.len(), |i: int| groups[i].id@)
}

/// `groups` after setting `collapsed` on every group whose id is `id`.
pub open spec fn collapsed_groups(groups: Seq<TabGroup>, id: Seq<char>, collapsed: bool) -> Seq<
    TabGroup,
> {
    Seq::new(
        groups.len(),
        |i: int|
            if groups[i].id@ == id {
                TabGroup { collapsed: collapsed, ..groups[i] }
            } else {
                groups[i]
            },
    )
}

/// The ordered list of tab groups.
#[derive(Debug, Clone, PartialEq, Eq)]
pub struct TabGroups(pub Vec<TabGroup>);

impl View for TabGroups {
    type V = Seq<TabGroup>;

    open spec fn view(&self) -> Seq<TabGroup> {
        self.0@
    }
}

impl Default for TabGroups {
    fn default() -> (res: TabGroups)
        ensures
            res@ == Seq::<TabGroup>::empty(),
    {
        TabGroups(Vec::new())
    }
}

impl TabGroups {
    /// The ids of the groups, in order.
    pub open spec fn ids(&self) -> Seq<Seq<char>> {
        group_ids(self@)
    }

    /// The settings path under which the groups are stored.
    pub fn toml_path() -> (res: Option<&'static str>)
        ensures
            res matches Some(p) && p@ == "appearance.tabs.tab_groups"@,
    {
        Some("appearance.tabs.tab_groups")
    }

    /// Whether some group has the id `id`.
    pub fn contains(&self, id: &TabGroupId) -> (res: bool)
        ensures
            res == self.ids().contains(id@),
            res == exists|i: int| 0 <= i < self@.len() && self@[i].id@ == id@,
    {
        let n = self.0.len();
        let mut i: usize = 0;
        while i < n
            invariant
                n == self.0@.len(),
                i <= n,
                forall|j: int| 0 <= j < i ==> self.0@[j].id@ != id@,
            decreases n - i,
        {
            if self.0[i].id.same_as(id) {
                assert(self.ids()[i as int] == id@);
                return true;
            }
            i += 1;
        }
        assert(!self.ids().contains(id@)) by {
            if self.ids().contains(id@) {
                let j = choose|j: int| 0 <= j < self.ids().len() && self.ids()[j] == id@;
                assert(self.0@[j].id@ == id@);
            }
        }
        false
    }

    /// The first group whose id is `id`, if any.
    pub fn get(&self, id: &TabGroupId) -> (res: Option<&TabGroup>)
        ensures
            res is None <==> !self.ids().contains(id@),
            res matches Some(g) ==> exists|i: int|
                0 <= i < self@.len() && self@[i] == *g && self@[i].id@ == id@ && forall|j: int|
                    0 <= j < i ==> self@[j].id@ != id@,
    {
        let n = self.0.len();
        let mut i: usize = 0;
        while i < n
            invariant
                n == self.0@.len(),
                i <= n,
                forall|j: int| 0 <= j < i ==> self.0@[j].id@ != id@,
            decreases n - i,
        {
            if self.0[i].id.same_as(id) {
                assert(self.ids()[i as int] == id@);
                return Some(&self.0[i]);
            }
            i += 1;
        }
        assert(!self.ids().contains(id@)) by {
            if self.ids().contains(id@) {
                let j = choose|j: int| 0 <= j < self.ids().len() && self.ids()[j] == id@;
                assert(self.0@[j].id@ == id@);
            }
        }
        None
    }

    /// A copy of the groups in which every group with id `id` has its
    /// `collapsed` flag set to `collapsed`; the other groups are unchanged.
    pub fn with_collapsed(&self, id: &TabGroupId, collapsed: bool) -> (res: TabGroups)
        ensures
            res@ == collapsed_groups(self@, id@, collapsed),
            !self.ids().contains(id@) ==> res@ == self@,
            res@.len() == self@.len(),
            forall|i: int|
                0 <= i < self@.len() ==> (#[trigger] res@[i]).id == self@[i].id && res@[i].name
                    == self@[i].name && res@[i].color == self@[i].color && res@[i].collapsed == (
                if self@[i].id@ == id@ {
                    collapsed
                } else {
                    self@[i].collapsed
                }),
    {
        let n = self.0.len();
        let mut out: Vec<TabGroup> = Vec::new();
        let mut i: usize = 0;
        while i < n
            invariant
                n == self.0@.len(),
                i <= n,
                out@ == collapsed_groups(self@, id@, collapsed).take(i as int),
            decreases n - i,
        {
            let mut g = self.0[i].duplicate();
            if g.id.same_as(id) {
                g.collapsed = collapsed;
            }
            out.push(g);
            i += 1;
            assert(out@ =~= collapsed_groups(self@, id@, collapsed).take(i as int));
        }
        assert(out@ =~= collapsed_groups(self@, id@, collapsed));
        proof {
            if !self.ids().contains(id@) {
                assert forall|j: int| 0 <= j < n implies out@[j] == self@[j] by {
                    assert(self.ids()[j] == self@[j].id@);
                }
                assert(out@ =~= self@);
            }
        }
        TabGroups(out)
    }
}

/// Where the tabs of one directory go.
#[derive(Debug, Clone, PartialEq, Eq)]
pub enum TabGroupAssignment {
    /// Tabs in the directory (and below it) belong to this group.
    InGroup(TabGroupId),
    /// Tabs in the directory (and below it) are not grouped.
    Excluded,
}

impl TabGroupAssignment {
    /// A copy of this assignment, equal to it.
    pub fn duplicate(&self) -> (res: TabGroupAssignment)
        ensures
            res == *self,
    {
        match self {
            TabGroupAssignment::InGroup(id) => TabGroupAssignment::InGroup(id.duplicate()),
            TabGroupAssignment::Excluded => TabGroupAssignment::Excluded,
        }
    }
}

/// The group an assignment puts tabs in, if any.
pub open spec fn assignment_group(a: TabGroupAssignment) -> Option<TabGroupId> {
    match a {
        TabGroupAssignment::InGroup(id) => Some(id),
        TabGroupAssignment::Excluded => None,
    }
}

/// The assignment of the last entry whose key is `key`.
pub open spec fn lookup_entry(entries: Seq<(String, TabGroupAssignment)>, key: Seq<char>) -> Option<
    TabGroupAssignment,
>
    decreases entries.len(),
{
    if entries.len() == 0 {
        None
    } else if entries.last().0@ == key {
        Some(entries.last().1)
    } else {
        lookup_entry(entries.drop_last(), key)
    }
}

/// The entries whose key is not `key`, in order.
pub open spec fn entries_without(entries: Seq<(String, TabGroupAssignment)>, key: Seq<char>) -> Seq<
    (String, TabGroupAssignment),
>
    decreases entries.len(),
{
    if entries.len() == 0 {
        Seq::empty()
    } else if entries.last().0@ == key {
        entries_without(entries.drop_last(), key)
    } else {
        entries_without(entries.drop_last(), key).push(entries.last())
    }
}

/// The directory `key` is `dir` itself or a directory above it: `key` is a
/// prefix of `dir` that ends at a path separator `/`. Keys and directories
/// are compared as strings, character by character: nothing is normalised,
/// so `/a/b/` does not cover `/a/b`, and `/a//b` covers only what starts with
/// `/a//b`.
pub open spec fn covers(key: Seq<char>, dir: Seq<char>) -> bool {
    ||| key == dir
    ||| {
        &&& key.len() < dir.len()
        &&& dir.take(key.len() as int) == key
        &&& (dir[key.len() as int] == '/' || (key.len() > 0 && key.last() == '/'))
    }
}

/// `key` is an assigned directory covering `dir`, and no assigned directory
/// covering `dir` is longer.
pub open spec fn is_longest_cover(
    m: Map<Seq<char>, TabGroupAssignment>,
    dir: Seq<char>,
    key: Seq<char>,
) -> bool {
    &&& m.dom().contains(key)
    &&& covers(key, dir)
    &&& forall|k: Seq<char>| #[trigger]
        m.dom().contains(k) && covers(k, dir) ==> k.len() <= key.len()
}

/// The group that `dir` resolves to: the assignment of the longest assigned
/// directory covering `dir`, interpreted; `None` when no assigned directory
/// covers `dir`.
pub open spec fn resolve_directory(m: Map<Seq<char>, TabGroupAssignment>, dir: Seq<char>) -> Option<
    TabGroupId,
> {
    if exists|k: Seq<char>| is_longest_cover(m, dir, k) {
        assignment_group(m[choose|k: Seq<char>| is_longest_cover(m, dir, k)])
    } else {
        None
    }
}

/// Directory assignments, keyed by directory path. Where a key occurs more
/// than once the last entry counts, as in a map built from the entries. Two
/// values are `==` when they send the same directories to the same places,
/// whatever the order of their entries.
#[derive(Debug, Clone, Eq)]
pub struct TabGroupAssignments(pub Vec<(String, TabGroupAssignment)>);

impl View for TabGroupAssignments {
    type V = Map<Seq<char>, TabGroupAssignment>;

    open spec fn view(&self) -> Map<Seq<char>, TabGroupAssignment> {
        Map::new(
            |k: Seq<char>| lookup_entry(self.0@, k) is Some,
            |k: Seq<char>| lookup_entry(self.0@, k)->0,
        )
    }
}

impl Default for TabGroupAssignments {
    fn default() -> (res: TabGroupAssignments)
        ensures
            res@ == Map::<Seq<char>, TabGroupAssignment>::empty(),
    {
        let res = TabGroupAssignments(Vec::new());
        assert(res@ =~= Map::<Seq<char>, TabGroupAssignment>::empty());
        res
    }
}

/// The characters of a string, as a vector.
fn chars_of(s: &str) -> (res: Vec<char>)
    ensures
        res@ == s@,
{
    let mut res: Vec<char> = Vec::new();
    for c in it: s.chars()
        invariant
            it.seq() == s@,
            res@ == s@.take(it.index() as int),
    {
        res.push(c);
        assert(res@ =~= s@.take(it.index() as int + 1));
    }
    assert(res@ =~= s@);
    res
}

/// Whether `key` covers `dir`, on their characters.
fn covers_exec(key: &Vec<char>, dir: &Vec<char>) -> (res: bool)
    ensures
        res == covers(key@, dir@),
{
    let kl = key.len();
    let dl = dir.len();
    if kl > dl {
        return false;
    }
    let mut i: usize = 0;
    while i < kl
        invariant
            kl == key@.len(),
            dl == dir@.len(),
            kl <= dl,
            i <= kl,
            forall|j: int| 0 <= j < i ==> key@[j] == dir@[j],
        decreases kl - i,
    {
        if key[i] != dir[i] {
            assert(key@ != dir@);
            assert(dir@.take(kl as int)[i as int] != key@[i as int]);
            return false;
        }
        i += 1;
    }
    assert(dir@.take(kl as int) =~= key@);
    if kl == dl {
        assert(key@ =~= dir@);
        true
    } else if dir[kl] == '/' {
        true
    } else {
        kl > 0 && key[kl - 1] == '/'
    }
}

/// A key that covers `dir` is the prefix of `dir` of its own length.
pub proof fn lemma_cover_is_prefix(key: Seq<char>, dir: Seq<char>)
    requires
        covers(key, dir),
    ensures
        key.len() <= dir.len(),
        key == dir.take(key.len() as int),
{
    if key == dir {
        assert(dir.take(key.len() as int) =~= dir);
    }
}

/// Two assigned directories that both cover `dir` with the greatest length are
/// the same directory: the resolution of a directory does not depend on any
/// tie-break.
pub proof fn lemma_longest_cover_unique(
    m: Map<Seq<char>, TabGroupAssignment>,
    dir: Seq<char>,
    k1: Seq<char>,
    k2: Seq<char>,
)
    requires
        is_longest_cover(m, dir, k1),
        is_longest_cover(m, dir, k2),
    ensures
        k1 == k2,
{
    lemma_cover_is_prefix(k1, dir);
    lemma_cover_is_prefix(k2, dir);
    assert(m.dom().contains(k2) && covers(k2, dir));
    assert(m.dom().contains(k1) && covers(k1, dir));
}

/// When `key` is an assigned directory covering `dir` and no longer assigned
/// directory covers `dir`, `dir` resolves to the assignment of `key`: the
/// nearest assigned directory decides, whether it names a group or excludes.
pub proof fn lemma_nearest_assignment_decides(
    m: Map<Seq<char>, TabGroupAssignment>,
    dir: Seq<char>,
    key: Seq<char>,
)
    requires
        m.dom().contains(key),
        covers(key, dir),
        forall|k: Seq<char>| #[trigger] m.dom().contains(k) && covers(k, dir) ==> k.len() <= key.len(),
    ensures
        resolve_directory(m, dir) == assignment_group(m[key]),
{
    assert(is_longest_cover(m, dir, key));
    let c = choose|k: Seq<char>| is_longest_cover(m, dir, k);
    lemma_longest_cover_unique(m, dir, c, key);
}

/// A directory that no assigned directory covers is not in any group.
pub proof fn lemma_uncovered_directory_is_ungrouped(
    m: Map<Seq<char>, TabGroupAssignment>,
    dir: Seq<char>,
)
    requires
        forall|k: Seq<char>| #[trigger] m.dom().contains(k) ==> !covers(k, dir),
    ensures
        resolve_directory(m, dir) is None,
{
}

/// After assigning `dir` itself, `dir` resolves to exactly that assignment,
/// whatever else is assigned.
pub proof fn lemma_assigned_directory_resolves_to_assignment(
    m: Map<Seq<char>, TabGroupAssignment>,
    dir: Seq<char>,
    assignment: TabGroupAssignment,
)
    ensures
        resolve_directory(m.insert(dir, assignment), dir) == assignment_group(assignment),
{
    let m2 = m.insert(dir, assignment);
    assert forall|k: Seq<char>| #[trigger]
        m2.dom().contains(k) && covers(k, dir) implies k.len() <= dir.len() by {
        lemma_cover_is_prefix(k, dir);
    }
    assert(is_longest_cover(m2, dir, dir));
    lemma_nearest_assignment_decides(m2, dir, dir);
}

/// For an entry that no later entry shares its key with, `lookup_entry` finds
/// that entry's assignment.
proof fn lemma_lookup_entry(entries: Seq<(String, TabGroupAssignment)>, i: int)
    requires
        0 <= i < entries.len(),
        forall|j: int| i < j < entries.len() ==> entries[j].0@ != entries[i].0@,
    ensures
        lookup_entry(entries, entries[i].0@) == Some(entries[i].1),
    decreases entries.len(),
{
    if i < entries.len() - 1 {
        lemma_lookup_entry(entries.drop_last(), i);
    }
}

/// `lookup_entry` only finds keys that some entry has.
proof fn lemma_lookup_entry_some(entries: Seq<(String, TabGroupAssignment)>, key: Seq<char>)
    requires
        lookup_entry(entries, key) is Some,
    ensures
        exists|j: int| 0 <= j < entries.len() && entries[j].0@ == key,
    decreases entries.len(),
{
    if entries.last().0@ != key {
        lemma_lookup_entry_some(entries.drop_last(), key);
        let j = choose|j: int| 0 <= j < entries.len() - 1 && entries.drop_last()[j].0@ == key;
        assert(entries[j].0@ == key);
    } else {
        assert(entries[entries.len() - 1].0@ == key);
    }
}

proof fn lemma_lookup_entry_none(entries: Seq<(String, TabGroupAssignment)>, key: Seq<char>)
    requires
        forall|j: int| 0 <= j < entries.len() ==> entries[j].0@ != key,
    ensures
        lookup_entry(entries, key) is None,
    decreases entries.len(),
{
    if entries.len() > 0 {
        assert(entries[entries.len() - 1].0@ != key);
        lemma_lookup_entry_none(entries.drop_last(), key);
    }
}

/// The position of the last entry whose key is `key`, if any.
fn last_entry_with(entries: &Vec<(String, TabGroupAssignment)>, key: &String) -> (res: Option<
    usize,
>)
    ensures
        res is None ==> lookup_entry(entries@, key@) is None && forall|j: int|
            0 <= j < entries@.len() ==> entries@[j].0@ != key@,
        res matches Some(i) ==> i < entries@.len() && entries@[i as int].0@ == key@ && lookup_entry(
            entries@,
            key@,
        ) == Some(entries@[i as int].1),
{
    let n = entries.len();
    let mut i: usize = n;
    while i > 0
        invariant
            n == entries@.len(),
            i <= n,
            forall|j: int| i <= j < n ==> entries@[j].0@ != key@,
        decreases i,
    {
        if entries[i - 1].0 == *key {
            proof {
                lemma_lookup_entry(entries@, i - 1);
            }
            return Some(i - 1);
        }
        i -= 1;
    }
    proof {
        lemma_lookup_entry_none(entries@, key@);
    }
    None
}

/// Whether two assignments send tabs to the same place.
fn same_destination(a: &TabGroupAssignment, b: &TabGroupAssignment) -> (res: bool)
    ensures
        res == (assignment_group(*a).deep_view() == assignment_group(*b).deep_view()),
{
    match (a, b) {
        (TabGroupAssignment::InGroup(x), TabGroupAssignment::InGroup(y)) => x.same_as(y),
        (TabGroupAssignment::Excluded, TabGroupAssignment::Excluded) => true,
        _ => false,
    }
}

impl TabGroupAssignments {
    /// Where each assigned directory sends its tabs: the id of its group, or
    /// none for an exclusion.
    pub open spec fn destinations(&self) -> Map<Seq<char>, Option<Seq<char>>> {
        Map::new(
            |k: Seq<char>| lookup_entry(self.0@, k) is Some,
            |k: Seq<char>| assignment_group(lookup_entry(self.0@, k)->0).deep_view(),
        )
    }

    /// Every directory assigned here is assigned in `other` too, and sends its
    /// tabs to the same place there.
    pub open spec fn destinations_within(&self, other: &TabGroupAssignments) -> bool {
        forall|k: Seq<char>| #[trigger]
            self.destinations().dom().contains(k) ==> other.destinations().dom().contains(k)
                && other.destinations()[k] == self.destinations()[k]
    }

    /// Whether every directory assigned here is assigned in `other` to the same
    /// place.
    fn destinations_within_exec(&self, other: &TabGroupAssignments) -> (res: bool)
        ensures
            res == self.destinations_within(other),
    {
        let n = self.0.len();
        let mut i: usize = 0;
        while i < n
            invariant
                n == self.0@.len(),
                i <= n,
                forall|j: int|
                    0 <= j < i ==> other.destinations().dom().contains(#[trigger] self.0@[j].0@)
                        && other.destinations()[self.0@[j].0@] == self.destinations()[self.0@[j].0@],
            decreases n - i,
        {
            let key = &self.0[i].0;
            let mine = last_entry_with(&self.0, key);
            let theirs = last_entry_with(&other.0, key);
            match (mine, theirs) {
                (Some(a), Some(b)) => {
                    if !same_destination(&self.0[a].1, &other.0[b].1) {
                        assert(self.destinations().dom().contains(key@));
                        return false;
                    }
                },
                _ => {
                    assert(self.destinations().dom().contains(key@));
                    return false;
                },
            }
            i += 1;
        }
        assert forall|k: Seq<char>| #[trigger]
            self.destinations().dom().contains(k) implies other.destinations().dom().contains(k)
            && other.destinations()[k] == self.destinations()[k] by {
            lemma_lookup_entry_some(self.0@, k);
            let j = choose|j: int| 0 <= j < self.0@.len() && self.0@[j].0@ == k;
            assert(other.destinations().dom().contains(self.0@[j].0@));
        }
        true
    }
}

impl PartialEq for TabGroupAssignments {
    fn eq(&self, other: &TabGroupAssignments) -> (res: bool) {
        let res = self.destinations_within_exec(other) && other.destinations_within_exec(self);
        proof {
            if res {
                assert(self.destinations() =~= other.destinations());
            }
        }
        res
    }
}

impl vstd::std_specs::cmp::PartialEqSpecImpl for TabGroupAssignments {
    open spec fn obeys_eq_spec() -> bool {
        true
    }

    open spec fn eq_spec(&self, other: &TabGroupAssignments) -> bool {
        self.destinations() == other.destinations()
    }
}

/// The value of an id is its string, and the value of a list of groups is
/// the groups in order.
pub proof fn lemma_values(id: TabGroupId, groups: TabGroups)
    ensures
        id@ == id.0@,
        groups@ == groups.0@,
{
}

/// Every directory covers itself.
pub proof fn lemma_cover_reflexive(dir: Seq<char>)
    ensures
        covers(dir, dir),
{
}

/// A directory covers every longer path that starts with it at a path
/// boundary: followed by a separator, or itself ending in one.
pub proof fn lemma_cover_at_separator(key: Seq<char>, dir: Seq<char>)
    requires
        key.len() < dir.len(),
        dir.take(key.len() as int) == key,
        dir[key.len() as int] == '/' || (key.len() > 0 && key.last() == '/'),
    ensures
        covers(key, dir),
{
}

/// A directory covers only itself and paths that start with it at a path
/// boundary: `/p/app` does not cover `/p/apple`.
pub proof fn lemma_cover_only_at_separator(key: Seq<char>, dir: Seq<char>)
    requires
        covers(key, dir),
        key != dir,
    ensures
        key.len() < dir.len(),
        dir.take(key.len() as int) == key,
        dir[key.len() as int] == '/' || (key.len() > 0 && key.last() == '/'),
{
}

/// `InGroup(id)` puts tabs in group `id`; `Excluded` puts them in none.
pub proof fn lemma_assignment_meaning(id: TabGroupId)
    ensures
        assignment_group(TabGroupAssignment::InGroup(id)) == Some(id),
        assignment_group(TabGroupAssignment::Excluded) is None,
{
}

/// The table maps each directory that has an entry to the assignment of its
/// last entry, and has no other directories.
pub proof fn lemma_table_is_last_entry_per_key(a: TabGroupAssignments, i: int)
    requires
        0 <= i < a.0@.len(),
        forall|j: int| i < j < a.0@.len() ==> a.0@[j].0@ != a.0@[i].0@,
    ensures
        a@.dom().contains(a.0@[i].0@),
        a@[a.0@[i].0@] == a.0@[i].1,
        forall|k: Seq<char>| #[trigger] a@.dom().contains(k) ==> exists|j: int|
            0 <= j < a.0@.len() && a.0@[j].0@ == k,
{
    lemma_lookup_entry(a.0@, i);
    assert forall|k: Seq<char>| #[trigger] a@.dom().contains(k) implies exists|j: int|
        0 <= j < a.0@.len() && a.0@[j].0@ == k by {
        lemma_lookup_entry_some(a.0@, k);
    }
}

/// Coverage passes down: a directory covering `dir` covers every directory
/// below `dir`, however deep.
pub proof fn lemma_cover_extends(key: Seq<char>, dir: Seq<char>, rest: Seq<char>)
    requires
        covers(key, dir),
    ensures
        covers(key, dir + seq!['/'] + rest),
{
    let sub = dir + seq!['/'] + rest;
    lemma_cover_is_prefix(key, dir);
    assert(sub.take(dir.len() as int) =~= dir);
    assert(sub.take(key.len() as int) =~= dir.take(key.len() as int));
    if key == dir {
        assert(sub[key.len() as int] == '/');
    } else {
        assert(sub[key.len() as int] == dir[key.len() as int]);
    }
}

/// A directory below `dir` resolves as `dir` does when every assigned
/// directory covering it covers `dir` too: assignments are inherited by
/// subdirectories until a nearer assignment overrides them.
pub proof fn lemma_subdirectory_inherits_group(
    m: Map<Seq<char>, TabGroupAssignment>,
    dir: Seq<char>,
    rest: Seq<char>,
)
    requires
        forall|k: Seq<char>| #[trigger]
            m.dom().contains(k) && covers(k, dir + seq!['/'] + rest) ==> covers(k, dir),
    ensures
        resolve_directory(m, dir + seq!['/'] + rest) == resolve_directory(m, dir),
{
    let sub = dir + seq!['/'] + rest;
    assert forall|k: Seq<char>| is_longest_cover(m, sub, k) <==> is_longest_cover(m, dir, k) by {
        assert forall|k2: Seq<char>| #[trigger] m.dom().contains(k2) implies (covers(k2, sub)
            <==> covers(k2, dir)) by {
            if covers(k2, dir) {
                lemma_cover_extends(k2, dir, rest);
            }
        }
    }
    if exists|k: Seq<char>| is_longest_cover(m, dir, k) {
        let k = choose|k: Seq<char>| is_longest_cover(m, dir, k);
        lemma_nearest_assignment_decides(m, dir, k);
        lemma_nearest_assignment_decides(m, sub, k);
    }
}

/// The destinations of a table are those of every assigned directory,
/// exclusions included: where its assignment sends tabs.
pub proof fn lemma_destinations_of_every_assignment(a: TabGroupAssignments)
    ensures
        a.destinations().dom() == a@.dom(),
        forall|k: Seq<char>| #[trigger]
            a@.dom().contains(k) ==> a.destinations()[k] == assignment_group(a@[k]).deep_view(),
{
    assert(a.destinations().dom() =~= a@.dom());
}

/// Tables that are `==` resolve every directory to the same group.
pub proof fn lemma_equal_tables_resolve_alike(a: TabGroupAssignments, b: TabGroupAssignments, dir: Seq<char>)
    requires
        a.destinations() == b.destinations(),
    ensures
        resolve_directory(a@, dir).deep_view() == resolve_directory(b@, dir).deep_view(),
{
    lemma_destinations_of_every_assignment(a);
    lemma_destinations_of_every_assignment(b);
    assert(a@.dom() == b@.dom());
    assert forall|k: Seq<char>| is_longest_cover(a@, dir, k) <==> is_longest_cover(b@, dir, k) by {
        assert forall|k2: Seq<char>| #[trigger] a@.dom().contains(k2) <==> b@.dom().contains(k2) by {
        }
    }
    if exists|k: Seq<char>| is_longest_cover(a@, dir, k) {
        let k = choose|k: Seq<char>| is_longest_cover(a@, dir, k);
        lemma_nearest_assignment_decides(a@, dir, k);
        lemma_nearest_assignment_decides(b@, dir, k);
        assert(a.destinations()[k] == b.destinations()[k]);
    }
}

impl TabGroupAssignments {
    /// The settings path under which the assignments are stored.
    pub fn toml_path() -> (res: Option<&'static str>)
        ensures
            res matches Some(p) && p@ == "appearance.tabs.tab_group_assignments"@,
    {
        Some("appearance.tabs.tab_group_assignments")
    }

    /// The group that tabs in `dir` belong to: the assignment of the longest
    /// assigned directory that covers `dir`, read only after it is chosen, so
    /// that an `Excluded` child shadows a broader `InGroup` parent. `None` when
    /// no assigned directory covers `dir`. Directories are matched as strings
    /// (see `covers`), not as normalised path components: callers pass keys
    /// and directories in the same canonical form.
    pub fn group_for_directory(&self, dir: &str) -> (res: Option<TabGroupId>)
        ensures
            res == resolve_directory(self@, dir@),
    {
        let d = chars_of(dir);
        let n = self.0.len();
        let mut best: Option<usize> = None;
        let mut best_len: usize = 0;
        let mut i: usize = 0;
        while i < n
            invariant
                n == self.0@.len(),
                i <= n,
                d@ == dir@,
                match best {
                    Some(b) => {
                        &&& b < i
                        &&& covers(self.0@[b as int].0@, dir@)
                        &&& best_len == self.0@[b as int].0@.len()
                        &&& forall|j: int|
                            0 <= j < i && covers(#[trigger] self.0@[j].0@, dir@) ==> self.0@[j].0@.len()
                                <= best_len
                        &&& forall|j: int|
                            b < j < i && covers(#[trigger] self.0@[j].0@, dir@) ==> self.0@[j].0@.len()
                                < best_len
                    },
                    None => forall|j: int| 0 <= j < i ==> !covers(#[trigger] self.0@[j].0@, dir@),
                },
            decreases n - i,
        {
            let k = chars_of(self.0[i].0.as_str());
            if covers_exec(&k, &d) {
                let kl = k.len();
                if best.is_none() || kl >= best_len {
                    best = Some(i);
                    best_len = kl;
                }
            }
            i += 1;
        }
        match best {
            None => {
                proof {
                    assert forall|k: Seq<char>| #[trigger] self@.dom().contains(k) implies !covers(
                        k,
                        dir@,
                    ) by {
                        lemma_lookup_entry_some(self.0@, k);
                    }
                    lemma_uncovered_directory_is_ungrouped(self@, dir@);
                }
                None
            },
            Some(b) => {
                proof {
                    let key = self.0@[b as int].0@;
                    assert forall|j: int| b < j < n implies self.0@[j].0@ != key by {
                        if self.0@[j].0@ == key {
                            assert(covers(self.0@[j].0@, dir@));
                        }
                    }
                    lemma_lookup_entry(self.0@, b as int);
                    assert(self@.dom().contains(key));
                    assert forall|k: Seq<char>| #[trigger]
                        self@.dom().contains(k) && covers(k, dir@) implies k.len() <= key.len() by {
                        lemma_lookup_entry_some(self.0@, k);
                        let j = choose|j: int| 0 <= j < self.0@.len() && self.0@[j].0@ == k;
                        assert(covers(self.0@[j].0@, dir@));
                    }
                    assert(is_longest_cover(self@, dir@, key));
                    lemma_nearest_assignment_decides(self@, dir@, key);
                }
                match &self.0[b].1 {
                    TabGroupAssignment::InGroup(id) => Some(id.duplicate()),
                    TabGroupAssignment::Excluded => None,
                }
            },
        }
    }

    /// A copy of the assignments in which `dir` is assigned `assignment`,
    /// replacing any earlier assignment of `dir`.
    pub fn with_assignment(&self, dir: &str, assignment: TabGroupAssignment) -> (res:
        TabGroupAssignments)
        ensures
            res@ == self@.insert(dir@, assignment),
            res.0@.drop_last() == entries_without(self.0@, dir@),
            res.0@.len() > 0 && res.0@.last().0@ == dir@ && res.0@.last().1 == assignment,
    {
        let key = dir.to_owned();
        let n = self.0.len();
        let mut out: Vec<(String, TabGroupAssignment)> = Vec::new();
        let mut i: usize = 0;
        while i < n
            invariant
                n == self.0@.len(),
                i <= n,
                key@ == dir@,
                forall|k: Seq<char>|
                    k != dir@ ==> #[trigger] lookup_entry(out@, k) == lookup_entry(
                        self.0@.take(i as int),
                        k,
                    ),
                lookup_entry(out@, dir@) is None,
                out@ == entries_without(self.0@.take(i as int), dir@),
            decreases n - i,
        {
            let ghost prev = out@;
            let same = self.0[i].0 == key;
            assert(same == (self.0@[i as int].0@ == dir@));
            if !same {
                out.push((self.0[i].0.clone(), self.0[i].1.duplicate()));
            }
            proof {
                let t1 = self.0@.take(i + 1);
                assert(t1.drop_last() =~= self.0@.take(i as int));
                assert(t1.last() == self.0@[i as int]);
                if !same {
                    assert(out@.drop_last() =~= prev);
                }
                assert forall|k: Seq<char>| k != dir@ implies #[trigger] lookup_entry(out@, k)
                    == lookup_entry(t1, k) by {
                    assert(lookup_entry(prev, k) == lookup_entry(self.0@.take(i as int), k));
                    if !same {
                        assert(out@.last() == self.0@[i as int]);
                        assert(lookup_entry(out@, k) == if out@.last().0@ == k {
                            Some(out@.last().1)
                        } else {
                            lookup_entry(out@.drop_last(), k)
                        });
                    }
                    assert(lookup_entry(t1, k) == if t1.last().0@ == k {
                        Some(t1.last().1)
                    } else {
                        lookup_entry(t1.drop_last(), k)
                    });
                }
            }
            i += 1;
        }
        assert(self.0@.take(n as int) =~= self.0@);
        let ghost prev = out@;
        out.push((key, assignment));
        let res = TabGroupAssignments(out);
        proof {
            assert(out@.drop_last() =~= prev);
            assert forall|k: Seq<char>| #[trigger]
                lookup_entry(out@, k) == if k == dir@ {
                    Some(assignment)
                } else {
                    lookup_entry(self.0@, k)
                } by {
                assert(out@.last() == (key, assignment));
                assert(lookup_entry(out@, k) == if out@.last().0@ == k {
                    Some(out@.last().1)
                } else {
                    lookup_entry(out@.drop_last(), k)
                });
                if k != dir@ {
                    assert(lookup_entry(prev, k) == lookup_entry(self.0@.take(n as int), k));
                }
            }
            assert(res@ =~= self@.insert(dir@, assignment));
        }
        res
    }
}

/// The setting that titles a tab by the latest user prompt of its
/// conversation.
pub struct UseLatestUserPromptAsConversationTitleInTabNames;

impl UseLatestUserPromptAsConversationTitleInTabNames {
    /// The full settings path of this setting.
    pub fn toml_path() -> (res: Option<&'static str>)
        ensures
            res matches Some(p) && p@ == "appearance.vertical_tabs.use_latest_prompt_as_title"@,
    {
        Some("appearance.vertical_tabs.use_latest_prompt_as_title")
    }

    /// The settings table that holds this setting.
    pub fn hierarchy() -> (res: Option<&'static str>)
        ensures
            res matches Some(p) && p@ == "appearance.vertical_tabs"@,
    {
        Some("appearance.vertical_tabs")
    }

    /// The key of this setting in its table.
    pub fn toml_key() -> (res: &'static str)
        ensures
            res@ == "use_latest_prompt_as_title"@,
    {
        "use_latest_prompt_as_title"
    }
}

/// The setting that shows the vertical tab panel in restored windows.
pub struct ShowVerticalTabPanelInRestoredWindows;

impl ShowVerticalTabPanelInRestoredWindows {
    /// The full settings path of this setting.
    pub fn toml_path() -> (res: Option<&'static str>)
        ensures
            res matches Some(p) && p@ == "appearance.vertical_tabs.show_panel_in_restored_windows"@,
    {
        Some("appearance.vertical_tabs.show_panel_in_restored_windows")
    }

    /// The settings table that holds this setting.
    pub fn hierarchy() -> (res: Option<&'static str>)
        ensures
            res matches Some(p) && p@ == "appearance.vertical_tabs"@,
    {
        Some("appearance.vertical_tabs")
    }

    /// The key of this setting in its table.
    pub fn toml_key() -> (res: &'static str)
        ensures
            res@ == "show_panel_in_restored_windows"@,
    {
        "show_panel_in_restored_windows"
    }
}

} // verus!
