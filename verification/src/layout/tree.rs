use vstd::prelude::*;

verus! {

/// The kinds of panel that a tab can show.
#[derive(Clone, Copy, PartialEq, Eq, Debug, Structural)]
pub enum PanelType {
    Preview,
    /// Kept so that saved layouts from older versions still load.
    SceneEditor,
    AudioMixer,
    StreamControls,
    Sources,
    Scenes,
    Properties,
    Library,
}

pub open spec fn panel_display_name(p: PanelType) -> Seq<char> {
    match p {
        PanelType::Preview => "Preview"@,
        PanelType::SceneEditor => "Sources"@,
        PanelType::AudioMixer => "Audio"@,
        PanelType::StreamControls => "Stream Controls"@,
        PanelType::Sources => "Sources"@,
        PanelType::Scenes => "Scenes"@,
        PanelType::Properties => "Properties"@,
        PanelType::Library => "Library"@,
    }
}

impl PanelType {
    /// The title shown on the panel's tab.
    pub fn display_name(&self) -> (name: &'static str)
        ensures
            name@ == panel_display_name(*self),
    {
        match self {
            PanelType::Preview => "Preview",
            PanelType::SceneEditor => "Sources",
            PanelType::AudioMixer => "Audio",
            PanelType::StreamControls => "Stream Controls",
            PanelType::Sources => "Sources",
            PanelType::Scenes => "Scenes",
            PanelType::Properties => "Properties",
            PanelType::Library => "Library",
        }
    }
}

} // verus!

verus! {

/// A source of fresh identifiers: every call of `take` hands out the
/// current value and advances it by one (wrapping at the top of the range).
#[derive(Clone, Copy, Debug)]
pub struct IdCounter {
    pub next: u64,
}

pub open spec fn successor(n: u64) -> u64 {
    if n == u64::MAX { 0 } else { (n + 1) as u64 }
}

/// Identifiers handed out one after the other by the same counter differ.
pub proof fn lemma_successive_ids_differ(n: u64)
    ensures
        successor(n) != n,
        successor(successor(n)) != successor(n),
{
}

/// The counter's value after `k` identifiers were handed out from `n`.
pub open spec fn successor_n(n: u64, k: nat) -> u64
    decreases k,
{
    if k == 0 {
        n
    } else {
        successor(successor_n(n, (k - 1) as nat))
    }
}

/// Identifiers handed out by one counter strictly increase, and so are never
/// handed out twice, as long as the counter has not passed its largest value:
/// the `i`-th and `j`-th identifiers from `n` are `n + i` and `n + j`.
pub proof fn lemma_ids_increase(n: u64, i: nat, j: nat)
    requires
        i < j,
        n + j <= u64::MAX,
    ensures
        successor_n(n, i) == n + i,
        successor_n(n, j) == n + j,
        successor_n(n, i) < successor_n(n, j),
    decreases j,
{
    if j > i + 1 {
        lemma_ids_increase(n, i, (j - 1) as nat);
    } else if i > 0 {
        lemma_ids_increase(n, (i - 1) as nat, i);
    }
}

pub open spec fn max_u64(a: u64, b: u64) -> u64 {
    if a >= b { a } else { b }
}

impl IdCounter {
    /// A counter whose first identifier is 1.
    pub fn new() -> (c: Self)
        ensures
            c.next == 1,
    {
        IdCounter { next: 1 }
    }

    /// Hands out the current value and advances the counter.
    pub fn take(&mut self) -> (id: u64)
        ensures
            id == old(self).next,
            final(self).next == successor(old(self).next),
    {
        let id = self.next;
        self.next = self.next.wrapping_add(1);
        id
    }

    /// Raises the counter to at least `min_next`; never lowers it.
    pub fn raise_to(&mut self, min_next: u64)
        ensures
            final(self).next == max_u64(old(self).next, min_next),
    {
        if self.next < min_next {
            self.next = min_next;
        }
    }
}

/// The two counters that identify panels and tab groups.
#[derive(Clone, Copy, Debug)]
pub struct LayoutIds {
    pub panels: IdCounter,
    pub groups: IdCounter,
}

impl LayoutIds {
    /// Both counters start at 1.
    pub fn new() -> (ids: Self)
        ensures
            ids.panels.next == 1,
            ids.groups.next == 1,
    {
        LayoutIds { panels: IdCounter::new(), groups: IdCounter::new() }
    }
}

/// Identifier of a panel instance.
#[derive(Clone, Copy, PartialEq, Eq, Hash, Debug, Structural)]
pub struct PanelId(pub u64);

impl PanelId {
    /// A fresh panel identifier taken from `counter`.
    pub fn next(counter: &mut IdCounter) -> (id: Self)
        ensures
            id.0 == old(counter).next,
            final(counter).next == successor(old(counter).next),
    {
        PanelId(counter.take())
    }

    /// Makes sure that identifiers handed out from now on are at least `min_next`.
    pub fn set_counter(counter: &mut IdCounter, min_next: u64)
        ensures
            final(counter).next == max_u64(old(counter).next, min_next),
    {
        counter.raise_to(min_next);
    }
}

/// Direction in which a split divides its space.
#[derive(Clone, Copy, PartialEq, Eq, Debug, Structural)]
pub enum SplitDirection {
    /// First child on top, second below.
    Horizontal,
    /// First child on the left, second on the right.
    Vertical,
}

/// Identifier of a tab group.
#[derive(Clone, Copy, PartialEq, Eq, Hash, Debug, Structural)]
pub struct GroupId(pub u64);

impl GroupId {
    /// A fresh group identifier taken from `counter`.
    pub fn next(counter: &mut IdCounter) -> (id: Self)
        ensures
            id.0 == old(counter).next,
            final(counter).next == successor(old(counter).next),
    {
        GroupId(counter.take())
    }

    /// Makes sure that identifiers handed out from now on are at least `min_next`.
    pub fn set_counter(counter: &mut IdCounter, min_next: u64)
        ensures
            final(counter).next == max_u64(old(counter).next, min_next),
    {
        counter.raise_to(min_next);
    }
}

/// A single tab within a group.
#[derive(Clone, Copy, PartialEq, Eq, Debug, Structural)]
pub struct TabEntry {
    pub panel_id: PanelId,
    pub panel_type: PanelType,
}

/// A container holding one or more panels as tabs.
#[derive(Debug)]
pub struct Group {
    pub id: GroupId,
    pub tabs: Vec<TabEntry>,
    pub active_tab: usize,
}

/// The value of a group.
pub struct GroupValue {
    pub id: GroupId,
    pub tabs: Seq<TabEntry>,
    pub active_tab: usize,
}

impl View for Group {
    type V = GroupValue;

    open spec fn view(&self) -> GroupValue {
        GroupValue { id: self.id, tabs: self.tabs@, active_tab: self.active_tab }
    }
}

impl Group {
    /// A group with a single tab of `panel_type`, with fresh group and panel identifiers.
    pub fn new(ids: &mut LayoutIds, panel_type: PanelType) -> (g: Self)
        ensures
            g.id.0 == old(ids).groups.next,
            g.tabs@ == seq![TabEntry { panel_id: PanelId(old(ids).panels.next), panel_type }],
            g.active_tab == 0,
            final(ids).groups.next == successor(old(ids).groups.next),
            final(ids).panels.next == successor(old(ids).panels.next),
    {
        let id = GroupId::next(&mut ids.groups);
        let panel_id = PanelId::next(&mut ids.panels);
        Group { id, tabs: vec![TabEntry { panel_id, panel_type }], active_tab: 0 }
    }

    /// A group with a single tab, keeping the given identifiers.
    pub fn new_with_ids(group_id: GroupId, panel_id: PanelId, panel_type: PanelType) -> (g: Self)
        ensures
            g.id == group_id,
            g.tabs@ == seq![TabEntry { panel_id, panel_type }],
            g.active_tab == 0,
    {
        Group { id: group_id, tabs: vec![TabEntry { panel_id, panel_type }], active_tab: 0 }
    }

    /// Appends a tab with a fresh panel identifier and makes it active.
    pub fn add_tab(&mut self, panels: &mut IdCounter, panel_type: PanelType) -> (panel_id: PanelId)
        requires
            old(self).tabs.len() < usize::MAX,
        ensures
            panel_id.0 == old(panels).next,
            final(panels).next == successor(old(panels).next),
            final(self).id == old(self).id,
            final(self).tabs@ == old(self).tabs@.push(TabEntry { panel_id, panel_type }),
            final(self).active_tab == old(self).tabs.len(),
    {
        let panel_id = PanelId::next(panels);
        self.tabs.push(TabEntry { panel_id, panel_type });
        self.active_tab = self.tabs.len() - 1;
        panel_id
    }

    /// Appends a tab that keeps its panel identifier (a tab moved from another group) and makes it active.
    pub fn add_tab_entry(&mut self, entry: TabEntry)
        requires
            old(self).tabs.len() < usize::MAX,
        ensures
            final(self).id == old(self).id,
            final(self).tabs@ == old(self).tabs@.push(entry),
            final(self).active_tab == old(self).tabs.len(),
    {
        self.tabs.push(entry);
        self.active_tab = self.tabs.len() - 1;
    }

    /// Inserts a tab at `index` (clamped to the end) and makes it active.
    pub fn insert_tab(&mut self, index: usize, entry: TabEntry)
        ensures
            ({
                let at = if index <= old(self).tabs.len() { index as int } else { old(self).tabs.len() as int };
                &&& final(self).tabs@ == old(self).tabs@.insert(at, entry)
                &&& final(self).active_tab == at
            }),
            final(self).id == old(self).id,
    {
        let index = if index <= self.tabs.len() { index } else { self.tabs.len() };
        self.tabs.insert(index, entry);
        self.active_tab = index;
    }

    /// Removes the tab at `index`. Refuses (and changes nothing) when it is the
    /// group's last tab or the index is out of range.
    pub fn remove_tab(&mut self, index: usize) -> (removed: Option<TabEntry>)
        ensures
            final(self).id == old(self).id,
            old(self).tabs.len() <= 1 || index >= old(self).tabs.len() ==> {
                &&& removed is None
                &&& final(self).tabs@ == old(self).tabs@
                &&& final(self).active_tab == old(self).active_tab
            },
            old(self).tabs.len() > 1 && index < old(self).tabs.len() ==> {
                &&& removed == Some(old(self).tabs@[index as int])
                &&& final(self).tabs@ == old(self).tabs@.remove(index as int)
                &&& final(self).active_tab == (if old(self).active_tab >= final(self).tabs.len() {
                    (final(self).tabs.len() - 1) as usize
                } else {
                    old(self).active_tab
                })
            },
    {
        if self.tabs.len() <= 1 || index >= self.tabs.len() {
            return None;
        }
        let entry = self.tabs.remove(index);
        if self.active_tab >= self.tabs.len() {
            self.active_tab = self.tabs.len() - 1;
        }
        Some(entry)
    }

    /// The active tab, or the first tab when `active_tab` is out of range.
    pub fn active_tab_entry(&self) -> (entry: &TabEntry)
        requires
            self.tabs.len() > 0,
        ensures
            *entry == (if self.active_tab < self.tabs.len() {
                self.tabs@[self.active_tab as int]
            } else {
                self.tabs@[0]
            }),
    {
        if self.active_tab < self.tabs.len() {
            &self.tabs[self.active_tab]
        } else {
            &self.tabs[0]
        }
    }
}

} // verus!

verus! {

/// Identifier of a node of the split tree.
#[derive(Clone, Copy, PartialEq, Eq, Hash, Debug, Structural)]
pub struct NodeId(pub u64);

/// Share of a split's space given to its first child, in ten-thousandths
/// (5000 is an even split).
#[derive(Clone, Copy, PartialEq, Eq, Debug, Structural)]
pub struct SplitRatio(pub u32);

impl SplitRatio {
    /// An even split.
    pub fn half() -> (r: SplitRatio)
        ensures
            r.0 == 5000,
    {
        SplitRatio(5000)
    }

    /// Smallest share a divider drag can produce.
    pub const MIN_DRAG: u32 = 1000;
    /// Largest share a divider drag can produce.
    pub const MAX_DRAG: u32 = 9000;
}

/// A node of the binary split tree: a leaf shows a tab group, a split divides
/// its space between two child nodes.
#[derive(Clone, Copy, PartialEq, Eq, Debug, Structural)]
pub enum SplitNode {
    Leaf { group_id: GroupId },
    Split { direction: SplitDirection, ratio: SplitRatio, first: NodeId, second: NodeId },
}

} // verus!
