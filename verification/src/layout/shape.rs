//! The split tree seen as a value: the model against which the node map of a
//! dock layout is specified.
use vstd::prelude::*;
use super::tree::{GroupId, NodeId, SplitDirection, SplitNode, SplitRatio};

verus! {

/// A split tree whose nodes carry their identifiers.
pub enum Shape {
    Leaf { id: u64, group: u64 },
    Split {
        id: u64,
        direction: SplitDirection,
        ratio: SplitRatio,
        first: Box<Shape>,
        second: Box<Shape>,
    },
}

impl Shape {
    pub open spec fn id(self) -> u64 {
        match self {
            Shape::Leaf { id, .. } => id,
            Shape::Split { id, .. } => id,
        }
    }

    /// The map entry that stands for this tree's root node.
    pub open spec fn node(self) -> SplitNode {
        match self {
            Shape::Leaf { group, .. } => SplitNode::Leaf { group_id: GroupId(group) },
            Shape::Split { direction, ratio, first, second, .. } => SplitNode::Split {
                direction,
                ratio,
                first: NodeId(first.id()),
                second: NodeId(second.id()),
            },
        }
    }

    /// Identifiers of all nodes of the tree.
    pub open spec fn ids(self) -> Set<u64>
        decreases self,
    {
        match self {
            Shape::Leaf { id, .. } => set![id],
            Shape::Split { id, first, second, .. } => first.ids().union(second.ids()).insert(id),
        }
    }

    /// No identifier occurs twice.
    pub open spec fn distinct(self) -> bool
        decreases self,
    {
        match self {
            Shape::Leaf { .. } => true,
            Shape::Split { id, first, second, .. } => {
                &&& first.distinct()
                &&& second.distinct()
                &&& first.ids().disjoint(second.ids())
                &&& !first.ids().contains(id)
                &&& !second.ids().contains(id)
            },
        }
    }

    /// The node map that stores this tree.
    pub open spec fn flatten(self) -> Map<u64, SplitNode>
        decreases self,
    {
        match self {
            Shape::Leaf { id, .. } => map![id => self.node()],
            Shape::Split { id, first, second, .. } => first.flatten().union_prefer_right(
                second.flatten(),
            ).insert(id, self.node()),
        }
    }

    /// Groups of the leaves, first child before second child.
    pub open spec fn groups(self) -> Seq<u64>
        decreases self,
    {
        match self {
            Shape::Leaf { group, .. } => seq![group],
            Shape::Split { first, second, .. } => first.groups() + second.groups(),
        }
    }

    /// The subtree rooted at node `k` (the whole tree when `k` is absent).
    pub open spec fn sub(self, k: u64) -> Shape
        decreases self,
    {
        match self {
            Shape::Leaf { .. } => self,
            Shape::Split { id, first, second, .. } => if id == k {
                self
            } else if first.ids().contains(k) {
                first.sub(k)
            } else if second.ids().contains(k) {
                second.sub(k)
            } else {
                self
            },
        }
    }

    /// The tree with the subtree rooted at node `k` replaced by `t`.
    pub open spec fn replace(self, k: u64, t: Shape) -> Shape
        decreases self,
    {
        if self.id() == k {
            t
        } else {
            match self {
                Shape::Leaf { .. } => self,
                Shape::Split { id, direction, ratio, first, second } => if first.ids().contains(k) {
                    Shape::Split { id, direction, ratio, first: Box::new(first.replace(k, t)), second }
                } else if second.ids().contains(k) {
                    Shape::Split { id, direction, ratio, first, second: Box::new(second.replace(k, t)) }
                } else {
                    self
                },
            }
        }
    }

    /// The same tree with its root renamed to `k`.
    pub open spec fn with_id(self, k: u64) -> Shape {
        match self {
            Shape::Leaf { group, .. } => Shape::Leaf { id: k, group },
            Shape::Split { direction, ratio, first, second, .. } => Shape::Split {
                id: k,
                direction,
                ratio,
                first,
                second,
            },
        }
    }

    /// A leaf that shows group `g` (meaningful when `g` occurs in `groups()`).
    pub open spec fn leaf_for(self, g: u64) -> u64
        decreases self,
    {
        match self {
            Shape::Leaf { id, .. } => id,
            Shape::Split { first, second, .. } => if first.groups().contains(g) {
                first.leaf_for(g)
            } else {
                second.leaf_for(g)
            },
        }
    }
}

pub proof fn lemma_ids_has_id(s: Shape)
    ensures
        s.ids().contains(s.id()),
        s.ids().finite(),
    decreases s,
{
    match s {
        Shape::Leaf { .. } => {},
        Shape::Split { first, second, .. } => {
            lemma_ids_has_id(*first);
            lemma_ids_has_id(*second);
        },
    }
}

pub proof fn lemma_flatten_dom(s: Shape)
    ensures
        s.flatten().dom() == s.ids(),
        s.flatten()[s.id()] == s.node(),
    decreases s,
{
    match s {
        Shape::Leaf { .. } => {
            assert(s.flatten().dom() =~= s.ids());
        },
        Shape::Split { first, second, .. } => {
            lemma_flatten_dom(*first);
            lemma_flatten_dom(*second);
            assert(s.flatten().dom() =~= s.ids());
        },
    }
}

pub proof fn lemma_sub_self(s: Shape)
    ensures
        s.sub(s.id()) == s,
{
}

/// What the subtree at an existing node is, and how it sits in the whole tree.
pub proof fn lemma_sub(s: Shape, k: u64) -> (pp: (Seq<u64>, Seq<u64>))
    requires
        s.distinct(),
        s.ids().contains(k),
    ensures
        s.sub(k).id() == k,
        s.sub(k).distinct(),
        s.sub(k).ids().subset_of(s.ids()),
        forall|j: u64| #[trigger] s.sub(k).ids().contains(j) ==> s.flatten()[j] == s.sub(k).flatten()[j],
        s.flatten()[k] == s.sub(k).node(),
        s.groups() == pp.0 + s.sub(k).groups() + pp.1,
    decreases s,
{
    lemma_flatten_dom(s);
    match s {
        Shape::Leaf { .. } => {
            assert(s.groups() =~= Seq::<u64>::empty() + s.groups() + Seq::<u64>::empty());
            (Seq::empty(), Seq::empty())
        },
        Shape::Split { id, first, second, .. } => {
            lemma_flatten_dom(*first);
            lemma_flatten_dom(*second);
            if id == k {
                assert(s.groups() =~= Seq::<u64>::empty() + s.groups() + Seq::<u64>::empty());
                (Seq::empty(), Seq::empty())
            } else if first.ids().contains(k) {
                let pp = lemma_sub(*first, k);
                lemma_flatten_dom(first.sub(k));
                assert(s.groups() =~= pp.0 + s.sub(k).groups() + (pp.1 + second.groups()));
                (pp.0, pp.1 + second.groups())
            } else {
                let pp = lemma_sub(*second, k);
                lemma_flatten_dom(second.sub(k));
                assert(s.groups() =~= (first.groups() + pp.0) + s.sub(k).groups() + pp.1);
                (first.groups() + pp.0, pp.1)
            }
        },
    }
}

/// The children of a split node found by `sub` are again found by `sub`.
pub proof fn lemma_sub_children(s: Shape, k: u64)
    requires
        s.distinct(),
        s.ids().contains(k),
        s.sub(k) is Split,
    ensures
        ({
            let t = s.sub(k);
            let f = *t->Split_first;
            let g = *t->Split_second;
            &&& s.ids().contains(f.id())
            &&& s.ids().contains(g.id())
            &&& s.sub(f.id()) == f
            &&& s.sub(g.id()) == g
        }),
    decreases s,
{
    match s {
        Shape::Leaf { .. } => {},
        Shape::Split { id, first, second, .. } => {
            lemma_ids_has_id(*first);
            lemma_ids_has_id(*second);
            lemma_sub_self(*first);
            lemma_sub_self(*second);
            if id == k {
            } else if first.ids().contains(k) {
                lemma_sub_children(*first, k);
                lemma_sub(*first, k);
            } else {
                lemma_sub_children(*second, k);
                lemma_sub(*second, k);
            }
        },
    }
}

/// Replacing a subtree by a tree whose new identifiers are fresh.
pub proof fn lemma_replace(s: Shape, k: u64, t: Shape) -> (pp: (Seq<u64>, Seq<u64>))
    requires
        s.distinct(),
        s.ids().contains(k),
        t.distinct(),
        t.id() == k,
        t.ids().disjoint(s.ids().difference(s.sub(k).ids())),
    ensures
        s.replace(k, t).distinct(),
        s.replace(k, t).id() == s.id(),
        s.replace(k, t).ids() == s.ids().difference(s.sub(k).ids()).union(t.ids()),
        s.replace(k, t).flatten() == s.flatten().remove_keys(s.sub(k).ids()).union_prefer_right(
            t.flatten(),
        ),
        s.groups() == pp.0 + s.sub(k).groups() + pp.1,
        s.replace(k, t).groups() == pp.0 + t.groups() + pp.1,
    decreases s,
{
    lemma_flatten_dom(s);
    lemma_flatten_dom(t);
    if s.id() == k {
        assert(s.ids().difference(s.ids()).union(t.ids()) =~= t.ids());
        assert(s.flatten().remove_keys(s.ids()).union_prefer_right(t.flatten()) =~= t.flatten());
        assert(s.groups() =~= Seq::<u64>::empty() + s.groups() + Seq::<u64>::empty());
        assert(t.groups() =~= Seq::<u64>::empty() + t.groups() + Seq::<u64>::empty());
        (Seq::empty(), Seq::empty())
    } else {
        match s {
            Shape::Leaf { .. } => {
                (Seq::empty(), Seq::empty())
            },
            Shape::Split { id, direction, ratio, first, second } => {
                lemma_flatten_dom(*first);
                lemma_flatten_dom(*second);
                if first.ids().contains(k) {
                    let sub = first.sub(k);
                    lemma_sub(*first, k);
                    assert(t.ids().disjoint(first.ids().difference(sub.ids())));
                    let pp = lemma_replace(*first, k, t);
                    let f2 = first.replace(k, t);
                    lemma_flatten_dom(f2);
                    let r = s.replace(k, t);
                    assert(r == Shape::Split { id, direction, ratio, first: Box::new(f2), second });
                    assert(!t.ids().contains(id));
                    assert(f2.ids().disjoint(second.ids()));
                    assert(r.ids() =~= s.ids().difference(sub.ids()).union(t.ids()));
                    assert(r.node() == s.node());
                    assert(r.flatten() =~= s.flatten().remove_keys(sub.ids()).union_prefer_right(
                        t.flatten(),
                    ));
                    assert(s.groups() =~= pp.0 + sub.groups() + (pp.1 + second.groups()));
                    assert(r.groups() =~= pp.0 + t.groups() + (pp.1 + second.groups()));
                    (pp.0, pp.1 + second.groups())
                } else if second.ids().contains(k) {
                    let sub = second.sub(k);
                    lemma_sub(*second, k);
                    assert(t.ids().disjoint(second.ids().difference(sub.ids())));
                    let pp = lemma_replace(*second, k, t);
                    let g2 = second.replace(k, t);
                    lemma_flatten_dom(g2);
                    let r = s.replace(k, t);
                    assert(r == Shape::Split { id, direction, ratio, first, second: Box::new(g2) });
                    assert(!t.ids().contains(id));
                    assert(first.ids().disjoint(g2.ids()));
                    assert(r.ids() =~= s.ids().difference(sub.ids()).union(t.ids()));
                    assert(r.node() == s.node());
                    assert(r.flatten() =~= s.flatten().remove_keys(sub.ids()).union_prefer_right(
                        t.flatten(),
                    ));
                    assert(s.groups() =~= (first.groups() + pp.0) + sub.groups() + pp.1);
                    assert(r.groups() =~= (first.groups() + pp.0) + t.groups() + pp.1);
                    (first.groups() + pp.0, pp.1)
                } else {
                    (Seq::empty(), Seq::empty())
                }
            },
        }
    }
}

/// Renaming the root of a tree to an identifier it does not use below its root.
pub proof fn lemma_with_id(s: Shape, k: u64)
    requires
        s.distinct(),
        !s.ids().remove(s.id()).contains(k),
    ensures
        s.with_id(k).distinct(),
        s.with_id(k).id() == k,
        s.with_id(k).ids() == s.ids().remove(s.id()).insert(k),
        s.with_id(k).flatten() == s.flatten().remove(s.id()).insert(k, s.node()),
        s.with_id(k).node() == s.node(),
        s.with_id(k).groups() == s.groups(),
{
    lemma_flatten_dom(s);
    match s {
        Shape::Leaf { .. } => {
            assert(s.with_id(k).ids() =~= s.ids().remove(s.id()).insert(k));
            assert(s.with_id(k).flatten() =~= s.flatten().remove(s.id()).insert(k, s.node()));
        },
        Shape::Split { first, second, .. } => {
            lemma_flatten_dom(*first);
            lemma_flatten_dom(*second);
            assert(s.with_id(k).ids() =~= s.ids().remove(s.id()).insert(k));
            assert(s.with_id(k).flatten() =~= s.flatten().remove(s.id()).insert(k, s.node()));
        },
    }
}

/// A map entry that is a leaf stands for a leaf of the tree, whose group occurs in `groups()`.
pub proof fn lemma_leaf_entry(s: Shape, j: u64, g: u64)
    requires
        s.distinct(),
        s.ids().contains(j),
        s.flatten()[j] == (SplitNode::Leaf { group_id: GroupId(g) }),
    ensures
        s.sub(j) == (Shape::Leaf { id: j, group: g }),
        s.groups().contains(g),
{
    let pp = lemma_sub(s, j);
    assert(s.groups()[pp.0.len() as int] == g);
}

/// Every group of `groups()` has a leaf entry in the map.
pub proof fn lemma_leaf_for(s: Shape, g: u64)
    requires
        s.distinct(),
        s.groups().contains(g),
    ensures
        s.ids().contains(s.leaf_for(g)),
        s.flatten()[s.leaf_for(g)] == (SplitNode::Leaf { group_id: GroupId(g) }),
    decreases s,
{
    match s {
        Shape::Leaf { .. } => {},
        Shape::Split { id, first, second, .. } => {
            lemma_flatten_dom(*first);
            lemma_flatten_dom(*second);
            if first.groups().contains(g) {
                lemma_leaf_for(*first, g);
            } else {
                assert(second.groups().contains(g));
                lemma_leaf_for(*second, g);
            }
        },
    }
}

} // verus!

verus! {

impl Shape {
    /// The node whose split has child `k`.
    pub open spec fn parent_of(self, k: u64) -> u64
        decreases self,
    {
        match self {
            Shape::Leaf { id, .. } => id,
            Shape::Split { id, first, second, .. } => if first.id() == k || second.id() == k {
                id
            } else if first.ids().contains(k) {
                first.parent_of(k)
            } else {
                second.parent_of(k)
            },
        }
    }

    /// The child of the split at `p` that is not `k`.
    pub open spec fn sibling_of(self, p: u64, k: u64) -> Shape {
        let sp = self.sub(p);
        if (*sp->Split_first).id() == k {
            *sp->Split_second
        } else {
            *sp->Split_first
        }
    }

    /// The tree without leaf `k`: its parent split is replaced by the leaf's sibling.
    pub open spec fn without_leaf(self, k: u64) -> Shape {
        let p = self.parent_of(k);
        self.replace(p, self.sibling_of(p, k).with_id(p))
    }
}

/// In a tree without repeated identifiers, no entry has the root as a child,
/// and the children of every split entry belong to the tree.
pub proof fn lemma_entry_children(s: Shape, p: u64)
    requires
        s.distinct(),
        s.ids().contains(p),
        s.flatten()[p] is Split,
    ensures
        ({
            let e = s.flatten()[p];
            &&& e->Split_first.0 != s.id()
            &&& e->Split_second.0 != s.id()
            &&& s.ids().contains(e->Split_first.0)
            &&& s.ids().contains(e->Split_second.0)
        }),
    decreases s,
{
    lemma_flatten_dom(s);
    match s {
        Shape::Leaf { .. } => {},
        Shape::Split { id, first, second, .. } => {
            lemma_flatten_dom(*first);
            lemma_flatten_dom(*second);
            lemma_ids_has_id(*first);
            lemma_ids_has_id(*second);
            if p == id {
            } else if first.ids().contains(p) {
                lemma_entry_children(*first, p);
            } else {
                lemma_entry_children(*second, p);
            }
        },
    }
}

/// A split entry that has child `k` sits at `parent_of(k)`, and the child
/// subtrees are where `sub` finds them.
pub proof fn lemma_parent(s: Shape, p: u64, k: u64)
    requires
        s.distinct(),
        s.ids().contains(p),
        s.flatten()[p] is Split,
        s.flatten()[p]->Split_first.0 == k || s.flatten()[p]->Split_second.0 == k,
    ensures
        s.parent_of(k) == p,
    decreases s,
{
    lemma_flatten_dom(s);
    match s {
        Shape::Leaf { .. } => {},
        Shape::Split { id, first, second, .. } => {
            lemma_flatten_dom(*first);
            lemma_flatten_dom(*second);
            lemma_ids_has_id(*first);
            lemma_ids_has_id(*second);
            if p == id {
            } else if first.ids().contains(p) {
                lemma_entry_children(*first, p);
                lemma_parent(*first, p, k);
            } else {
                lemma_entry_children(*second, p);
                lemma_parent(*second, p, k);
            }
        },
    }
}

/// Every node but the root has a parent split entry.
pub proof fn lemma_parent_exists(s: Shape, k: u64)
    requires
        s.distinct(),
        s.ids().contains(k),
        k != s.id(),
    ensures
        s.ids().contains(s.parent_of(k)),
        s.flatten()[s.parent_of(k)] is Split,
        s.flatten()[s.parent_of(k)]->Split_first.0 == k || s.flatten()[s.parent_of(k)]->Split_second.0
            == k,
    decreases s,
{
    lemma_flatten_dom(s);
    match s {
        Shape::Leaf { .. } => {},
        Shape::Split { id, first, second, .. } => {
            lemma_flatten_dom(*first);
            lemma_flatten_dom(*second);
            lemma_ids_has_id(*first);
            lemma_ids_has_id(*second);
            if first.id() == k || second.id() == k {
            } else if first.ids().contains(k) {
                lemma_parent_exists(*first, k);
            } else {
                lemma_parent_exists(*second, k);
            }
        },
    }
}

/// Two leaf entries with the same group are the same leaf when no group repeats.
pub proof fn lemma_unique_leaf(s: Shape, j1: u64, j2: u64, g: u64)
    requires
        s.distinct(),
        s.groups().no_duplicates(),
        s.ids().contains(j1),
        s.ids().contains(j2),
        s.flatten()[j1] == (SplitNode::Leaf { group_id: GroupId(g) }),
        s.flatten()[j2] == (SplitNode::Leaf { group_id: GroupId(g) }),
    ensures
        j1 == j2,
    decreases s,
{
    lemma_flatten_dom(s);
    match s {
        Shape::Leaf { .. } => {},
        Shape::Split { id, first, second, .. } => {
            lemma_flatten_dom(*first);
            lemma_flatten_dom(*second);
            let a = first.groups();
            let b = second.groups();
            assert(a.no_duplicates()) by {
                assert forall|x: int, y: int| 0 <= x < a.len() && 0 <= y < a.len() && x != y implies a[x] != a[y] by {
                    assert(s.groups()[x] == a[x]);
                    assert(s.groups()[y] == a[y]);
                }
            }
            assert(b.no_duplicates()) by {
                assert forall|x: int, y: int| 0 <= x < b.len() && 0 <= y < b.len() && x != y implies b[x] != b[y] by {
                    assert(s.groups()[a.len() + x] == b[x]);
                    assert(s.groups()[a.len() + y] == b[y]);
                }
            }
            if first.ids().contains(j1) && first.ids().contains(j2) {
                lemma_unique_leaf(*first, j1, j2, g);
            } else if second.ids().contains(j1) && second.ids().contains(j2) {
                lemma_unique_leaf(*second, j1, j2, g);
            } else if j1 != id && j2 != id {
                let (ja, jb) = if first.ids().contains(j1) { (j1, j2) } else { (j2, j1) };
                lemma_leaf_entry(*first, ja, g);
                lemma_leaf_entry(*second, jb, g);
                let x = choose|x: int| 0 <= x < a.len() && a[x] == g;
                let y = choose|y: int| 0 <= y < b.len() && b[y] == g;
                assert(s.groups()[x] == g);
                assert(s.groups()[a.len() + y] == g);
            }
        },
    }
}

/// Removing a leaf that is not the root.
pub proof fn lemma_without_leaf(s: Shape, k: u64) -> (pp: (Seq<u64>, Seq<u64>))
    requires
        s.distinct(),
        s.ids().contains(k),
        k != s.id(),
        s.sub(k) is Leaf,
    ensures
        ({
            let p = s.parent_of(k);
            let sib = s.sibling_of(p, k);
            let r = s.without_leaf(k);
            &&& s.ids().contains(p)
            &&& s.sub(p) is Split
            &&& s.ids().contains(sib.id())
            &&& s.sub(sib.id()) == sib
            &&& sib.id() != k
            &&& sib.id() != p
            &&& r.distinct()
            &&& r.id() == s.id()
            &&& r.ids() == s.ids().remove(k).remove(sib.id())
            &&& r.flatten() == s.flatten().remove(k).remove(sib.id()).insert(p, s.flatten()[sib.id()])
            &&& s.groups() == pp.0 + seq![s.sub(k)->Leaf_group] + pp.1
            &&& r.groups() == pp.0 + pp.1
        }),
{
    let p = s.parent_of(k);
    lemma_parent_exists(s, k);
    lemma_flatten_dom(s);
    lemma_sub(s, p);
    let sp = s.sub(p);
    lemma_sub_children(s, p);
    let f = *sp->Split_first;
    let g = *sp->Split_second;
    lemma_ids_has_id(f);
    lemma_ids_has_id(g);
    let sib = s.sibling_of(p, k);
    let leaf = if f.id() == k { f } else { g };
    assert(leaf == s.sub(k));
    lemma_sub(s, sib.id());
    lemma_sub(s, k);
    lemma_flatten_dom(sib);
    assert(!sib.ids().contains(p));
    lemma_with_id(sib, p);
    let t = sib.with_id(p);
    assert(sp.ids() == f.ids().union(g.ids()).insert(p));
    assert(t.ids().disjoint(s.ids().difference(sp.ids())));
    let pp = lemma_replace(s, p, t);
    let r = s.without_leaf(k);
    assert(r.ids() =~= s.ids().remove(k).remove(sib.id()));
    assert forall|j: u64| #[trigger] sib.ids().contains(j) implies s.flatten()[j] == sib.flatten()[j] by {
    }
    assert(r.flatten() =~= s.flatten().remove(k).remove(sib.id()).insert(p, s.flatten()[sib.id()]));
    let lg = s.sub(k)->Leaf_group;
    if f.id() == k {
        assert(sp.groups() == seq![lg] + g.groups());
        assert(s.groups() =~= pp.0 + seq![lg] + (g.groups() + pp.1));
        assert(r.groups() =~= pp.0 + (g.groups() + pp.1));
        (pp.0, g.groups() + pp.1)
    } else {
        assert(sp.groups() == f.groups() + seq![lg]);
        assert(s.groups() =~= (pp.0 + f.groups()) + seq![lg] + pp.1);
        assert(r.groups() =~= (pp.0 + f.groups()) + pp.1);
        (pp.0 + f.groups(), pp.1)
    }
}

} // verus!

verus! {

/// The split that replaces a leaf showing `target` when a new group is placed beside it.
pub open spec fn split_leaf_shape(
    n: u64,
    direction: SplitDirection,
    c_exist: u64,
    c_new: u64,
    target: u64,
    new_group: u64,
    new_first: bool,
) -> Shape {
    let existing = Shape::Leaf { id: c_exist, group: target };
    let added = Shape::Leaf { id: c_new, group: new_group };
    Shape::Split {
        id: n,
        direction,
        ratio: SplitRatio(5000),
        first: Box::new(if new_first { added } else { existing }),
        second: Box::new(if new_first { existing } else { added }),
    }
}

/// The tree `s` placed as the first child of a new root split (keeping the
/// root identifier), with a new leaf as second child.
pub open spec fn wrap_root_shape(
    s: Shape,
    moved_root: u64,
    leaf: u64,
    group: u64,
    direction: SplitDirection,
    ratio: SplitRatio,
) -> Shape {
    Shape::Split {
        id: s.id(),
        direction,
        ratio,
        first: Box::new(s.with_id(moved_root)),
        second: Box::new(Shape::Leaf { id: leaf, group }),
    }
}

impl Shape {
    /// The same tree with its root split's ratio set to `r` (leaves are unchanged).
    pub open spec fn with_ratio(self, r: SplitRatio) -> Shape {
        match self {
            Shape::Leaf { .. } => self,
            Shape::Split { id, direction, first, second, .. } => Shape::Split {
                id,
                direction,
                ratio: r,
                first,
                second,
            },
        }
    }
}

} // verus!

verus! {

/// A split tree without node identifiers, as it is written to a saved layout.
#[derive(Debug)]
pub enum SerializedNode {
    Leaf { group_id: u64 },
    Split {
        direction: SplitDirection,
        ratio: SplitRatio,
        first: Box<SerializedNode>,
        second: Box<SerializedNode>,
    },
}

impl SerializedNode {
    /// Groups of the leaves, first child before second child.
    pub open spec fn groups(self) -> Seq<u64>
        decreases self,
    {
        match self {
            SerializedNode::Leaf { group_id } => seq![group_id],
            SerializedNode::Split { first, second, .. } => first.groups() + second.groups(),
        }
    }

    /// Number of nodes.
    pub open spec fn size(self) -> nat
        decreases self,
    {
        match self {
            SerializedNode::Leaf { .. } => 1,
            SerializedNode::Split { first, second, .. } => 1 + first.size() + second.size(),
        }
    }
}

impl Shape {
    /// The tree without its node identifiers.
    pub open spec fn erase(self) -> SerializedNode
        decreases self,
    {
        match self {
            Shape::Leaf { group, .. } => SerializedNode::Leaf { group_id: group },
            Shape::Split { direction, ratio, first, second, .. } => SerializedNode::Split {
                direction,
                ratio,
                first: Box::new(first.erase()),
                second: Box::new(second.erase()),
            },
        }
    }
}

/// Removing the leaf that a split added beside leaf `n` gives back the tree
/// as it was before the split.
pub proof fn lemma_split_then_remove(
    s: Shape,
    n: u64,
    direction: SplitDirection,
    c_exist: u64,
    c_new: u64,
    target: u64,
    g: u64,
    new_first: bool,
)
    requires
        s.distinct(),
        s.ids().contains(n),
        s.sub(n) == (Shape::Leaf { id: n, group: target }),
        !s.ids().contains(c_exist),
        !s.ids().contains(c_new),
        c_exist != c_new,
    ensures
        s.replace(n, split_leaf_shape(n, direction, c_exist, c_new, target, g, new_first)).without_leaf(
            c_new,
        ) == s,
{
    let t = split_leaf_shape(n, direction, c_exist, c_new, target, g, new_first);
    let le = Shape::Leaf { id: c_exist, group: target };
    let ln = Shape::Leaf { id: c_new, group: g };
    assert(le.ids() == set![c_exist]);
    assert(ln.ids() == set![c_new]);
    assert(t.ids() =~= set![c_exist, c_new, n]);
    lemma_sub(s, n);
    assert(s.sub(n).ids() =~= set![n]);
    assert(t.distinct()) by {
        assert(le.distinct());
        assert(ln.distinct());
        assert(n != c_exist && n != c_new);
        assert(le.ids().disjoint(ln.ids()));
        if new_first {
            assert(t == Shape::Split { id: n, direction, ratio: SplitRatio(5000), first: Box::new(ln), second: Box::new(le) });
        } else {
            assert(t == Shape::Split { id: n, direction, ratio: SplitRatio(5000), first: Box::new(le), second: Box::new(ln) });
        }
    }
    lemma_replace(s, n, t);
    let s1 = s.replace(n, t);
    lemma_replace_sub(s, n, t);
    assert(s1.sub(n) == t);
    lemma_flatten_dom(s1);
    lemma_flatten_dom(t);
    assert(s1.ids().contains(c_new));
    assert(s1.flatten()[n] == t.node()) by {
        lemma_sub(s1, n);
    }
    lemma_parent(s1, n, c_new);
    assert(s1.sibling_of(n, c_new) == le);
    assert(le.with_id(n) == s.sub(n));
    lemma_replace_twice(s, n, t, s.sub(n));
    lemma_replace_self(s, n);
}

/// After replacing the subtree at `k`, the subtree at `k` is the replacement.
pub proof fn lemma_replace_sub(s: Shape, k: u64, t: Shape)
    requires
        s.distinct(),
        s.ids().contains(k),
        t.id() == k,
    ensures
        s.replace(k, t).sub(k) == t,
    decreases s,
{
    lemma_sub_self(t);
    match s {
        Shape::Leaf { .. } => {},
        Shape::Split { id, first, second, .. } => {
            if id == k {
            } else if first.ids().contains(k) {
                lemma_replace_sub(*first, k, t);
                lemma_replace_ids_contains(*first, k, t);
            } else {
                lemma_replace_sub(*second, k, t);
                lemma_replace_ids_contains(*second, k, t);
                assert(!first.ids().contains(k));
            }
        },
    }
}

/// The replaced node is still in the tree.
pub proof fn lemma_replace_ids_contains(s: Shape, k: u64, t: Shape)
    requires
        s.ids().contains(k),
        t.id() == k,
    ensures
        s.replace(k, t).ids().contains(k),
    decreases s,
{
    lemma_ids_has_id(t);
    match s {
        Shape::Leaf { .. } => {},
        Shape::Split { id, first, second, .. } => {
            if id == k {
            } else if first.ids().contains(k) {
                lemma_replace_ids_contains(*first, k, t);
            } else {
                lemma_replace_ids_contains(*second, k, t);
            }
        },
    }
}

/// Replacing twice at the same node keeps only the second replacement.
pub proof fn lemma_replace_twice(s: Shape, k: u64, t1: Shape, t2: Shape)
    requires
        s.ids().contains(k),
        t1.id() == k,
    ensures
        s.replace(k, t1).replace(k, t2) == s.replace(k, t2),
    decreases s,
{
    match s {
        Shape::Leaf { .. } => {},
        Shape::Split { id, first, second, .. } => {
            if id == k {
            } else if first.ids().contains(k) {
                lemma_replace_twice(*first, k, t1, t2);
                lemma_replace_ids_contains(*first, k, t1);
            } else {
                lemma_replace_twice(*second, k, t1, t2);
                lemma_replace_ids_contains(*second, k, t1);
            }
        },
    }
}

/// Replacing a subtree by itself changes nothing.
pub proof fn lemma_replace_self(s: Shape, k: u64)
    requires
        s.distinct(),
        s.ids().contains(k),
    ensures
        s.replace(k, s.sub(k)) == s,
    decreases s,
{
    match s {
        Shape::Leaf { .. } => {},
        Shape::Split { id, first, second, .. } => {
            if id == k {
            } else if first.ids().contains(k) {
                lemma_replace_self(*first, k);
            } else {
                lemma_replace_self(*second, k);
            }
        },
    }
}


/// Splitting the leaf of group `target` to place a new group `g` beside it,
/// then removing `g` from the tree, gives back the tree as it was.
/// (`split_group` allocates the two fresh node identifiers; the leaf of `g`
/// is never the root, so the removal is always carried out.)
pub proof fn lemma_remove_undoes_split(
    s: Shape,
    target: u64,
    g: u64,
    direction: SplitDirection,
    n1: u64,
    n2: u64,
    new_first: bool,
)
    requires
        s.distinct(),
        s.groups().no_duplicates(),
        s.groups().contains(target),
        !s.groups().contains(g),
        !s.ids().contains(n1),
        !s.ids().contains(n2),
        n1 != n2,
    ensures
        ({
            let leaf = s.leaf_for(target);
            let s1 = s.replace(leaf, split_leaf_shape(leaf, direction, n1, n2, target, g, new_first));
            &&& s1.groups().contains(g)
            &&& s1.leaf_for(g) != s1.id()
            &&& s1.without_leaf(s1.leaf_for(g)) == s
        }),
{
    let leaf = s.leaf_for(target);
    lemma_leaf_for(s, target);
    lemma_leaf_entry(s, leaf, target);
    let t = split_leaf_shape(leaf, direction, n1, n2, target, g, new_first);
    let le = Shape::Leaf { id: n1, group: target };
    let ln = Shape::Leaf { id: n2, group: g };
    assert(le.ids() == set![n1]);
    assert(ln.ids() == set![n2]);
    assert(t.ids() =~= set![n1, n2, leaf]);
    lemma_sub(s, leaf);
    assert(s.sub(leaf).ids() =~= set![leaf]);
    assert(t.distinct()) by {
        assert(le.distinct());
        assert(ln.distinct());
        assert(leaf != n1 && leaf != n2);
        assert(le.ids().disjoint(ln.ids()));
        if new_first {
            assert(t == Shape::Split { id: leaf, direction, ratio: SplitRatio(5000), first: Box::new(ln), second: Box::new(le) });
        } else {
            assert(t == Shape::Split { id: leaf, direction, ratio: SplitRatio(5000), first: Box::new(le), second: Box::new(ln) });
        }
    }
    let pp = lemma_replace(s, leaf, t);
    let s1 = s.replace(leaf, t);
    lemma_flatten_dom(t);
    lemma_flatten_dom(s1);
    let mid = if new_first { seq![g, target] } else { seq![target, g] };
    assert(le.groups() == seq![target]);
    assert(ln.groups() == seq![g]);
    assert(t.groups() =~= mid) by {
        if new_first {
            assert(t.groups() == ln.groups() + le.groups());
        } else {
            assert(t.groups() == le.groups() + ln.groups());
        }
    }
    assert(s.sub(leaf).groups() =~= seq![target]);
    assert(s1.groups() == pp.0 + mid + pp.1);
    assert(s1.groups().no_duplicates()) by {
        let a = s.groups();
        let b = s1.groups();
        assert(a == pp.0 + seq![target] + pp.1);
        assert forall|x: int, y: int| 0 <= x < b.len() && 0 <= y < b.len() && x != y implies b[x] != b[y] by {
            let p0 = pp.0.len() as int;
            let idx = |z: int| if z < p0 { z } else if z < p0 + 2 { p0 } else { z - 1 };
            if b[x] == g {
                if x < p0 {
                    assert(a[x] == g);
                } else if x >= p0 + 2 {
                    assert(a[x - 1] == g);
                }
            }
            if b[y] == g {
                if y < p0 {
                    assert(a[y] == g);
                } else if y >= p0 + 2 {
                    assert(a[y - 1] == g);
                }
            }
            if b[x] != g && b[y] != g {
                assert(b[x] == a[idx(x)]);
                assert(b[y] == a[idx(y)]);
                if idx(x) == idx(y) {
                    assert(x < p0 + 2 && x >= p0 && y < p0 + 2 && y >= p0);
                }
            }
        }
    }
    assert(s1.groups().contains(g)) by {
        if new_first {
            assert(s1.groups()[pp.0.len() as int] == g);
        } else {
            assert(s1.groups()[pp.0.len() as int + 1] == g);
        }
    }
    assert(s1.ids().contains(n2));
    assert(t.flatten()[n2] == ln.node()) by {
        lemma_flatten_dom(le);
        lemma_flatten_dom(ln);
    }
    assert(s1.flatten()[n2] == (SplitNode::Leaf { group_id: GroupId(g) }));
    lemma_leaf_for(s1, g);
    lemma_unique_leaf(s1, s1.leaf_for(g), n2, g);
    lemma_ids_has_id(s);
    assert(s1.id() == s.id());
    lemma_split_then_remove(s, leaf, direction, n1, n2, target, g, new_first);
}

} // verus!
