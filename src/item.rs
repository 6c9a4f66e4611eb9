//! Flat node descriptors and the linker that turns them into a tree.
use vstd::prelude::*;
use crate::direction::Direction;
use crate::identifier::{IdView, Identifier, instance_name};
use crate::length::Length;

verus! {

/// A flat, serialisable node descriptor.
#[derive(Clone, Debug)]
pub struct Item {
    pub identifier: Identifier,
    pub size: Length,
    /// Children in placement order (top to bottom, or left to right).
    pub childs: Vec<Identifier>,
    /// The axis along which the children are placed.
    pub split: Direction,
}

/// What an item says, as plain values.
pub ghost struct ItemView {
    pub identifier: IdView,
    pub size: Length,
    pub childs: Seq<IdView>,
    pub split: Direction,
}

impl View for Item {
    type V = ItemView;

    open spec fn view(&self) -> ItemView {
        ItemView {
            identifier: self.identifier@,
            size: self.size,
            childs: self.childs@.map_values(|c: Identifier| c@),
            split: self.split,
        }
    }
}

pub fn duplicate_identifiers(ids: &Vec<Identifier>) -> (r: Vec<Identifier>)
    ensures
        r@.map_values(|c: Identifier| c@) == ids@.map_values(|c: Identifier| c@),
{
    let mut r: Vec<Identifier> = Vec::new();
    let mut i: usize = 0;
    while i < ids.len()
        invariant
            i <= ids.len(),
            r@.len() == i,
            forall|j: int| 0 <= j < i ==> #[trigger] r@[j]@ == ids@[j]@,
        decreases ids.len() - i,
    {
        r.push(ids[i].duplicate());
        i = i + 1;
    }
    assert(r@.map_values(|c: Identifier| c@) =~= ids@.map_values(|c: Identifier| c@));
    r
}

impl Item {
    /// A copy of this item.
    pub fn duplicate(&self) -> (r: Item)
        ensures
            r@ == self@,
    {
        Item {
            identifier: self.identifier.duplicate(),
            size: self.size,
            childs: duplicate_identifiers(&self.childs),
            split: self.split,
        }
    }
}

/// The index of the last item of `items` named `id`, or -1 when none is.
pub open spec fn position_of(items: Seq<Item>, id: IdView) -> int
    decreases items.len(),
{
    if items.len() == 0 {
        -1
    } else if items.last().identifier@ == id {
        items.len() - 1
    } else {
        position_of(items.drop_last(), id)
    }
}

pub proof fn lemma_position_of(items: Seq<Item>, id: IdView)
    ensures
        -1 <= position_of(items, id) < items.len(),
        position_of(items, id) >= 0 ==> items[position_of(items, id)].identifier@ == id,
        position_of(items, id) >= 0 ==> forall|k: int|
            position_of(items, id) < k < items.len() ==> #[trigger] items[k].identifier@ != id,
        position_of(items, id) == -1 ==> forall|k: int|
            0 <= k < items.len() ==> #[trigger] items[k].identifier@ != id,
    decreases items.len(),
{
    if items.len() > 0 {
        let rest = items.drop_last();
        lemma_position_of(rest, id);
        let p = position_of(items, id);
        if p >= 0 {
            assert forall|k: int| p < k < items.len() implies #[trigger] items[k].identifier@ != id by {
                if k < items.len() - 1 {
                    assert(items[k] == rest[k]);
                }
            }
        } else {
            assert forall|k: int| 0 <= k < items.len() implies #[trigger] items[k].identifier@ != id by {
                if k < items.len() - 1 {
                    assert(items[k] == rest[k]);
                }
            }
        }
    }
}

/// Finds the last item named `id`.
pub fn find_item(items: &Vec<Item>, id: &Identifier) -> (r: Option<usize>)
    ensures
        r is Some <==> position_of(items@, id@) >= 0,
        r is Some ==> r->0 == position_of(items@, id@),
{
    let mut i: usize = items.len();
    assert(items@.subrange(0, i as int) =~= items@);
    while i > 0
        invariant
            i <= items.len(),
            position_of(items@, id@) == position_of(items@.subrange(0, i as int), id@),
        decreases i,
    {
        let ghost prefix = items@.subrange(0, i as int);
        assert(prefix.drop_last() =~= items@.subrange(0, i - 1));
        if items[i - 1].identifier == *id {
            return Some(i - 1);
        }
        i = i - 1;
    }
    None
}

/// One node of an [`ItemTree`]: its item, the index of its parent, and the
/// indices of its children in placement order.
#[derive(Clone, Debug)]
pub struct TreeNode {
    pub item: Item,
    pub parent: Option<usize>,
    pub childs: Vec<usize>,
    /// The index, in the flat list, of the item this node was made from.
    pub origin: usize,
}

/// The linked layout tree, stored as an arena: node 0 is the root, and the
/// nodes are laid out depth-first (see [`ItemTree::wf`] and `preorder`).
#[derive(Clone, Debug)]
pub struct ItemTree {
    pub nodes: Vec<TreeNode>,
}

/// Why a flat item list could not be linked into a tree.
#[derive(Clone, Debug)]
pub enum TreeError {
    /// The list holds no item.
    EmptyItemSet,
    /// A container child names no item of the list.
    UnknownIdentifier(Identifier),
    /// A gadget child has neither a per-parent nor a generic definition.
    MissingGadgetDefinition(Identifier),
    /// Linking would give two nodes this identifier (a container placed twice,
    /// a container inside itself, or a gadget placed twice under one parent).
    DuplicateIdentifier(Identifier),
}

/// Node `i`'s parent comes before it, at or after `lo`, and lists `i` among its children.
pub open spec fn parent_linked(nodes: Seq<TreeNode>, lo: int, i: int) -> bool {
    &&& nodes[i].parent matches Some(p)
    &&& lo <= p < i
    &&& nodes[nodes[i].parent->0 as int].childs@.contains(i as usize)
}

/// Node `i`'s children come after it, name it as parent, and are in increasing order.
pub open spec fn childs_ordered(nodes: Seq<TreeNode>, i: int) -> bool {
    let kids = nodes[i].childs@;
    &&& forall|k: int|
        0 <= k < kids.len() ==> i < #[trigger] kids[k] < nodes.len() && nodes[kids[k] as int].parent
            == Some(i as usize)
    &&& forall|k1: int, k2: int| 0 <= k1 < k2 < kids.len() ==> #[trigger] kids[k1] < #[trigger] kids[k2]
}

/// The nodes from `lo` on form a tree rooted at `lo`.
pub open spec fn sub_ok(nodes: Seq<TreeNode>, lo: int) -> bool {
    &&& 0 <= lo < nodes.len()
    &&& forall|i: int| lo < i < nodes.len() ==> #[trigger] parent_linked(nodes, lo, i)
    &&& forall|i: int| lo <= i < nodes.len() ==> #[trigger] childs_ordered(nodes, i)
}

/// Node `j` lies in the subtree of node `i`.
pub open spec fn descends(nodes: Seq<TreeNode>, j: int, i: int) -> bool
    decreases j,
{
    j == i || (0 < j < nodes.len() && nodes[j].parent is Some && nodes[j].parent->0 < j && descends(
        nodes,
        nodes[j].parent->0 as int,
        i,
    ))
}

/// Node `j` directly follows its parent's subtree as laid out so far: the
/// node before it lies in its parent's subtree.
pub open spec fn follows_parent(nodes: Seq<TreeNode>, j: int) -> bool {
    nodes[j].parent is Some && descends(nodes, j - 1, nodes[j].parent->0 as int)
}

/// The nodes are laid out depth-first: every node's subtree is one
/// contiguous block starting at the node itself, and (children being in
/// increasing order) the children's blocks follow one another in declared order.
pub open spec fn preorder(nodes: Seq<TreeNode>) -> bool {
    forall|j: int| 0 < j < nodes.len() ==> #[trigger] follows_parent(nodes, j)
}

/// Whether a node lies in a subtree depends only on the parents of the nodes up to it.
proof fn lemma_descends_frame(a: Seq<TreeNode>, b: Seq<TreeNode>, j: int, i: int)
    requires
        0 <= j < a.len(),
        j < b.len(),
        forall|k: int| 0 <= k <= j ==> #[trigger] a[k].parent == b[k].parent,
    ensures
        descends(a, j, i) == descends(b, j, i),
    decreases j,
{
    if j != i && j > 0 && a[j].parent is Some && a[j].parent->0 < j {
        lemma_descends_frame(a, b, a[j].parent->0 as int, i);
    }
}

/// A node in the subtree of a child of `me` lies in the subtree of `me`.
proof fn lemma_descends_through(ns: Seq<TreeNode>, j: int, c: int, me: int)
    requires
        0 <= me < c <= j < ns.len(),
        ns[c].parent is Some,
        ns[c].parent->0 == me,
        descends(ns, j, c),
    ensures
        descends(ns, j, me),
    decreases j,
{
    if j != c {
        let p = ns[j].parent->0 as int;
        lemma_descends_above(ns, p, c);
        lemma_descends_through(ns, p, c, me);
    } else {
        assert(descends(ns, me, me));
    }
}

/// A node lies only in the subtrees of nodes at or before it.
proof fn lemma_descends_above(ns: Seq<TreeNode>, j: int, i: int)
    requires
        descends(ns, j, i),
    ensures
        j >= i,
    decreases j,
{
    if j != i {
        lemma_descends_above(ns, ns[j].parent->0 as int, i);
    }
}

/// Whether node `i` was expanded from its item's children: the root and the containers.
pub open spec fn expands(nodes: Seq<TreeNode>, i: int) -> bool {
    i == 0 || nodes[i].item.identifier@.0
}

/// The item that defines the gadget `g` placed under `parent`: the per-parent
/// item named `"{parent}->{g}"` if there is one, else the generic item named `g`.
pub open spec fn gadget_source(items: Seq<Item>, parent: IdView, g: IdView) -> int {
    let own = position_of(items, (false, instance_name(parent.1, g.1)));
    if own >= 0 {
        own
    } else {
        position_of(items, g)
    }
}

/// The item of the node made for the child named `cid` of an item named `parent`.
pub open spec fn child_item(items: Seq<Item>, parent: IdView, cid: IdView) -> ItemView {
    if cid.0 {
        items[position_of(items, cid)]@
    } else {
        let src = items[gadget_source(items, parent, cid)]@;
        ItemView { identifier: (false, instance_name(parent.1, cid.1)), ..src }
    }
}

/// The child named `cid` of an item named `parent` can be resolved.
pub open spec fn child_resolves(items: Seq<Item>, parent: IdView, cid: IdView) -> bool {
    if cid.0 {
        position_of(items, cid) >= 0
    } else {
        gadget_source(items, parent, cid) >= 0
    }
}

/// Node `i` holds one child node per child of its item, each made from the
/// item that the child's name resolves to; a gadget node holds none.
pub open spec fn node_linked(items: Seq<Item>, nodes: Seq<TreeNode>, i: int) -> bool {
    let item = nodes[i].item@;
    if expands(nodes, i) {
        &&& nodes[i].childs@.len() == item.childs.len()
        &&& forall|k: int|
            0 <= k < item.childs.len() ==> child_resolves(items, item.identifier, #[trigger] item.childs[k])
                && nodes[nodes[i].childs@[k] as int].item@ == child_item(
                items,
                item.identifier,
                item.childs[k],
            )
    } else {
        nodes[i].childs@.len() == 0
    }
}

/// Item `x` is expanded within `d` steps from the first item: the first
/// item is, and so is the item that a container child of an expanded item
/// resolves to.
pub open spec fn reach(items: Seq<Item>, x: int, d: nat) -> bool
    decreases d,
{
    if d == 0 {
        x == 0
    } else {
        reach(items, x, (d - 1) as nat) || exists|j: int, k: int|
            occurrence(items, j, k) && reach(items, j, (d - 1) as nat) && items[j]@.childs[k].0
                && #[trigger] position_of(items, items[j]@.childs[k]) == x
    }
}

/// Item `x` is expanded when the list is linked from its first item.
pub open spec fn reachable(items: Seq<Item>, x: int) -> bool {
    exists|d: nat| #[trigger] reach(items, x, d)
}

/// Child `k` of item `j` is a reference that linking follows.
pub open spec fn live(items: Seq<Item>, j: int, k: int) -> bool {
    occurrence(items, j, k) && reachable(items, j)
}

/// Linking would give two nodes the name `n`: a followed reference places
/// the root's own name, or two followed references place the same name.
pub open spec fn duplicated(items: Seq<Item>, n: IdView) -> bool {
    ||| n == items[0]@.identifier && exists|j: int, k: int|
        live(items, j, k) && #[trigger] placed_name(items, j, k) == n
    ||| exists|j1: int, k1: int, j2: int, k2: int|
        live(items, j1, k1) && live(items, j2, k2) && (j1 != j2 || k1 != k2) && #[trigger] placed_name(
            items,
            j1,
            k1,
        ) == n && #[trigger] placed_name(items, j2, k2) == n
}

/// What an error says of the list it came from: the name it carries is an
/// undefined container or gadget that a followed reference names, or a name
/// that linking would place twice.
pub open spec fn error_explained(items: Seq<Item>, e: TreeError) -> bool {
    match e {
        TreeError::EmptyItemSet => items.len() == 0,
        TreeError::UnknownIdentifier(n) => n@.0 && position_of(items, n@) == -1 && exists|j: int, k: int|
            live(items, j, k) && #[trigger] items[j]@.childs[k] == n@,
        TreeError::MissingGadgetDefinition(n) => !n@.0 && exists|j: int, k: int|
            live(items, j, k) && #[trigger] items[j]@.childs[k] == n@ && gadget_source(
                items,
                items[j]@.identifier,
                n@,
            ) == -1,
        TreeError::DuplicateIdentifier(n) => duplicated(items, n@),
    }
}

/// How many entries of `s` are still false.
pub open spec fn unvisited(s: Seq<bool>) -> nat
    decreases s.len(),
{
    if s.len() == 0 {
        0
    } else {
        unvisited(s.drop_last()) + if s.last() { 0nat } else { 1nat }
    }
}

proof fn lemma_unvisited_mark(s: Seq<bool>, k: int)
    requires
        0 <= k < s.len(),
        !s[k],
    ensures
        unvisited(s.update(k, true)) + 1 == unvisited(s),
    decreases s.len(),
{
    let t = s.update(k, true);
    if k < s.len() - 1 {
        assert(t.drop_last() =~= s.drop_last().update(k, true));
        lemma_unvisited_mark(s.drop_last(), k);
    } else {
        assert(t.drop_last() =~= s.drop_last());
    }
}

/// Child `k` of item `j` is a child reference of the list.
pub open spec fn occurrence(items: Seq<Item>, j: int, k: int) -> bool {
    0 <= j < items.len() && 0 <= k < items[j]@.childs.len()
}

/// The identifier of the node that child `k` of item `j` becomes: the
/// container's own name, or `"{item}->{gadget}"` for a gadget.
pub open spec fn placed_name(items: Seq<Item>, j: int, k: int) -> IdView {
    let cid = items[j]@.childs[k];
    if cid.0 {
        cid
    } else {
        (false, instance_name(items[j]@.identifier.1, cid.1))
    }
}

/// Every reference that linking follows resolves, and no name would be
/// placed twice: no container is placed twice or inside itself, and no two
/// gadget instances collide. References of items that linking never
/// reaches, and the children declared by gadget items, play no part.
pub open spec fn links_cleanly(items: Seq<Item>) -> bool {
    &&& items.len() > 0
    &&& forall|j: int, k: int|
        live(items, j, k) ==> child_resolves(items, items[j]@.identifier, #[trigger] items[j]@.childs[k])
    &&& forall|n: IdView| !#[trigger] duplicated(items, n)
}

/// A list that links cleanly gives no linking error.
proof fn lemma_clean_has_no_error(items: Seq<Item>, e: TreeError)
    requires
        links_cleanly(items),
    ensures
        !error_explained(items, e),
{
    if error_explained(items, e) {
    match e {
        TreeError::EmptyItemSet => {},
        TreeError::UnknownIdentifier(n) => {
            let (j, k) = choose|j: int, k: int| live(items, j, k) && #[trigger] items[j]@.childs[k] == n@;
            assert(child_resolves(items, items[j]@.identifier, items[j]@.childs[k]));
        },
        TreeError::MissingGadgetDefinition(n) => {
            let (j, k) = choose|j: int, k: int|
                live(items, j, k) && #[trigger] items[j]@.childs[k] == n@ && gadget_source(
                    items,
                    items[j]@.identifier,
                    n@,
                ) == -1;
            assert(child_resolves(items, items[j]@.identifier, items[j]@.childs[k]));
        },
        TreeError::DuplicateIdentifier(n) => {
            assert(!duplicated(items, n@));
        },
    }
    }
}

/// Node `q` was placed by a child reference of the item its parent was made from.
pub open spec fn named_by_parent(items: Seq<Item>, nodes: Seq<TreeNode>, q: int) -> bool {
    &&& nodes[q].parent is Some
    &&& nodes[q].parent->0 < q
    &&& expands(nodes, nodes[q].parent->0 as int)
    &&& exists|kq: int|
        0 <= kq < items[nodes[nodes[q].parent->0 as int].origin as int]@.childs.len() && #[trigger] placed_name(
            items,
            nodes[nodes[q].parent->0 as int].origin as int,
            kq,
        ) == nodes[q].item@.identifier
}

/// What holds of the linker's state between steps: each expanded node holds
/// the item it was made from, a visited item, and no two expanded nodes were
/// made from the same item; an item is visited only if it is the root's
/// definition, `pending`, or was expanded; every other node was placed by
/// its parent's item.
pub open spec fn build_state(items: Seq<Item>, nodes: Seq<TreeNode>, visited: Seq<bool>, pending: int) -> bool {
    &&& visited.len() == items.len()
    &&& forall|q: int|
        0 <= q < nodes.len() && #[trigger] expands(nodes, q) ==> nodes[q].origin < items.len()
            && visited[nodes[q].origin as int] && nodes[q].item@ == items[nodes[q].origin as int]@
            && reachable(items, nodes[q].origin as int)
    &&& forall|p: int, q: int|
        0 <= p < q < nodes.len() && #[trigger] expands(nodes, p) && #[trigger] expands(nodes, q)
            ==> nodes[p].origin != nodes[q].origin
    &&& forall|x: int|
        0 <= x < visited.len() && #[trigger] visited[x] ==> items[x]@.identifier == items[0]@.identifier || x
            == pending || exists|q: int| 0 < q < nodes.len() && #[trigger] expands(nodes, q) && nodes[q].origin == x
    &&& forall|q: int| 0 < q < nodes.len() ==> #[trigger] named_by_parent(items, nodes, q)
}

/// The node made for child `k` of item `j` carries the name that reference places.
proof fn lemma_child_item_name(items: Seq<Item>, j: int, k: int)
    requires
        occurrence(items, j, k),
        child_resolves(items, items[j]@.identifier, items[j]@.childs[k]),
    ensures
        child_item(items, items[j]@.identifier, items[j]@.childs[k]).identifier == placed_name(items, j, k),
{
    lemma_position_of(items, items[j]@.childs[k]);
}

/// A node other than the root was placed by child `m` of the item its
/// parent was made from, a reference that linking follows.
proof fn lemma_node_placed(items: Seq<Item>, nodes: Seq<TreeNode>, visited: Seq<bool>, x: int) -> (m: int)
    requires
        build_state(items, nodes, visited, -1),
        sub_ok(nodes, 0),
        forall|i: int| 0 <= i < nodes.len() ==> #[trigger] node_linked(items, nodes, i),
        nodes.len() <= usize::MAX,
        0 < x < nodes.len(),
    ensures
        ({
            let p = nodes[x].parent->0 as int;
            &&& 0 <= p < x
            &&& expands(nodes, p)
            &&& 0 <= m < nodes[p].childs@.len()
            &&& nodes[p].childs@[m] as int == x
            &&& live(items, nodes[p].origin as int, m)
            &&& placed_name(items, nodes[p].origin as int, m) == nodes[x].item@.identifier
        }),
{
    assert(parent_linked(nodes, 0, x));
    assert(named_by_parent(items, nodes, x));
    let p = nodes[x].parent->0 as int;
    let o = nodes[p].origin as int;
    assert(expands(nodes, p));
    assert(nodes[p].childs@.contains(x as usize));
    let m = choose|m: int| 0 <= m < nodes[p].childs@.len() && nodes[p].childs@[m] == x as usize;
    assert(nodes[p].childs@[m] as int == x);
    assert(node_linked(items, nodes, p));
    assert(nodes[p].item@ == items[o]@);
    assert(child_resolves(items, nodes[p].item@.identifier, nodes[p].item@.childs[m]));
    lemma_child_item_name(items, o, m);
    m
}

/// Two nodes that share an identifier show a name that linking places twice.
proof fn lemma_dup_nodes(items: Seq<Item>, nodes: Seq<TreeNode>, visited: Seq<bool>, a: int, b: int)
    requires
        build_state(items, nodes, visited, -1),
        sub_ok(nodes, 0),
        nodes[0].item@ == items[0]@,
        forall|i: int| 0 <= i < nodes.len() ==> #[trigger] node_linked(items, nodes, i),
        nodes.len() <= usize::MAX,
        0 <= a < b < nodes.len(),
        nodes[a].item.identifier@ == nodes[b].item.identifier@,
    ensures
        duplicated(items, nodes[a].item.identifier@),
{
    let n = nodes[a].item.identifier@;
    let mb = lemma_node_placed(items, nodes, visited, b);
    let pb = nodes[b].parent->0 as int;
    assert(placed_name(items, nodes[pb].origin as int, mb) == n);
    if a == 0 {
        assert(n == items[0]@.identifier);
    } else {
        let ma = lemma_node_placed(items, nodes, visited, a);
        let pa = nodes[a].parent->0 as int;
        assert(placed_name(items, nodes[pa].origin as int, ma) == n);
        if pa != pb {
            if pa < pb {
                assert(nodes[pa].origin != nodes[pb].origin);
            } else {
                assert(nodes[pb].origin != nodes[pa].origin);
            }
        } else {
            assert(ma != mb);
        }
    }
}

/// When child `k` of the item being expanded refers to an item already
/// visited, the name that reference places is placed twice.
proof fn lemma_dup_reference(
    items: Seq<Item>,
    ns: Seq<TreeNode>,
    vs: Seq<bool>,
    me: int,
    item_index: int,
    k: int,
    childs: Seq<usize>,
    ci: int,
)
    requires
        build_state(items, ns, vs, -1),
        ns.len() <= usize::MAX,
        occurrence(items, item_index, k),
        reachable(items, item_index),
        items[item_index]@.childs[k].0,
        0 <= ci < items.len(),
        vs[ci],
        items[ci]@.identifier == items[item_index]@.childs[k],
        0 <= me < ns.len(),
        ns[me].origin == item_index,
        expands(ns, me),
        ns[me].item@ == items[item_index]@,
        forall|i: int| me < i < ns.len() && ns[i].parent == Some(me as usize) ==> #[trigger] childs.contains(i as usize),
        childs.len() == k,
        forall|j: int|
            0 <= j < k ==> child_resolves(items, items[item_index]@.identifier, #[trigger] items[item_index]@.childs[j])
                && ns[childs[j] as int].item@ == child_item(
                items,
                items[item_index]@.identifier,
                items[item_index]@.childs[j],
            ),
    ensures
        duplicated(items, items[item_index]@.childs[k]),
{
    let cid = items[item_index]@.childs[k];
    assert(placed_name(items, item_index, k) == cid);
    assert(live(items, item_index, k));
    if items[ci]@.identifier != items[0]@.identifier {
        let q = choose|q: int| 0 < q < ns.len() && #[trigger] expands(ns, q) && ns[q].origin == ci;
        assert(ns[q].item@ == items[ci]@);
        assert(named_by_parent(items, ns, q));
        let p = ns[q].parent->0 as int;
        let kq = choose|kq: int|
            0 <= kq < items[ns[p].origin as int]@.childs.len() && #[trigger] placed_name(
                items,
                ns[p].origin as int,
                kq,
            ) == ns[q].item@.identifier;
        assert(expands(ns, p));
        assert(live(items, ns[p].origin as int, kq));
        if ns[p].origin as int == item_index && kq == k {
            if p != me {
                if p < me {
                    assert(ns[p].origin != ns[me].origin);
                } else {
                    assert(ns[me].origin != ns[p].origin);
                }
            }
            assert(childs.contains(q as usize));
            let j = choose|j: int| 0 <= j < childs.len() && childs[j] == q as usize;
            assert(childs[j] as int == q);
            assert(child_resolves(items, items[item_index]@.identifier, items[item_index]@.childs[j]));
            lemma_child_item_name(items, item_index, j);
            assert(live(items, item_index, j));
            assert(placed_name(items, item_index, j) == cid);
        } else {
            assert(placed_name(items, ns[p].origin as int, kq) == cid);
        }
    }
}

/// Appends to `nodes` the subtree made from `items[item_index]`, in pre-order,
/// and returns the index of its root node.
fn construct_tree(
    items: &Vec<Item>,
    item_index: usize,
    parent: Option<usize>,
    nodes: &mut Vec<TreeNode>,
    visited: &mut Vec<bool>,
) -> (r: Result<usize, TreeError>)
    requires
        item_index < items@.len(),
        old(visited)@.len() == items@.len(),
        old(visited)@[item_index as int],
        old(nodes)@.len() == 0 || items@[item_index as int].identifier@.0,
        build_state(items@, old(nodes)@, old(visited)@, item_index as int),
        reachable(items@, item_index as int),
        old(nodes)@.len() == 0 ==> item_index == 0 && parent is None,
        old(nodes)@.len() > 0 ==> {
            &&& parent is Some
            &&& parent->0 < old(nodes)@.len()
            &&& expands(old(nodes)@, parent->0 as int)
            &&& exists|kq: int|
                0 <= kq < items@[old(nodes)@[parent->0 as int].origin as int]@.childs.len() && #[trigger] placed_name(
                    items@,
                    old(nodes)@[parent->0 as int].origin as int,
                    kq,
                ) == items@[item_index as int]@.identifier
        },
        forall|q: int|
            0 <= q < old(nodes)@.len() && #[trigger] expands(old(nodes)@, q) ==> old(nodes)@[q].origin != item_index,
    ensures
        final(visited)@.len() == items@.len(),
        unvisited(final(visited)@) <= unvisited(old(visited)@),
        r matches Ok(me) ==> {
            let ns = final(nodes)@;
            &&& me == old(nodes)@.len()
            &&& ns.len() > me
            &&& ns.subrange(0, me as int) == old(nodes)@
            &&& ns[me as int].parent == parent
            &&& ns[me as int].item@ == items@[item_index as int]@
            &&& ns[me as int].origin == item_index
            &&& forall|j: int| me <= j < ns.len() ==> #[trigger] descends(ns, j, me as int)
            &&& forall|j: int| me < j < ns.len() ==> #[trigger] follows_parent(ns, j)
            &&& build_state(items@, ns, final(visited)@, -1)
            &&& sub_ok(ns, me as int)
            &&& forall|i: int| me <= i < ns.len() ==> #[trigger] node_linked(items@, ns, i)
        },
        r matches Err(e) ==> error_explained(items@, e),
    decreases unvisited(old(visited)@),
{
    let ghost start = nodes@;
    let ghost budget = unvisited(visited@);
    let me = nodes.len();
    let item = &items[item_index];
    nodes.push(TreeNode { item: item.duplicate(), parent, childs: Vec::new(), origin: item_index });
    proof {
        let ns = nodes@;
        assert forall|q: int| 0 <= q < start.len() implies #[trigger] ns[q] == start[q] by {}
        assert forall|q: int| 0 <= q < ns.len() && #[trigger] expands(ns, q) implies ns[q].origin < items@.len()
            && visited@[ns[q].origin as int] && ns[q].item@ == items@[ns[q].origin as int]@
            && reachable(items@, ns[q].origin as int) by {
            if q < me {
                assert(expands(start, q));
            }
        }
        assert forall|a: int, b: int|
            0 <= a < b < ns.len() && #[trigger] expands(ns, a) && #[trigger] expands(ns, b) implies ns[a].origin
            != ns[b].origin by {
            assert(expands(start, a));
            if b < me {
                assert(expands(start, b));
            }
        }
        assert forall|x: int| 0 <= x < visited@.len() && #[trigger] visited@[x] implies items@[x]@.identifier
            == items@[0]@.identifier || x == -1 || exists|q: int|
            0 < q < ns.len() && #[trigger] expands(ns, q) && ns[q].origin == x by {
            if x == item_index {
                if me > 0 {
                    assert(expands(ns, me as int));
                }
            } else if items@[x]@.identifier != items@[0]@.identifier {
                let q = choose|q: int| 0 < q < start.len() && #[trigger] expands(start, q) && start[q].origin == x;
                assert(expands(ns, q));
            }
        }
        assert forall|q: int| 0 < q < ns.len() implies #[trigger] named_by_parent(items@, ns, q) by {
            if q < me {
                assert(named_by_parent(items@, start, q));
                let p = start[q].parent->0 as int;
                assert(expands(start, p));
                assert(ns[p] == start[p]);
                let kq = choose|kq: int|
                    0 <= kq < items@[start[p].origin as int]@.childs.len() && #[trigger] placed_name(
                        items@,
                        start[p].origin as int,
                        kq,
                    ) == start[q].item@.identifier;
                assert(placed_name(items@, ns[p].origin as int, kq) == ns[q].item@.identifier);
            } else {
                let p = parent->0 as int;
                assert(ns[p] == start[p]);
                let kq = choose|kq: int|
                    0 <= kq < items@[start[p].origin as int]@.childs.len() && #[trigger] placed_name(
                        items@,
                        start[p].origin as int,
                        kq,
                    ) == items@[item_index as int]@.identifier;
                assert(placed_name(items@, ns[p].origin as int, kq) == ns[q].item@.identifier);
            }
        }
        assert(build_state(items@, ns, visited@, -1));
    }
    let mut childs: Vec<usize> = Vec::new();
    let mut k: usize = 0;
    while k < item.childs.len()
        invariant
            item == &items@[item_index as int],
            item_index < items@.len(),
            me == start.len(),
            nodes@.len() > me,
            nodes@.subrange(0, me as int) == start,
            nodes@[me as int].parent == parent,
            nodes@[me as int].item@ == item@,
            nodes@[me as int].origin == item_index,
            reachable(items@, item_index as int),
            forall|j: int| me <= j < nodes@.len() ==> #[trigger] descends(nodes@, j, me as int),
            forall|j: int| me < j < nodes@.len() ==> #[trigger] follows_parent(nodes@, j),
            build_state(items@, nodes@, visited@, -1),
            me == 0 || item@.identifier.0,
            visited@.len() == items@.len(),
            unvisited(visited@) <= budget,
            budget == unvisited(old(visited)@),
            k <= item.childs@.len(),
            childs@.len() == k,
            forall|j: int|
                0 <= j < k ==> me < #[trigger] childs@[j] < nodes@.len() && nodes@[childs@[j] as int].parent
                    == Some(me),
            forall|j1: int, j2: int| 0 <= j1 < j2 < k ==> #[trigger] childs@[j1] < #[trigger] childs@[j2],
            forall|j: int|
                0 <= j < k ==> child_resolves(items@, item@.identifier, #[trigger] item@.childs[j])
                    && nodes@[childs@[j] as int].item@ == child_item(
                    items@,
                    item@.identifier,
                    item@.childs[j],
                ),
            forall|i: int|
                me < i < nodes@.len() ==> {
                    &&& #[trigger] nodes@[i].parent matches Some(p)
                    &&& me <= p < i
                    &&& if p == me {
                        childs@.contains(i as usize)
                    } else {
                        nodes@[p as int].childs@.contains(i as usize)
                    }
                },
            forall|i: int| me < i < nodes@.len() ==> #[trigger] childs_ordered(nodes@, i),
            forall|i: int| me < i < nodes@.len() ==> #[trigger] node_linked(items@, nodes@, i),
        decreases item.childs@.len() - k,
    {
        let cid = &item.childs[k];
        assert(item@.childs[k as int] == cid@);
        let ghost before = nodes@;
        let c: usize;
        if cid.is_container() {
            let found = find_item(items, cid);
            let ci = match found {
                None => {
                    proof {
                        lemma_position_of(items@, cid@);
                        assert(items@[item_index as int]@.childs[k as int] == cid@);
                        assert(live(items@, item_index as int, k as int));
                    }
                    return Err(TreeError::UnknownIdentifier(cid.duplicate()));
                },
                Some(ci) => ci,
            };
            proof {
                lemma_position_of(items@, cid@);
            }
            if visited[ci] {
                proof {
                    assert(nodes@.len() == nodes.len());
                    lemma_dup_reference(items@, nodes@, visited@, me as int, item_index as int, k as int, childs@, ci as int);
                }
                return Err(TreeError::DuplicateIdentifier(cid.duplicate()));
            }
            proof {
                lemma_unvisited_mark(visited@, ci as int);
            }
            let ghost seen = visited@;
            visited.set(ci, true);
            proof {
                let ns = nodes@;
                let vs = visited@;
                assert(expands(ns, me as int));
                assert forall|q: int| 0 <= q < ns.len() && #[trigger] expands(ns, q) implies ns[q].origin < items@.len()
                    && vs[ns[q].origin as int] && ns[q].item@ == items@[ns[q].origin as int]@
                    && reachable(items@, ns[q].origin as int) by {
                    assert(seen[ns[q].origin as int]);
                }
                assert forall|x: int| 0 <= x < vs.len() && #[trigger] vs[x] implies items@[x]@.identifier
                    == items@[0]@.identifier || x == ci || exists|q: int|
                    0 < q < ns.len() && #[trigger] expands(ns, q) && ns[q].origin == x by {
                    if x != ci {
                        assert(seen[x]);
                    }
                }
                assert(build_state(items@, ns, vs, ci as int));
                assert forall|q: int| 0 <= q < ns.len() && #[trigger] expands(ns, q) implies ns[q].origin != ci by {
                    assert(seen[ns[q].origin as int]);
                }
                assert(occurrence(items@, item_index as int, k as int));
                assert(placed_name(items@, item_index as int, k as int) == cid@);
                assert(items@[ci as int]@.identifier == cid@);
                assert(placed_name(items@, ns[me as int].origin as int, k as int) == items@[ci as int]@.identifier);
                let d = choose|d: nat| #[trigger] reach(items@, item_index as int, d);
                assert(position_of(items@, items@[item_index as int]@.childs[k as int]) == ci);
                assert(reach(items@, ci as int, d + 1));
                assert(reachable(items@, ci as int));
            }
            let sub = construct_tree(items, ci, Some(me), nodes, visited);
            c = match sub {
                Err(e) => {
                    return Err(e);
                },
                Ok(c) => c,
            };
            assert forall|i: int| 0 <= i < before.len() implies nodes@[i] == before[i] by {
                assert(nodes@.subrange(0, c as int)[i] == nodes@[i]);
            }
            assert(nodes@[c as int].item@ == child_item(items@, item@.identifier, cid@));
        } else {
            let inst = Identifier::gadget_instance(&item.identifier, cid);
            proof {
                lemma_position_of(items@, inst@);
                lemma_position_of(items@, cid@);
            }
            let src = match find_item(items, &inst) {
                Some(s) => s,
                None => match find_item(items, cid) {
                    Some(s) => s,
                    None => {
                        proof {
                            lemma_position_of(items@, cid@);
                            assert(items@[item_index as int]@.childs[k as int] == cid@);
                            assert(live(items@, item_index as int, k as int));
                            assert(gadget_source(items@, items@[item_index as int]@.identifier, cid@) == -1);
                        }
                        return Err(TreeError::MissingGadgetDefinition(cid.duplicate()));
                    },
                },
            };
            let s = &items[src];
            let child = Item {
                identifier: inst,
                size: s.size,
                childs: duplicate_identifiers(&s.childs),
                split: s.split,
            };
            c = nodes.len();
            nodes.push(TreeNode { item: child, parent: Some(me), childs: Vec::new(), origin: src });
            assert(nodes@[c as int].item@ == child_item(items@, item@.identifier, cid@));
            assert forall|i: int| 0 <= i < before.len() implies nodes@[i] == before[i] by {}
            proof {
                let ns = nodes@;
                assert(!expands(ns, c as int));
                assert forall|q: int| 0 <= q < ns.len() && #[trigger] expands(ns, q) implies ns[q].origin < items@.len()
                    && visited@[ns[q].origin as int] && ns[q].item@ == items@[ns[q].origin as int]@
            && reachable(items@, ns[q].origin as int) by {
                    assert(expands(before, q));
                }
                assert forall|a: int, b: int|
                    0 <= a < b < ns.len() && #[trigger] expands(ns, a) && #[trigger] expands(ns, b) implies ns[a].origin
                    != ns[b].origin by {
                    assert(expands(before, a));
                    assert(expands(before, b));
                }
                assert forall|x: int| 0 <= x < visited@.len() && #[trigger] visited@[x] implies items@[x]@.identifier
                    == items@[0]@.identifier || x == -1 || exists|q: int|
                    0 < q < ns.len() && #[trigger] expands(ns, q) && ns[q].origin == x by {
                    if items@[x]@.identifier != items@[0]@.identifier {
                        let q = choose|q: int| 0 < q < before.len() && #[trigger] expands(before, q) && before[q].origin == x;
                        assert(expands(ns, q));
                    }
                }
                assert forall|q: int| 0 < q < ns.len() implies #[trigger] named_by_parent(items@, ns, q) by {
                    if q < before.len() {
                        assert(named_by_parent(items@, before, q));
                        let p = before[q].parent->0 as int;
                        assert(expands(before, p));
                        let kq = choose|kq: int|
                            0 <= kq < items@[before[p].origin as int]@.childs.len() && #[trigger] placed_name(
                                items@,
                                before[p].origin as int,
                                kq,
                            ) == before[q].item@.identifier;
                        assert(placed_name(items@, ns[p].origin as int, kq) == ns[q].item@.identifier);
                    } else {
                        assert(expands(ns, me as int));
                        assert(placed_name(items@, ns[me as int].origin as int, k as int) == ns[q].item@.identifier);
                    }
                }
            }
        }
        assert(c >= before.len());
        proof {
            let ns = nodes@;
            assert(c == before.len());
            assert forall|j: int| me <= j < ns.len() implies #[trigger] descends(ns, j, me as int) by {
                if j < c {
                    lemma_descends_frame(before, ns, j, me as int);
                } else {
                    lemma_descends_through(ns, j, c as int, me as int);
                }
            }
            assert forall|j: int| me < j < ns.len() implies #[trigger] follows_parent(ns, j) by {
                if j < c {
                    assert(follows_parent(before, j));
                    lemma_descends_frame(before, ns, j - 1, before[j].parent->0 as int);
                } else if j == c {
                    assert(descends(before, c - 1, me as int));
                    lemma_descends_frame(before, ns, c - 1, me as int);
                }
            }
        }
        let ghost prev_childs = childs@;
        childs.push(c);
        assert(childs@[k as int] == c);
        assert(nodes@.subrange(0, me as int) =~= start) by {
            assert forall|i: int| 0 <= i < me implies nodes@.subrange(0, me as int)[i] == start[i] by {
                assert(before.subrange(0, me as int)[i] == start[i]);
            }
        }
        assert forall|i: int| me < i < nodes@.len() implies {
            &&& #[trigger] nodes@[i].parent matches Some(p)
            &&& me <= p < i
            &&& if p == me {
                childs@.contains(i as usize)
            } else {
                nodes@[p as int].childs@.contains(i as usize)
            }
        } by {
            if i == c {
                assert(childs@[k as int] == c);
            } else if i < before.len() {
                assert(nodes@[i] == before[i]);
                assert(before[i].parent matches Some(p) && me <= p < i);
                let p = before[i].parent->0;
                assert(nodes@[p as int] == before[p as int]);
                if p == me {
                    assert(prev_childs.contains(i as usize));
                    let j = choose|j: int| 0 <= j < prev_childs.len() && prev_childs[j] == i as usize;
                    assert(childs@[j] == i as usize);
                }
            } else {
                assert(parent_linked(nodes@, c as int, i));
            }
        }
        assert forall|i: int| me < i < nodes@.len() implies #[trigger] childs_ordered(nodes@, i) by {
            if i < before.len() {
                assert(childs_ordered(before, i));
            }
        }
        assert forall|i: int| me < i < nodes@.len() implies #[trigger] node_linked(items@, nodes@, i) by {
            if i < before.len() {
                assert(node_linked(items@, before, i));
                if expands(before, i) {
                    assert forall|j: int| 0 <= j < nodes@[i].childs@.len() implies #[trigger] nodes@[nodes@[i].childs@[j] as int]
                        == before[before[i].childs@[j] as int] by {
                        assert(childs_ordered(before, i));
                        assert(before[i].childs@[j] < before.len());
                    }
                }
            }
        }
        k = k + 1;
    }
    let ghost pre = nodes@;
    nodes[me].childs = childs;
    proof {
        let ns = nodes@;
        assert forall|x: int| 0 <= x < ns.len() && x != me implies #[trigger] ns[x] == pre[x] by {}
        assert forall|i: int| me < i < ns.len() implies #[trigger] parent_linked(ns, me as int, i) by {
            let p = pre[i].parent->0;
            if p != me {
                assert(ns[p as int] == pre[p as int]);
            }
        }
        assert forall|i: int| me <= i < ns.len() implies #[trigger] childs_ordered(ns, i) by {
            if i > me {
                assert(childs_ordered(pre, i));
                assert forall|k2: int| 0 <= k2 < ns[i].childs@.len() implies #[trigger] ns[ns[i].childs@[k2] as int]
                    == pre[pre[i].childs@[k2] as int] by {
                    assert(pre[i].childs@[k2] > i);
                }
            }
        }
        assert forall|x: int| 0 <= x < ns.len() implies #[trigger] expands(ns, x) == expands(pre, x) && ns[x].origin
            == pre[x].origin && ns[x].item == pre[x].item && ns[x].parent == pre[x].parent by {}
        assert forall|q: int| 0 <= q < ns.len() && #[trigger] expands(ns, q) implies ns[q].origin < items@.len()
            && visited@[ns[q].origin as int] && ns[q].item@ == items@[ns[q].origin as int]@
            && reachable(items@, ns[q].origin as int) by {
            assert(expands(pre, q));
        }
        assert forall|a: int, b: int|
            0 <= a < b < ns.len() && #[trigger] expands(ns, a) && #[trigger] expands(ns, b) implies ns[a].origin
            != ns[b].origin by {
            assert(expands(pre, a));
            assert(expands(pre, b));
        }
        assert forall|x: int| 0 <= x < visited@.len() && #[trigger] visited@[x] implies items@[x]@.identifier
            == items@[0]@.identifier || x == -1 || exists|q: int|
            0 < q < ns.len() && #[trigger] expands(ns, q) && ns[q].origin == x by {
            if items@[x]@.identifier != items@[0]@.identifier {
                let q = choose|q: int| 0 < q < pre.len() && #[trigger] expands(pre, q) && pre[q].origin == x;
                assert(expands(ns, q));
            }
        }
        assert forall|q: int| 0 < q < ns.len() implies #[trigger] named_by_parent(items@, ns, q) by {
            assert(named_by_parent(items@, pre, q));
            let p = pre[q].parent->0 as int;
            assert(expands(pre, p));
            let kq = choose|kq: int|
                0 <= kq < items@[pre[p].origin as int]@.childs.len() && #[trigger] placed_name(
                    items@,
                    pre[p].origin as int,
                    kq,
                ) == pre[q].item@.identifier;
            assert(placed_name(items@, ns[p].origin as int, kq) == ns[q].item@.identifier);
        }
        assert(build_state(items@, ns, visited@, -1));
        assert forall|j: int| me <= j < ns.len() implies #[trigger] descends(ns, j, me as int) by {
            lemma_descends_frame(pre, ns, j, me as int);
        }
        assert forall|j: int| me < j < ns.len() implies #[trigger] follows_parent(ns, j) by {
            assert(follows_parent(pre, j));
            lemma_descends_frame(pre, ns, j - 1, pre[j].parent->0 as int);
        }
        assert(node_linked(items@, ns, me as int));
        assert forall|i: int| me <= i < ns.len() implies #[trigger] node_linked(items@, ns, i) by {
            if i > me {
                assert(node_linked(items@, pre, i));
                assert(childs_ordered(pre, i));
                assert forall|k2: int| 0 <= k2 < ns[i].childs@.len() implies #[trigger] ns[ns[i].childs@[k2] as int]
                    == pre[pre[i].childs@[k2] as int] by {
                    assert(pre[i].childs@[k2] > i);
                }
            }
        }
        assert(ns.subrange(0, me as int) =~= start);
    }
    Ok(me)
}

/// No two nodes share an identifier.
pub open spec fn ids_unique(nodes: Seq<TreeNode>) -> bool {
    forall|i: int, j: int|
        0 <= i < j < nodes.len() ==> #[trigger] nodes[i].item.identifier@ != #[trigger] nodes[j].item.identifier@
}

/// The first identifier that two nodes share, if any.
fn find_duplicate(nodes: &Vec<TreeNode>) -> (r: Option<(usize, usize)>)
    ensures
        r is None <==> ids_unique(nodes@),
        r matches Some((a, b)) ==> a < b < nodes@.len() && nodes@[a as int].item.identifier@
            == nodes@[b as int].item.identifier@,
{
    let mut i: usize = 0;
    while i < nodes.len()
        invariant
            i <= nodes@.len(),
            forall|a: int, b: int|
                0 <= a < i && a < b < nodes@.len() ==> #[trigger] nodes@[a].item.identifier@
                    != #[trigger] nodes@[b].item.identifier@,
        decreases nodes@.len() - i,
    {
        let mut j: usize = i + 1;
        while j < nodes.len()
            invariant
                i < nodes@.len(),
                i < j <= nodes@.len(),
                forall|a: int, b: int|
                    0 <= a < i && a < b < nodes@.len() ==> #[trigger] nodes@[a].item.identifier@
                        != #[trigger] nodes@[b].item.identifier@,
                forall|b: int| i < b < j ==> nodes@[i as int].item.identifier@
                    != #[trigger] nodes@[b].item.identifier@,
            decreases nodes@.len() - j,
        {
            if nodes[i].item.identifier == nodes[j].item.identifier {
                return Some((i, j));
            }
            j = j + 1;
        }
        i = i + 1;
    }
    None
}

impl ItemTree {
    /// The tree is well formed: node 0 is the root, the nodes form a tree with
    /// each node's children in increasing order, and `preorder` holds, so each
    /// subtree is one contiguous block and children's blocks follow one
    /// another in declared order.
    pub open spec fn wf(&self) -> bool {
        &&& sub_ok(self.nodes@, 0)
        &&& self.nodes@[0].parent is None
        &&& preorder(self.nodes@)
    }

    /// The tree is what linking `items` gives: its root holds the first item,
    /// every node holds one child per child name of its item, resolved as
    /// the linker resolves them, and no two nodes share an identifier.
    pub open spec fn linked_from(&self, items: Seq<Item>) -> bool {
        &&& self.wf()
        &&& items.len() > 0
        &&& self.nodes@[0].item@ == items[0]@
        &&& forall|i: int| 0 <= i < self.nodes@.len() ==> #[trigger] node_linked(items, self.nodes@, i)
        &&& ids_unique(self.nodes@)
    }

    /// Links a flat item list into a tree. The first item is the root; a
    /// container child is the item of that name; the gadget `g` under the
    /// container `P` is the item named `"P->g"` if there is one, else the item
    /// named `g`, renamed `"P->g"`, and has no children of its own.
    pub fn new(items: &Vec<Item>) -> (r: Result<ItemTree, TreeError>)
        ensures
            r matches Err(TreeError::EmptyItemSet) <==> items@.len() == 0,
            r matches Ok(t) ==> t.linked_from(items@),
            r matches Err(e) ==> error_explained(items@, e),
            links_cleanly(items@) ==> r is Ok,
    {
        if items.len() == 0 {
            return Err(TreeError::EmptyItemSet);
        }
        let mut visited: Vec<bool> = Vec::new();
        let mut i: usize = 0;
        while i < items.len()
            invariant
                i <= items@.len(),
                visited@.len() == i,
                forall|j: int| 0 <= j < i ==> !#[trigger] visited@[j],
            decreases items@.len() - i,
        {
            visited.push(false);
            i = i + 1;
        }
        visited.set(0, true);
        match find_item(items, &items[0].identifier) {
            Some(k) => {
                proof {
                    lemma_position_of(items@, items@[0]@.identifier);
                }
                visited.set(k, true);
            },
            None => {},
        }
        let mut nodes: Vec<TreeNode> = Vec::new();
        proof {
            lemma_position_of(items@, items@[0]@.identifier);
            assert forall|x: int| 0 <= x < visited@.len() && #[trigger] visited@[x] implies items@[x]@.identifier
                == items@[0]@.identifier || x == 0 || exists|q: int|
                0 < q < nodes@.len() && #[trigger] expands(nodes@, q) && nodes@[q].origin == x by {}
        }
        proof {
            assert(reach(items@, 0, 0));
        }
        let root = construct_tree(items, 0, None, &mut nodes, &mut visited);
        match root {
            Err(e) => {
                proof {
                    if links_cleanly(items@) {
                        lemma_clean_has_no_error(items@, e);
                    }
                }
                Err(e)
            },
            Ok(_) => {
                match find_duplicate(&nodes) {
                    Some((a, b)) => {
                        proof {
                            assert(nodes@.len() == nodes.len());
                            lemma_dup_nodes(items@, nodes@, visited@, a as int, b as int);
                            if links_cleanly(items@) {
                                assert(!duplicated(items@, nodes@[a as int].item.identifier@));
                            }
                        }
                        Err(TreeError::DuplicateIdentifier(nodes[a].item.identifier.duplicate()))
                    },
                    None => Ok(ItemTree { nodes }),
                }
            },
        }
    }
}

/// The items of the container nodes (and of the root), in node order.
pub open spec fn flat_items(nodes: Seq<TreeNode>) -> Seq<ItemView>
    decreases nodes.len(),
{
    if nodes.len() == 0 {
        Seq::empty()
    } else {
        let i = nodes.len() - 1;
        flat_items(nodes.drop_last()) + if expands(nodes, i) {
            seq![nodes[i].item@]
        } else {
            Seq::empty()
        }
    }
}

impl ItemTree {
    /// Flattens the tree back to an item list: the items of the root and of the
    /// container nodes in node order, which on a well-formed tree is
    /// depth-first order with children in declared order. Gadget nodes are
    /// left out: they are made by the linker.
    pub fn to_items(&self) -> (r: Vec<Item>)
        ensures
            r@.map_values(|it: Item| it@) == flat_items(self.nodes@),
    {
        let mut items: Vec<Item> = Vec::new();
        let mut i: usize = 0;
        while i < self.nodes.len()
            invariant
                i <= self.nodes@.len(),
                items@.map_values(|it: Item| it@) == flat_items(self.nodes@.subrange(0, i as int)),
            decreases self.nodes@.len() - i,
        {
            let ghost prefix = self.nodes@.subrange(0, i as int + 1);
            assert(prefix.drop_last() =~= self.nodes@.subrange(0, i as int));
            assert(expands(prefix, i as int) == expands(self.nodes@, i as int));
            if i == 0 || self.nodes[i].item.identifier.is_container() {
                let ghost old_items = items@;
                items.push(self.nodes[i].item.duplicate());
                assert(items@.map_values(|it: Item| it@) =~= old_items.map_values(|it: Item| it@).push(
                    self.nodes@[i as int].item@,
                ));
            } else {
                assert(flat_items(prefix) =~= flat_items(prefix.drop_last()));
            }
            i = i + 1;
        }
        assert(self.nodes@.subrange(0, self.nodes@.len() as int) =~= self.nodes@);
        items
    }
}

/// When the root names a container child that no item defines, every other
/// followed reference resolves and no name would be placed twice, the only
/// error linking can report is `UnknownIdentifier` naming that child.
pub proof fn lemma_undefined_root_child_named(items: Seq<Item>, e: TreeError, k: int)
    requires
        occurrence(items, 0, k),
        items[0]@.childs[k].0,
        position_of(items, items[0]@.childs[k]) == -1,
        forall|j: int, m: int|
            live(items, j, m) && items[j]@.childs[m] != items[0]@.childs[k] ==> child_resolves(
                items,
                items[j]@.identifier,
                #[trigger] items[j]@.childs[m],
            ),
        forall|n: IdView| !#[trigger] duplicated(items, n),
        error_explained(items, e),
    ensures
        e matches TreeError::UnknownIdentifier(n) && n@ == items[0]@.childs[k],
{
    let c = items[0]@.childs[k];
    match e {
        TreeError::EmptyItemSet => {},
        TreeError::UnknownIdentifier(n) => {
            let (j, m) = choose|j: int, m: int| live(items, j, m) && #[trigger] items[j]@.childs[m] == n@;
            if n@ != c {
                assert(child_resolves(items, items[j]@.identifier, items[j]@.childs[m]));
            }
        },
        TreeError::MissingGadgetDefinition(n) => {
            let (j, m) = choose|j: int, m: int|
                live(items, j, m) && #[trigger] items[j]@.childs[m] == n@ && gadget_source(
                    items,
                    items[j]@.identifier,
                    n@,
                ) == -1;
            assert(child_resolves(items, items[j]@.identifier, items[j]@.childs[m]));
        },
        TreeError::DuplicateIdentifier(n) => {
            assert(!duplicated(items, n@));
        },
    }
}

/// A list whose root names a container child that no item of the list
/// defines links into no tree: construction must fail.
pub proof fn lemma_unknown_child_rejected(items: Seq<Item>, tree: ItemTree, k: int)
    requires
        items.len() > 0,
        0 <= k < items[0]@.childs.len(),
        items[0]@.childs[k].0,
        position_of(items, items[0]@.childs[k]) == -1,
    ensures
        !tree.linked_from(items),
{
    if tree.linked_from(items) {
        assert(node_linked(items, tree.nodes@, 0));
        assert(tree.nodes@[0].item@.childs[k] == items[0]@.childs[k]);
        assert(child_resolves(items, tree.nodes@[0].item@.identifier, items[0]@.childs[k]));
    }
}

/// The item is a container item exactly as the list defines the item of its name.
pub open spec fn defined_container(items: Seq<Item>, it: ItemView) -> bool {
    &&& it.identifier.0
    &&& position_of(items, it.identifier) >= 0
    &&& it == items[position_of(items, it.identifier)]@
}

/// The flat form starts with the root's item, and where every expanded node
/// but the root holds a container item as the list defines it, so does every
/// later entry.
proof fn lemma_flat_members(items: Seq<Item>, nodes: Seq<TreeNode>)
    requires
        forall|j: int| 0 < j < nodes.len() && expands(nodes, j) ==> defined_container(items, #[trigger] nodes[j].item@),
    ensures
        nodes.len() > 0 ==> flat_items(nodes).len() > 0 && flat_items(nodes)[0] == nodes[0].item@,
        forall|k: int| 0 < k < flat_items(nodes).len() ==> defined_container(items, #[trigger] flat_items(nodes)[k]),
    decreases nodes.len(),
{
    if nodes.len() > 0 {
        let rest = nodes.drop_last();
        assert forall|j: int| 0 < j < rest.len() && expands(rest, j) implies defined_container(
            items,
            #[trigger] rest[j].item@,
        ) by {
            assert(rest[j] == nodes[j]);
            assert(expands(nodes, j));
        }
        lemma_flat_members(items, rest);
        let n = nodes.len() - 1;
        if n == 0 {
            assert(flat_items(nodes) =~= seq![nodes[0].item@]);
        } else {
            assert(flat_items(nodes)[0] == flat_items(rest)[0]);
            assert(rest[0] == nodes[0]);
        }
        assert forall|k: int| 0 < k < flat_items(nodes).len() implies defined_container(
            items,
            #[trigger] flat_items(nodes)[k],
        ) by {
            if k < flat_items(rest).len() {
                assert(flat_items(nodes)[k] == flat_items(rest)[k]);
            } else {
                assert(flat_items(nodes)[k] == nodes[n].item@);
                if n == 0 {
                    assert(flat_items(rest).len() == 0);
                }
            }
        }
    }
}

/// A container node other than the root holds the item that the list
/// defines under its name.
proof fn lemma_container_node_from_list(items: Seq<Item>, tree: ItemTree, j: int)
    requires
        tree.linked_from(items),
        0 < j < tree.nodes@.len(),
        expands(tree.nodes@, j),
    ensures
        tree.nodes@[j].item@.identifier.0,
        position_of(items, tree.nodes@[j].item@.identifier) >= 0,
        tree.nodes@[j].item@ == items[position_of(items, tree.nodes@[j].item@.identifier)]@,
{
    let nodes = tree.nodes@;
    assert(parent_linked(nodes, 0, j));
    let p = nodes[j].parent->0 as int;
    assert(nodes[p].childs@.contains(j as usize));
    let m = choose|m: int| 0 <= m < nodes[p].childs@.len() && nodes[p].childs@[m] == j as usize;
    assert(node_linked(items, nodes, p));
    assert(tree.nodes@.len() == tree.nodes.len());
    assert(nodes[p].childs@[m] as int == j);
    let cid = nodes[p].item@.childs[m];
    assert(child_resolves(items, nodes[p].item@.identifier, cid));
    lemma_position_of(items, cid);
}

/// Flattening a tree linked from a list gives the list's first item, then
/// the container nodes' items, each exactly as the list defines the item of
/// that name; no gadget instance is emitted.
pub proof fn lemma_flatten_from_list(items: Seq<Item>, tree: ItemTree)
    requires
        tree.linked_from(items),
    ensures
        flat_items(tree.nodes@).len() > 0,
        flat_items(tree.nodes@)[0] == items[0]@,
        forall|k: int|
            0 < k < flat_items(tree.nodes@).len() ==> defined_container(items, #[trigger] flat_items(tree.nodes@)[k]),
{
    let nodes = tree.nodes@;
    assert forall|j: int| 0 < j < nodes.len() && expands(nodes, j) implies defined_container(
        items,
        #[trigger] nodes[j].item@,
    ) by {
        lemma_container_node_from_list(items, tree, j);
    }
    lemma_flat_members(items, nodes);
}

} // verus!
