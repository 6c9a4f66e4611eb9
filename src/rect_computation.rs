//! The layout solver: assigns every node of an [`ItemTree`] its rectangle.
use vstd::prelude::*;
use crate::direction::Direction;
use crate::identifier::Identifier;
use crate::item::{ItemTree, TreeNode, childs_ordered, descends, parent_linked};
use crate::length::resolve;
use crate::rect::Rect;

verus! {

/// `v`, saturated at the largest coordinate.
pub open spec fn sat(v: int) -> int {
    if v > 0xffff { 0xffff } else { v }
}

/// `v` held within `0..=hi`.
pub open spec fn clamp(v: int, hi: int) -> int {
    if v < 0 { 0 } else if v > hi { hi } else { v }
}

/// The position of node `i` among its parent's children.
pub open spec fn sibling_pos(nodes: Seq<TreeNode>, i: int) -> int {
    let kids = nodes[nodes[i].parent->0 as int].childs@;
    choose|k: int| 0 <= k < kids.len() && kids[k] == i as usize
}

/// The sibling placed immediately before node `i`, if any.
pub open spec fn prev_sibling(nodes: Seq<TreeNode>, i: int) -> Option<int> {
    if 0 < i < nodes.len() && nodes[i].parent is Some {
        let kids = nodes[nodes[i].parent->0 as int].childs@;
        let k = sibling_pos(nodes, i);
        if 0 < k < kids.len() {
            Some(kids[k - 1] as int)
        } else {
            None
        }
    } else {
        None
    }
}

/// Where the rectangle of node `i` starts, as `(y, x)`: the terminal's origin
/// for the root, the far corner of the previous sibling where there is one,
/// and else the parent's origin.
pub open spec fn start_of(nodes: Seq<TreeNode>, i: int, term: Rect) -> (int, int)
    decreases 3 * i + 1,
{
    if 0 < i < nodes.len() && nodes[i].parent is Some && nodes[i].parent->0 < i {
        let p = nodes[i].parent->0 as int;
        match prev_sibling(nodes, i) {
            Some(s) => if 0 <= s < i {
                let sr = rect_of(nodes, s, term);
                (sat(sr.y + sr.height), sat(sr.x + sr.width))
            } else {
                (term.y as int, term.x as int)
            },
            None => {
                let pr = rect_of(nodes, p, term);
                (pr.y as int, pr.x as int)
            },
        }
    } else {
        (term.y as int, term.x as int)
    }
}

/// What earlier siblings took of node `i`'s parent along the split axis.
pub open spec fn net_sibling_of(nodes: Seq<TreeNode>, i: int, term: Rect) -> int
    decreases 3 * i + 1,
{
    if 0 < i < nodes.len() && nodes[i].parent is Some && nodes[i].parent->0 < i {
        let p = nodes[i].parent->0 as int;
        let pr = rect_of(nodes, p, term);
        match prev_sibling(nodes, i) {
            Some(s) => if 0 <= s < i {
                let sr = rect_of(nodes, s, term);
                match nodes[p].item.split {
                    Direction::Vertical => clamp(sat(sr.y + sr.height) - pr.y, pr.height as int),
                    Direction::Horizontal => clamp(sat(sr.x + sr.width) - pr.x, pr.width as int),
                }
            } else {
                0
            },
            None => 0,
        }
    } else {
        0
    }
}

/// The rectangle of node `i` inside the terminal rectangle `term`.
///
/// The root fills `term`, whatever its own size. Any other node takes its
/// parent's rectangle and replaces, along the parent's split axis, the start
/// (where the previous sibling ends, or the parent's start) and the extent
/// (its size resolved against the parent's extent and what earlier siblings took).
pub open spec fn rect_of(nodes: Seq<TreeNode>, i: int, term: Rect) -> Rect
    decreases 3 * i + 2,
{
    if 0 < i < nodes.len() && nodes[i].parent is Some && nodes[i].parent->0 < i {
        let p = nodes[i].parent->0 as int;
        let pr = rect_of(nodes, p, term);
        let start = start_of(nodes, i, term);
        let net = net_sibling_of(nodes, i, term);
        let size = nodes[i].item.size;
        match nodes[p].item.split {
            Direction::Vertical => Rect {
                y: start.0 as u16,
                height: resolve(size, pr.height as int, net) as u16,
                ..pr
            },
            Direction::Horizontal => Rect {
                x: start.1 as u16,
                width: resolve(size, pr.width as int, net) as u16,
                ..pr
            },
        }
    } else {
        term
    }
}

/// The memo holds one slot per node, and each filled slot holds the node's rectangle.
pub open spec fn consistent(tree: &ItemTree, memo: Seq<Option<Rect>>, term: Rect) -> bool {
    &&& memo.len() == tree.nodes@.len()
    &&& forall|j: int| 0 <= j < memo.len() && #[trigger] memo[j] is Some ==> memo[j]->0 == rect_of(tree.nodes@, j, term)
}

/// The rectangles computed for the nodes of a tree, one slot per node.
#[derive(Clone, Debug)]
pub struct RectMap {
    pub rects: Vec<Option<Rect>>,
}

impl RectMap {
    /// An empty map for the nodes of `tree`.
    pub fn new(tree: &ItemTree) -> (r: RectMap)
        ensures
            r.rects@.len() == tree.nodes@.len(),
            forall|j: int| 0 <= j < r.rects@.len() ==> #[trigger] r.rects@[j] is None,
    {
        let mut rects: Vec<Option<Rect>> = Vec::new();
        let mut i: usize = 0;
        while i < tree.nodes.len()
            invariant
                i <= tree.nodes@.len(),
                rects@.len() == i,
                forall|j: int| 0 <= j < i ==> #[trigger] rects@[j] is None,
            decreases tree.nodes@.len() - i,
        {
            rects.push(None);
            i = i + 1;
        }
        RectMap { rects }
    }

    /// The rectangle recorded for the node named `id`, if that node has one.
    pub fn get(&self, tree: &ItemTree, id: &Identifier) -> (r: Option<Rect>)
        requires
            self.rects@.len() == tree.nodes@.len(),
        ensures
            r matches Some(rect) ==> exists|j: int|
                0 <= j < tree.nodes@.len() && #[trigger] tree.nodes@[j].item.identifier@ == id@
                    && self.rects@[j] == Some(rect),
            (forall|j: int|
                0 <= j < tree.nodes@.len() ==> #[trigger] tree.nodes@[j].item.identifier@ != id@)
                ==> r is None,
            crate::item::ids_unique(tree.nodes@) ==> forall|j: int|
                0 <= j < tree.nodes@.len() && #[trigger] tree.nodes@[j].item.identifier@ == id@
                    ==> r == self.rects@[j],
    {
        match tree.index_of(id) {
            Some(j) => self.rects[j],
            None => None,
        }
    }
}

impl ItemTree {
    /// The index of the node named `id`: the first such node.
    pub fn index_of(&self, id: &Identifier) -> (r: Option<usize>)
        ensures
            r matches Some(j) ==> j < self.nodes@.len() && self.nodes@[j as int].item.identifier@ == id@
                && forall|k: int| 0 <= k < j ==> #[trigger] self.nodes@[k].item.identifier@ != id@,
            r is None ==> forall|k: int|
                0 <= k < self.nodes@.len() ==> #[trigger] self.nodes@[k].item.identifier@ != id@,
    {
        let mut j: usize = 0;
        while j < self.nodes.len()
            invariant
                j <= self.nodes@.len(),
                forall|k: int| 0 <= k < j ==> #[trigger] self.nodes@[k].item.identifier@ != id@,
            decreases self.nodes@.len() - j,
        {
            if self.nodes[j].item.identifier == *id {
                return Some(j);
            }
            j = j + 1;
        }
        None
    }
}

proof fn lemma_parent_before(tree: &ItemTree, i: int)
    requires
        tree.wf(),
        0 < i < tree.nodes@.len(),
    ensures
        tree.nodes@[i].parent is Some,
        tree.nodes@[i].parent->0 < i,
        tree.nodes@[tree.nodes@[i].parent->0 as int].childs@.contains(i as usize),
{
    assert(parent_linked(tree.nodes@, 0, i));
}

/// Finds the position of node `i` in its parent's children.
fn position_in_parent(tree: &ItemTree, i: usize, p: usize) -> (k: usize)
    requires
        tree.wf(),
        0 < i < tree.nodes@.len(),
        tree.nodes@[i as int].parent == Some(p),
    ensures
        k == sibling_pos(tree.nodes@, i as int),
        k < tree.nodes@[p as int].childs@.len(),
        tree.nodes@[p as int].childs@[k as int] == i,
{
    proof {
        lemma_parent_before(tree, i as int);
    }
    let ghost kids = tree.nodes@[p as int].childs@;
    let kids_ref = &tree.nodes[p].childs;
    let mut k: usize = 0;
    while kids_ref[k] != i
        invariant
            kids_ref@ == kids,
            kids.contains(i),
            k < kids_ref.len(),
            forall|j: int| 0 <= j < k ==> #[trigger] kids[j] != i,
        decreases kids.len() - k,
    {
        k = k + 1;
        proof {
            if k >= kids.len() {
                let w = choose|w: int| 0 <= w < kids.len() && kids[w] == i;
                assert(kids[w] != i);
            }
        }
    }
    proof {
        let ghost c = sibling_pos(tree.nodes@, i as int);
        assert(childs_ordered(tree.nodes@, p as int));
        if c != k as int {
            if c < k {
                assert(kids[c] < kids[k as int]);
            } else {
                assert(kids[k as int] < kids[c]);
            }
        }
    }
    k
}

/// Why a node has no previous sibling.
#[derive(Clone, Copy, Debug, PartialEq, Eq, Structural)]
enum NoSiblingRect {
    /// The node is the root.
    IsOrphan,
    /// The node is its parent's first child.
    IsEldestChild,
}

/// The rectangle of the sibling placed immediately before node `i`, computing
/// it (without its subtree) if the memo lacks it, so that the memo holds it
/// afterwards; the root and a first child have none.
fn get_sibling_rect(tree: &ItemTree, i: usize, size_map: &mut RectMap, terminal_rect: &Rect) -> (r: Result<Rect, NoSiblingRect>)
    requires
        tree.wf(),
        i < tree.nodes@.len(),
        consistent(tree, old(size_map).rects@, *terminal_rect),
    ensures
        consistent(tree, final(size_map).rects@, *terminal_rect),
        forall|j: int| 0 <= j < old(size_map).rects@.len() && #[trigger] old(size_map).rects@[j] is Some
            ==> final(size_map).rects@[j] is Some,
        r == match prev_sibling(tree.nodes@, i as int) {
            Some(s) => Ok(rect_of(tree.nodes@, s, *terminal_rect)),
            None => if i == 0 {
                Err(NoSiblingRect::IsOrphan)
            } else {
                Err(NoSiblingRect::IsEldestChild)
            },
        },
        prev_sibling(tree.nodes@, i as int) matches Some(s) ==> 0 <= s < i
            && final(size_map).rects@[s] == Some(rect_of(tree.nodes@, s, *terminal_rect)),
    decreases 3 * i,
{
    if i == 0 {
        return Err(NoSiblingRect::IsOrphan);
    }
    proof {
        lemma_parent_before(tree, i as int);
    }
    let p = match tree.nodes[i].parent {
        None => {
            return Err(NoSiblingRect::IsOrphan);
        },
        Some(p) => p,
    };
    let k = position_in_parent(tree, i, p);
    if k == 0 {
        return Err(NoSiblingRect::IsEldestChild);
    }
    let s = tree.nodes[p].childs[k - 1];
    proof {
        assert(childs_ordered(tree.nodes@, p as int));
        assert(tree.nodes@[p as int].childs@[k - 1] < tree.nodes@[p as int].childs@[k as int]);
    }
    if size_map.rects[s].is_none() {
        compute_rect(tree, s, size_map, terminal_rect, false);
    }
    Ok(size_map.rects[s].unwrap())
}

/// Where node `i` starts, as `(y, x)`: the terminal's origin for the root, the
/// far corner of the previous sibling where there is one, else the parent's origin.
pub fn i_can_start_from(tree: &ItemTree, i: usize, size_map: &mut RectMap, terminal_rect: &Rect) -> (r: (u16, u16))
    requires
        tree.wf(),
        i < tree.nodes@.len(),
        consistent(tree, old(size_map).rects@, *terminal_rect),
    ensures
        consistent(tree, final(size_map).rects@, *terminal_rect),
        forall|j: int| 0 <= j < old(size_map).rects@.len() && #[trigger] old(size_map).rects@[j] is Some
            ==> final(size_map).rects@[j] is Some,
        (r.0 as int, r.1 as int) == start_of(tree.nodes@, i as int, *terminal_rect),
        0 < i ==> match prev_sibling(tree.nodes@, i as int) {
            Some(s) => final(size_map).rects@[s] == Some(rect_of(tree.nodes@, s, *terminal_rect)),
            None => final(size_map).rects@[tree.nodes@[i as int].parent->0 as int] == Some(
                rect_of(tree.nodes@, tree.nodes@[i as int].parent->0 as int, *terminal_rect),
            ),
        },
    decreases 3 * i + 1,
{
    if i == 0 {
        return (terminal_rect.y, terminal_rect.x);
    }
    proof {
        lemma_parent_before(tree, i as int);
    }
    match get_sibling_rect(tree, i, size_map, terminal_rect) {
        Ok(sib) => {
            let y: u16 = if sib.y <= 0xffff - sib.height { sib.y + sib.height } else { 0xffff };
            let x: u16 = if sib.x <= 0xffff - sib.width { sib.x + sib.width } else { 0xffff };
            (y, x)
        },
        Err(_) => {
            let p = match tree.nodes[i].parent {
                Some(p) => p,
                None => {
                    return (terminal_rect.y, terminal_rect.x);
                },
            };
            if size_map.rects[p].is_none() {
                compute_rect(tree, p, size_map, terminal_rect, false);
            }
            let parent_rect = size_map.rects[p].unwrap();
            (parent_rect.y, parent_rect.x)
        },
    }
}

/// Records the rectangle of node `i`, first computing (without their
/// subtrees) its parent's and its previous sibling's where the memo lacks
/// them; with `compute_for_child`, goes on through all of `i`'s subtree.
fn compute_rect(
    tree: &ItemTree,
    i: usize,
    size_map: &mut RectMap,
    terminal_rect: &Rect,
    compute_for_child: bool,
)
    requires
        tree.wf(),
        i < tree.nodes@.len(),
        consistent(tree, old(size_map).rects@, *terminal_rect),
    ensures
        consistent(tree, final(size_map).rects@, *terminal_rect),
        forall|j: int| 0 <= j < old(size_map).rects@.len() && #[trigger] old(size_map).rects@[j] is Some
            ==> final(size_map).rects@[j] is Some,
        final(size_map).rects@[i as int] is Some,
        compute_for_child ==> forall|j: int|
            0 <= j < tree.nodes@.len() && #[trigger] descends(tree.nodes@, j, i as int)
                ==> final(size_map).rects@[j] is Some,
    decreases if compute_for_child { 6 * tree.nodes@.len() - 3 * i + 2 } else { 3 * i + 2 },
{
    let final_rect: Rect = match tree.nodes[i].parent {
        None => *terminal_rect,
        Some(p) => {
            if i == 0 {
                proof {
                    assert(tree.nodes@[0].parent is None);
                }
                return;
            }
            proof {
                lemma_parent_before(tree, i as int);
            }
            if size_map.rects[p].is_none() {
                compute_rect(tree, p, size_map, terminal_rect, false);
            }
            let parent_rect = size_map.rects[p].unwrap();
            assert(parent_rect == rect_of(tree.nodes@, p as int, *terminal_rect));
            let my_starting = i_can_start_from(tree, i, size_map, terminal_rect);
            let sibling = get_sibling_rect(tree, i, size_map, terminal_rect);
            let size = tree.nodes[i].item.size;
            match tree.nodes[p].item.split {
                Direction::Vertical => {
                    let net: u16 = match sibling {
                        Ok(s) => {
                            let end: u16 = if s.y <= 0xffff - s.height { s.y + s.height } else { 0xffff };
                            if end < parent_rect.y {
                                0
                            } else if end - parent_rect.y > parent_rect.height {
                                parent_rect.height
                            } else {
                                end - parent_rect.y
                            }
                        },
                        Err(_) => 0,
                    };
                    assert(net as int == net_sibling_of(tree.nodes@, i as int, *terminal_rect));
                    Rect {
                        y: my_starting.0,
                        height: size.get_absolute(parent_rect.height, net),
                        ..parent_rect
                    }
                },
                Direction::Horizontal => {
                    let net: u16 = match sibling {
                        Ok(s) => {
                            let end: u16 = if s.x <= 0xffff - s.width { s.x + s.width } else { 0xffff };
                            if end < parent_rect.x {
                                0
                            } else if end - parent_rect.x > parent_rect.width {
                                parent_rect.width
                            } else {
                                end - parent_rect.x
                            }
                        },
                        Err(_) => 0,
                    };
                    assert(net as int == net_sibling_of(tree.nodes@, i as int, *terminal_rect));
                    Rect {
                        x: my_starting.1,
                        width: size.get_absolute(parent_rect.width, net),
                        ..parent_rect
                    }
                },
            }
        },
    };
    assert(final_rect == rect_of(tree.nodes@, i as int, *terminal_rect));
    let ghost before_set = size_map.rects@;
    size_map.rects.set(i, Some(final_rect));
    assert forall|j: int| 0 <= j < old(size_map).rects@.len() && #[trigger] old(size_map).rects@[j] is Some
        implies size_map.rects@[j] is Some by {
        assert(before_set[j] is Some);
    }
    if compute_for_child {
        let mut k: usize = 0;
        while k < tree.nodes[i].childs.len()
            invariant
                compute_for_child,
                old(size_map).rects@.len() == tree.nodes@.len(),
                tree.wf(),
                i < tree.nodes@.len(),
                consistent(tree, size_map.rects@, *terminal_rect),
                forall|j: int| 0 <= j < old(size_map).rects@.len() && #[trigger] old(size_map).rects@[j] is Some
                    ==> size_map.rects@[j] is Some,
                size_map.rects@[i as int] is Some,
                k <= tree.nodes@[i as int].childs@.len(),
                forall|j: int, m: int|
                    0 <= j < tree.nodes@.len() && 0 <= m < k && #[trigger] descends(
                        tree.nodes@,
                        j,
                        tree.nodes@[i as int].childs@[m] as int,
                    ) ==> size_map.rects@[j] is Some,
            decreases tree.nodes@[i as int].childs@.len() - k,
        {
            let c = tree.nodes[i].childs[k];
            proof {
                assert(childs_ordered(tree.nodes@, i as int));
                assert(i < tree.nodes@[i as int].childs@[k as int]);
                assert(i < c && c < tree.nodes@.len());
            }
            let ghost before = size_map.rects@;
            compute_rect(tree, c, size_map, terminal_rect, true);
            assert forall|j: int| 0 <= j < old(size_map).rects@.len() && #[trigger] old(size_map).rects@[j] is Some
                implies size_map.rects@[j] is Some by {
                assert(before[j] is Some);
            }
            k = k + 1;
        }
        proof {
            assert forall|j: int| 0 <= j < tree.nodes@.len() && #[trigger] descends(tree.nodes@, j, i as int)
                implies size_map.rects@[j] is Some by {
                if j != i {
                    let m = lemma_descends_through_child(tree, j, i as int);
                }
            }
        }
    }
}

/// A node strictly inside the subtree of `i` lies in the subtree of one of `i`'s children.
proof fn lemma_descends_through_child(tree: &ItemTree, j: int, i: int) -> (m: int)
    requires
        tree.wf(),
        0 <= i < tree.nodes@.len(),
        0 <= j < tree.nodes@.len(),
        descends(tree.nodes@, j, i),
        j != i,
    ensures
        0 <= m < tree.nodes@[i].childs@.len(),
        descends(tree.nodes@, j, tree.nodes@[i].childs@[m] as int),
    decreases j,
{
    let nodes = tree.nodes@;
    let p = nodes[j].parent->0 as int;
    lemma_parent_before(tree, j);
    assert(tree.nodes@.len() == tree.nodes.len());
    if p == i {
        assert(nodes[i].childs@.contains(j as usize));
        let m = choose|m: int| 0 <= m < nodes[i].childs@.len() && nodes[i].childs@[m] == j as usize;
        assert(nodes[i].childs@[m] as int == j);
        m
    } else {
        let m = lemma_descends_through_child(tree, p, i);
        m
    }
}

/// Computes the rectangle of node `node` and of every node of its subtree,
/// reading and filling the memo `size_map`; rectangles already recorded are
/// kept, and each node is computed at most once.
pub fn compute_rect_for_item_tree(
    tree: &ItemTree,
    node: usize,
    size_map: &mut RectMap,
    terminal_rect: &Rect,
)
    requires
        tree.wf(),
        node < tree.nodes@.len(),
        consistent(tree, old(size_map).rects@, *terminal_rect),
    ensures
        consistent(tree, final(size_map).rects@, *terminal_rect),
        forall|j: int| 0 <= j < old(size_map).rects@.len() && #[trigger] old(size_map).rects@[j] is Some
            ==> final(size_map).rects@[j] == old(size_map).rects@[j],
        forall|j: int|
            0 <= j < tree.nodes@.len() && #[trigger] descends(tree.nodes@, j, node as int)
                ==> final(size_map).rects@[j] == Some(rect_of(tree.nodes@, j, *terminal_rect)),
{
    compute_rect(tree, node, size_map, terminal_rect, true)
}

/// Every node descends from the root.
proof fn lemma_descends_from_root(tree: &ItemTree, j: int)
    requires
        tree.wf(),
        0 <= j < tree.nodes@.len(),
    ensures
        descends(tree.nodes@, j, 0),
    decreases j,
{
    if j > 0 {
        lemma_parent_before(tree, j);
        lemma_descends_from_root(tree, tree.nodes@[j].parent->0 as int);
    }
}

/// The map holds the rectangle of every node of `tree` in the terminal rectangle `term`.
pub open spec fn computed(tree: &ItemTree, map: &RectMap, term: Rect) -> bool {
    &&& map.rects@.len() == tree.nodes@.len()
    &&& forall|j: int| 0 <= j < map.rects@.len() ==> #[trigger] map.rects@[j] == Some(rect_of(tree.nodes@, j, term))
}

/// Lays out the whole tree in `terminal_rect`: the rectangle of every node,
/// the root's being `terminal_rect` itself.
pub fn compute(tree: &ItemTree, terminal_rect: &Rect) -> (r: RectMap)
    requires
        tree.wf(),
    ensures
        computed(tree, &r, *terminal_rect),
        r.rects@[0] == Some(*terminal_rect),
{
    let mut size_map = RectMap::new(tree);
    compute_rect_for_item_tree(tree, 0, &mut size_map, terminal_rect);
    proof {
        assert forall|j: int| 0 <= j < size_map.rects@.len() implies #[trigger] size_map.rects@[j] == Some(
            rect_of(tree.nodes@, j, *terminal_rect),
        ) by {
            lemma_descends_from_root(tree, j);
        }
    }
    size_map
}

/// The root always fills the terminal rectangle, whatever its declared size.
pub proof fn lemma_root_anchoring(tree: &ItemTree, term: Rect)
    requires
        tree.wf(),
    ensures
        rect_of(tree.nodes@, 0, term) == term,
{
}

/// Laying out the same tree in the same terminal rectangle twice gives the same map.
pub proof fn lemma_compute_idempotent(tree: &ItemTree, term: Rect, first: &RectMap, second: &RectMap)
    requires
        tree.wf(),
        computed(tree, first, term),
        computed(tree, second, term),
    ensures
        first.rects@ == second.rects@,
{
    assert(first.rects@ =~= second.rects@);
}

/// Node `c` is child number `k` of node `p`.
pub open spec fn is_child(nodes: Seq<TreeNode>, p: int, k: int, c: int) -> bool {
    0 <= p < nodes.len() && 0 <= k < nodes[p].childs@.len() && nodes[p].childs@[k] == c
}

/// Consecutive children of a vertically split container are stacked: the
/// later one starts where the earlier one ends (held at the largest
/// coordinate), and both share the parent's `x` and `width`.
pub proof fn lemma_sibling_chaining(tree: &ItemTree, term: Rect, p: int, k: int)
    requires
        tree.wf(),
        0 <= p < tree.nodes@.len(),
        0 <= k && k + 1 < tree.nodes@[p].childs@.len(),
        tree.nodes@[p].item.split == Direction::Vertical,
    ensures
        ({
            let nodes = tree.nodes@;
            let first = rect_of(nodes, nodes[p].childs@[k] as int, term);
            let second = rect_of(nodes, nodes[p].childs@[k + 1] as int, term);
            let parent = rect_of(nodes, p, term);
            &&& second.y == sat(first.y + first.height)
            &&& first.y + first.height <= 0xffff ==> second.y == first.y + first.height
            &&& first.x == parent.x && first.width == parent.width
            &&& second.x == parent.x && second.width == parent.width
        }),
{
    let nodes = tree.nodes@;
    let c1 = nodes[p].childs@[k] as int;
    let c2 = nodes[p].childs@[k + 1] as int;
    assert(childs_ordered(nodes, p));
    assert(nodes[p].childs@[k] < nodes[p].childs@[k + 1]);
    lemma_child_rect(tree, term, p, k);
    lemma_child_rect(tree, term, p, k + 1);
}

/// Child number `k` of node `p` keeps its parent's rectangle across the split
/// axis, and starts where its previous sibling ends.
proof fn lemma_child_rect(tree: &ItemTree, term: Rect, p: int, k: int)
    requires
        tree.wf(),
        0 <= p < tree.nodes@.len(),
        0 <= k < tree.nodes@[p].childs@.len(),
    ensures
        ({
            let nodes = tree.nodes@;
            let c = nodes[p].childs@[k] as int;
            let r = rect_of(nodes, c, term);
            let parent = rect_of(nodes, p, term);
            &&& nodes[p].item.split == Direction::Vertical ==> r.x == parent.x && r.width == parent.width
            &&& nodes[p].item.split == Direction::Horizontal ==> r.y == parent.y && r.height == parent.height
            &&& k > 0 && nodes[p].item.split == Direction::Vertical ==> {
                let s = rect_of(nodes, nodes[p].childs@[k - 1] as int, term);
                r.y == sat(s.y + s.height)
            }
            &&& k > 0 && nodes[p].item.split == Direction::Horizontal ==> {
                let s = rect_of(nodes, nodes[p].childs@[k - 1] as int, term);
                r.x == sat(s.x + s.width)
            }
        }),
{
    let nodes = tree.nodes@;
    let c = nodes[p].childs@[k] as int;
    assert(childs_ordered(nodes, p));
    assert(p < c && c < nodes.len() && nodes[c].parent == Some(p as usize));
    assert(tree.nodes@.len() == tree.nodes.len());
    let kids = nodes[p].childs@;
    assert(0 <= k < kids.len() && kids[k] == c as usize);
    let pos = sibling_pos(nodes, c);
    assert(0 <= pos < kids.len() && kids[pos] == c as usize);
    if pos != k {
        if pos < k {
            assert(nodes[p].childs@[pos] < nodes[p].childs@[k]);
        } else {
            assert(nodes[p].childs@[k] < nodes[p].childs@[pos]);
        }
    }
    if k > 0 {
        assert(nodes[p].childs@[k - 1] < nodes[p].childs@[k]);
        let s = nodes[p].childs@[k - 1] as int;
        let sr = rect_of(nodes, s, term);
        assert(prev_sibling(nodes, c) == Some(s));
        assert(start_of(nodes, c, term) == (sat(sr.y + sr.height), sat(sr.x + sr.width)));
    }
}

} // verus!
