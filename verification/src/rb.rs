//! The balanced index: a left-leaning red-black tree over the nodes of a
//! pool, keyed by each node's lower bound.
//!
//! The tree is threaded through the nodes' `left` and `right` links and their
//! `color`.  Its functions take the pool that holds the nodes and the handle
//! of the root, and hand back the handle of the new root.

use crate::llrb::Tree;
use crate::mempool_elem::{MemPool, NIL};
use crate::types::{Node, RType};
use vstd::prelude::*;

verus! {

pub const RED: bool = false;

pub const BLACK: bool = true;

/// The nodes reached from `root` through `left` and `right` form the tree `t`,
/// with the keys and colors that `t` records.
pub open spec fn shape<TOrd: RType>(nodes: Map<usize, Node<TOrd>>, root: usize, t: Tree) -> bool
    decreases t,
{
    match t {
        Tree::Leaf => root == NIL,
        Tree::Fork { left, at, key, red, right } => {
            &&& root != NIL
            &&& root == at
            &&& nodes.dom().contains(root)
            &&& nodes[root].lo() == key
            &&& nodes[root].color == !red
            &&& shape(nodes, nodes[root].left, *left)
            &&& shape(nodes, nodes[root].right, *right)
        },
    }
}

/// The least bound below every key of the type.
pub open spec fn key_floor<TOrd: RType>() -> int {
    TOrd::min_val() - 1
}

/// The least bound above every key of the type.
pub open spec fn key_ceil<TOrd: RType>() -> int {
    TOrd::max_val() + 1
}

/// The nodes reached from `root` form a search tree.
pub open spec fn is_tree<TOrd: RType>(nodes: Map<usize, Node<TOrd>>, root: usize) -> bool {
    exists|t: Tree| shape(nodes, root, t) && t.ordered(key_floor::<TOrd>(), key_ceil::<TOrd>())
}

/// The search tree that the nodes reached from `root` form.
pub open spec fn tree_of<TOrd: RType>(nodes: Map<usize, Node<TOrd>>, root: usize) -> Tree {
    choose|t: Tree| shape(nodes, root, t) && t.ordered(key_floor::<TOrd>(), key_ceil::<TOrd>())
}

/// Two nodes that the tree cannot tell apart.
pub open spec fn same_in_tree<TOrd: RType>(a: Node<TOrd>, b: Node<TOrd>) -> bool {
    &&& a.left == b.left
    &&& a.right == b.right
    &&& a.color == b.color
    &&& a.lo() == b.lo()
}

/// From `a` to `b` only the tree's links and colors changed, and only in the
/// nodes of `touched`: the same handles are live, and every node keeps its
/// range and its place in the list.
pub open spec fn links_only<TOrd: RType>(
    a: Map<usize, Node<TOrd>>,
    b: Map<usize, Node<TOrd>>,
    touched: Set<usize>,
) -> bool {
    &&& forall|h: usize| a.dom().contains(h) <==> #[trigger] b.dom().contains(h)
    &&& forall|h: usize|
        a.dom().contains(h) ==> {
            &&& (#[trigger] b[h]).next == a[h].next
            &&& b[h].prev == a[h].prev
            &&& b[h].range == a[h].range
            &&& !touched.contains(h) ==> b[h] == a[h]
        }
}

/// The pool holds the same slots, live and freed.
pub open spec fn same_slots<TOrd: RType>(a: &MemPool<Node<TOrd>>, b: &MemPool<Node<TOrd>>) -> bool {
    &&& a.slot_count() == b.slot_count()
    &&& a.free_list() == b.free_list()
    &&& a.chunk_len() == b.chunk_len()
}

/// A tree is the same tree in every arena that agrees on its nodes.
pub proof fn lemma_shape_frame<TOrd: RType>(
    a: Map<usize, Node<TOrd>>,
    b: Map<usize, Node<TOrd>>,
    root: usize,
    t: Tree,
)
    requires
        shape(a, root, t),
        forall|h: usize| #[trigger]
            t.handles().contains(h) ==> b.dom().contains(h) && same_in_tree(a[h], b[h]),
    ensures
        shape(b, root, t),
    decreases t,
{
    match t {
        Tree::Leaf => {},
        Tree::Fork { left, at, right, .. } => {
            assert(t.handles().contains(at));
            assert forall|h: usize| #[trigger] left.handles().contains(h) implies b.dom().contains(
                h,
            ) && same_in_tree(a[h], b[h]) by {
                assert(t.handles().contains(h));
            }
            assert forall|h: usize| #[trigger]
                right.handles().contains(h) implies b.dom().contains(h) && same_in_tree(
                a[h],
                b[h],
            ) by {
                assert(t.handles().contains(h));
            }
            lemma_shape_frame(a, b, a[root].left, *left);
            lemma_shape_frame(a, b, a[root].right, *right);
        },
    }
}

/// The nodes of a search tree are live, and each holds a key of the tree,
/// between the tree's bounds.
pub proof fn lemma_shape_keys<TOrd: RType>(
    nodes: Map<usize, Node<TOrd>>,
    root: usize,
    t: Tree,
    lo: int,
    hi: int,
)
    requires
        shape(nodes, root, t),
        t.ordered(lo, hi),
    ensures
        forall|h: usize| #[trigger]
            t.handles().contains(h) ==> {
                &&& h != NIL
                &&& nodes.dom().contains(h)
                &&& lo < nodes[h].lo() < hi
                &&& t.keys().contains(nodes[h].lo())
            },
        t is Fork <==> root != NIL,
        t is Fork ==> root == t.h() && nodes[root].lo() == t.k() && nodes[root].color
            == !t.is_red() && nodes.dom().contains(root),
    decreases t,
{
    match t {
        Tree::Leaf => {},
        Tree::Fork { left, key, right, .. } => {
            lemma_shape_keys(nodes, nodes[root].left, *left, lo, key);
            lemma_shape_keys(nodes, nodes[root].right, *right, key, hi);
            assert forall|h: usize| #[trigger] t.handles().contains(h) implies {
                &&& h != NIL
                &&& nodes.dom().contains(h)
                &&& lo < nodes[h].lo() < hi
                &&& t.keys().contains(nodes[h].lo())
            } by {
                if left.handles().contains(h) {
                    assert(left.keys().contains(nodes[h].lo()));
                } else if right.handles().contains(h) {
                    assert(right.keys().contains(nodes[h].lo()));
                } else {
                    assert(h == root);
                }
            }
        },
    }
}

/// A subtree whose keys lie apart from those of the nodes that changed is the
/// same subtree afterwards.
pub proof fn lemma_subtree_kept<TOrd: RType>(
    a: Map<usize, Node<TOrd>>,
    b: Map<usize, Node<TOrd>>,
    touched: Set<usize>,
    root: usize,
    t: Tree,
    lo: int,
    hi: int,
)
    requires
        shape(a, root, t),
        t.ordered(lo, hi),
        links_only(a, b, touched),
        forall|h: usize| #[trigger]
            touched.contains(h) && a.dom().contains(h) ==> !(lo < a[h].lo() < hi),
    ensures
        shape(b, root, t),
{
    lemma_shape_keys(a, root, t, lo, hi);
    assert forall|h: usize| #[trigger] t.handles().contains(h) implies b.dom().contains(h)
        && same_in_tree(a[h], b[h]) by {
        assert(a.dom().contains(h));
        assert(b.dom().contains(h));
        assert(!touched.contains(h));
        assert(b[h] == a[h]);
    }
    lemma_shape_frame(a, b, root, t);
}

/// The nodes reached from one root form one tree only.
pub proof fn lemma_shape_unique<TOrd: RType>(
    nodes: Map<usize, Node<TOrd>>,
    root: usize,
    s: Tree,
    t: Tree,
)
    requires
        shape(nodes, root, s),
        shape(nodes, root, t),
    ensures
        s == t,
    decreases s,
{
    match s {
        Tree::Leaf => {},
        Tree::Fork { left, right, .. } => {
            lemma_shape_unique(nodes, nodes[root].left, *left, t.l());
            lemma_shape_unique(nodes, nodes[root].right, *right, t.r());
        },
    }
}

/// Changes to the tree's links follow one another.
pub proof fn lemma_links_only_trans<TOrd: RType>(
    a: Map<usize, Node<TOrd>>,
    b: Map<usize, Node<TOrd>>,
    c: Map<usize, Node<TOrd>>,
    first: Set<usize>,
    second: Set<usize>,
    both: Set<usize>,
)
    requires
        links_only(a, b, first),
        links_only(b, c, second),
        first.subset_of(both),
        second.subset_of(both),
    ensures
        links_only(a, c, both),
{
    assert forall|h: usize| a.dom().contains(h) implies {
        &&& (#[trigger] c[h]).next == a[h].next
        &&& c[h].prev == a[h].prev
        &&& c[h].range == a[h].range
        &&& !both.contains(h) ==> c[h] == a[h]
    } by {
        assert(b.dom().contains(h));
        assert(b[h].next == a[h].next);
    }
    assert forall|h: usize| a.dom().contains(h) <==> #[trigger] c.dom().contains(h) by {
        assert(b.dom().contains(h) <==> a.dom().contains(h));
    }
}

fn is_red<TOrd: RType>(pool: &MemPool<Node<TOrd>>, node: usize) -> (r: bool)
    requires
        pool.wf(),
        node == NIL || pool@.dom().contains(node),
    ensures
        r == (node != NIL && pool@[node].color == RED),
{
    node != NIL && pool.get(node).color == RED
}

/// Give a node its place in the tree: its two children and its color.
fn set_links<TOrd: RType>(
    pool: &mut MemPool<Node<TOrd>>,
    node: usize,
    left: usize,
    right: usize,
    color: bool,
)
    requires
        old(pool).wf(),
        old(pool)@.dom().contains(node),
    ensures
        final(pool).wf(),
        same_slots(old(pool), final(pool)),
        final(pool)@ == old(pool)@.insert(
            node,
            (Node { left: left, right: right, color: color, ..old(pool)@[node] }),
        ),
        links_only(old(pool)@, final(pool)@, set![node]),
{
    let mut n = *pool.get(node);
    n.left = left;
    n.right = right;
    n.color = color;
    pool.set(node, n);
}

fn key_cmp<TOrd: RType>(key1: &TOrd, key2: &TOrd) -> (r: i32)
    ensures
        r == (if key1.val() == key2.val() {
            0int
        } else if key1.val() < key2.val() {
            -1int
        } else {
            1int
        }),
{
    if key1.same(key2) {
        0
    } else if key1.less(key2) {
        -1
    } else {
        1
    }
}

fn rotate_left<TOrd: RType>(
    pool: &mut MemPool<Node<TOrd>>,
    left: usize,
    Ghost(t): Ghost<Tree>,
    Ghost(lo): Ghost<int>,
    Ghost(hi): Ghost<int>,
) -> (r: usize)
    requires
        old(pool).wf(),
        shape(old(pool)@, left, t),
        t.ordered(lo, hi),
        t is Fork,
        t.r() is Fork,
    ensures
        final(pool).wf(),
        same_slots(old(pool), final(pool)),
        shape(final(pool)@, r, t.rot_left()),
        links_only(old(pool)@, final(pool)@, t.handles()),
{
    proof {
        reveal_with_fuel(shape, 3);
        reveal_with_fuel(Tree::ordered, 3);
        reveal_with_fuel(Tree::handles, 3);
    }
    let x = *pool.get(left);
    let right = x.right;
    let y = *pool.get(right);
    set_links(pool, left, x.left, y.left, RED);
    let ghost mid = pool@;
    set_links(pool, right, left, y.right, x.color);
    proof {
        let a = old(pool)@;
        let b = pool@;
        let touched = set![left, right];
        lemma_links_only_trans(a, mid, b, set![left], set![right], touched);
        lemma_subtree_kept(a, b, touched, x.left, t.l(), lo, t.k());
        lemma_subtree_kept(a, b, touched, y.left, t.r().l(), t.k(), t.r().k());
        lemma_subtree_kept(a, b, touched, y.right, t.r().r(), t.r().k(), hi);
        lemma_links_only_trans(a, a, b, Set::empty(), touched, t.handles());
    }
    right
}

fn rotate_right<TOrd: RType>(
    pool: &mut MemPool<Node<TOrd>>,
    right: usize,
    Ghost(t): Ghost<Tree>,
    Ghost(lo): Ghost<int>,
    Ghost(hi): Ghost<int>,
) -> (r: usize)
    requires
        old(pool).wf(),
        shape(old(pool)@, right, t),
        t.ordered(lo, hi),
        t is Fork,
        t.l() is Fork,
    ensures
        final(pool).wf(),
        same_slots(old(pool), final(pool)),
        shape(final(pool)@, r, t.rot_right()),
        links_only(old(pool)@, final(pool)@, t.handles()),
{
    proof {
        reveal_with_fuel(shape, 3);
        reveal_with_fuel(Tree::ordered, 3);
        reveal_with_fuel(Tree::handles, 3);
    }
    let x = *pool.get(right);
    let left = x.left;
    let y = *pool.get(left);
    set_links(pool, right, y.right, x.right, RED);
    let ghost mid = pool@;
    set_links(pool, left, y.left, right, x.color);
    proof {
        let a = old(pool)@;
        let b = pool@;
        let touched = set![left, right];
        lemma_links_only_trans(a, mid, b, set![right], set![left], touched);
        lemma_subtree_kept(a, b, touched, y.left, t.l().l(), lo, t.l().k());
        lemma_subtree_kept(a, b, touched, y.right, t.l().r(), t.l().k(), t.k());
        lemma_subtree_kept(a, b, touched, x.right, t.r(), t.k(), hi);
        lemma_links_only_trans(a, a, b, Set::empty(), touched, t.handles());
    }
    left
}

fn flip_color<TOrd: RType>(
    pool: &mut MemPool<Node<TOrd>>,
    node: usize,
    Ghost(t): Ghost<Tree>,
    Ghost(lo): Ghost<int>,
    Ghost(hi): Ghost<int>,
)
    requires
        old(pool).wf(),
        shape(old(pool)@, node, t),
        t.ordered(lo, hi),
        t is Fork,
        t.l() is Fork,
        t.r() is Fork,
    ensures
        final(pool).wf(),
        same_slots(old(pool), final(pool)),
        shape(final(pool)@, node, t.flip()),
        links_only(old(pool)@, final(pool)@, t.handles()),
{
    proof {
        reveal_with_fuel(shape, 3);
        reveal_with_fuel(Tree::ordered, 3);
        reveal_with_fuel(Tree::handles, 3);
    }
    let n = *pool.get(node);
    let l = *pool.get(n.left);
    let r = *pool.get(n.right);
    set_links(pool, node, n.left, n.right, !n.color);
    let ghost mid1 = pool@;
    set_links(pool, n.left, l.left, l.right, !l.color);
    let ghost mid2 = pool@;
    set_links(pool, n.right, r.left, r.right, !r.color);
    proof {
        let a = old(pool)@;
        let b = pool@;
        let touched = set![node, n.left, n.right];
        lemma_links_only_trans(a, mid1, mid2, set![node], set![n.left], set![node, n.left]);
        lemma_links_only_trans(a, mid2, b, set![node, n.left], set![n.right], touched);
        lemma_subtree_kept(a, b, touched, l.left, t.l().l(), lo, t.l().k());
        lemma_subtree_kept(a, b, touched, l.right, t.l().r(), t.l().k(), t.k());
        lemma_subtree_kept(a, b, touched, r.left, t.r().l(), t.k(), t.r().k());
        lemma_subtree_kept(a, b, touched, r.right, t.r().r(), t.r().k(), hi);
        lemma_links_only_trans(a, a, b, Set::empty(), touched, t.handles());
    }
}

/// The node `node` stands for the root of `t`, over whatever children.
pub open spec fn root_at<TOrd: RType>(nodes: Map<usize, Node<TOrd>>, node: usize, t: Tree) -> bool {
    &&& t is Fork
    &&& node != NIL
    &&& node == t.h()
    &&& nodes.dom().contains(node)
    &&& nodes[node].lo() == t.k()
    &&& nodes[node].color == !t.is_red()
}

/// After a change within the right subtree, the root and the left subtree are
/// as they were.
proof fn lemma_right_changed<TOrd: RType>(
    a: Map<usize, Node<TOrd>>,
    b: Map<usize, Node<TOrd>>,
    node: usize,
    t: Tree,
    lo: int,
    hi: int,
)
    requires
        shape(a, node, t),
        t.ordered(lo, hi),
        t is Fork,
        links_only(a, b, t.r().handles()),
    ensures
        root_at(b, node, t),
        b[node] == a[node],
        shape(b, b[node].left, t.l()),
        t.l().ordered(lo, t.k()),
        lo < t.k() < hi,
{
    lemma_shape_keys(a, a[node].right, t.r(), t.k(), hi);
    lemma_subtree_kept(a, b, t.r().handles(), a[node].left, t.l(), lo, t.k());
}

/// Hang the tree `child` below `node` as its left subtree.
fn set_left<TOrd: RType>(
    pool: &mut MemPool<Node<TOrd>>,
    node: usize,
    child: usize,
    Ghost(t): Ghost<Tree>,
    Ghost(sub): Ghost<Tree>,
    Ghost(lo): Ghost<int>,
    Ghost(hi): Ghost<int>,
)
    requires
        old(pool).wf(),
        root_at(old(pool)@, node, t),
        lo < t.k() < hi,
        shape(old(pool)@, old(pool)@[node].right, t.r()),
        t.r().ordered(t.k(), hi),
        shape(old(pool)@, child, sub),
        sub.ordered(lo, t.k()),
    ensures
        final(pool).wf(),
        same_slots(old(pool), final(pool)),
        shape(final(pool)@, node, t.with_left(sub)),
        t.with_left(sub).ordered(lo, hi),
        links_only(old(pool)@, final(pool)@, set![node]),
{
    let n = *pool.get(node);
    set_links(pool, node, child, n.right, n.color);
    proof {
        let a = old(pool)@;
        let b = pool@;
        lemma_subtree_kept(a, b, set![node], child, sub, lo, t.k());
        lemma_subtree_kept(a, b, set![node], n.right, t.r(), t.k(), hi);
    }
}

/// Hang the tree `child` below `node` as its right subtree.
fn set_right<TOrd: RType>(
    pool: &mut MemPool<Node<TOrd>>,
    node: usize,
    child: usize,
    Ghost(t): Ghost<Tree>,
    Ghost(sub): Ghost<Tree>,
    Ghost(lo): Ghost<int>,
    Ghost(hi): Ghost<int>,
)
    requires
        old(pool).wf(),
        root_at(old(pool)@, node, t),
        lo < t.k() < hi,
        shape(old(pool)@, old(pool)@[node].left, t.l()),
        t.l().ordered(lo, t.k()),
        shape(old(pool)@, child, sub),
        sub.ordered(t.k(), hi),
    ensures
        final(pool).wf(),
        same_slots(old(pool), final(pool)),
        shape(final(pool)@, node, t.with_right(sub)),
        t.with_right(sub).ordered(lo, hi),
        links_only(old(pool)@, final(pool)@, set![node]),
{
    let n = *pool.get(node);
    set_links(pool, node, n.left, child, n.color);
    proof {
        let a = old(pool)@;
        let b = pool@;
        lemma_subtree_kept(a, b, set![node], child, sub, t.k(), hi);
        lemma_subtree_kept(a, b, set![node], n.left, t.l(), lo, t.k());
    }
}

fn move_red_to_left<TOrd: RType>(
    pool: &mut MemPool<Node<TOrd>>,
    node: usize,
    Ghost(t): Ghost<Tree>,
    Ghost(lo): Ghost<int>,
    Ghost(hi): Ghost<int>,
) -> (r: usize)
    requires
        old(pool).wf(),
        shape(old(pool)@, node, t),
        t.ordered(lo, hi),
        t is Fork,
        t.l() is Fork,
        t.r() is Fork,
    ensures
        final(pool).wf(),
        same_slots(old(pool), final(pool)),
        shape(final(pool)@, r, t.move_red_left()),
        links_only(old(pool)@, final(pool)@, t.handles()),
{
    // Assuming that h is red and both h.left and h.left.left
    // are black, make h.left or one of its children red.
    let mut node = node;
    let ghost f = t.flip();
    flip_color(pool, node, Ghost(t), Ghost(lo), Ghost(hi));
    proof {
        crate::llrb::lemma_flip(t, lo, hi);
        reveal_with_fuel(shape, 3);
        reveal_with_fuel(Tree::ordered, 2);
    }
    let ghost m1 = pool@;
    let right = pool.get(node).right;
    if right != NIL && is_red(pool, pool.get(right).left) {
        let r2 = rotate_right(pool, right, Ghost(f.r()), Ghost(f.k()), Ghost(hi));
        let ghost m2 = pool@;
        proof {
            lemma_right_changed(m1, m2, node, f, lo, hi);
            crate::llrb::lemma_rot_right(f.r(), f.k(), hi);
        }
        set_right(pool, node, r2, Ghost(f), Ghost(f.r().rot_right()), Ghost(lo), Ghost(hi));
        let ghost g = f.with_right(f.r().rot_right());
        let ghost m3 = pool@;
        node = rotate_left(pool, node, Ghost(g), Ghost(lo), Ghost(hi));
        let ghost m4 = pool@;
        proof {
            crate::llrb::lemma_rot_left(g, lo, hi);
        }
        flip_color(pool, node, Ghost(g.rot_left()), Ghost(lo), Ghost(hi));
        proof {
            let hs = t.handles();
            assert(f.handles() == hs);
            assert(g.handles() =~= hs) by {
                reveal_with_fuel(Tree::handles, 2);
            }
            assert(set![t.h()].subset_of(hs)) by {
                reveal_with_fuel(Tree::handles, 2);
            }
            assert(f.r().handles().subset_of(hs)) by {
                reveal_with_fuel(Tree::handles, 2);
            }
            lemma_links_only_trans(old(pool)@, m1, m2, hs, f.r().handles(), hs);
            lemma_links_only_trans(old(pool)@, m2, m3, hs, set![t.h()], hs);
            lemma_links_only_trans(old(pool)@, m3, m4, hs, hs, hs);
            lemma_links_only_trans(old(pool)@, m4, pool@, hs, hs, hs);
        }
    }
    node
}

fn move_red_to_right<TOrd: RType>(
    pool: &mut MemPool<Node<TOrd>>,
    node: usize,
    Ghost(t): Ghost<Tree>,
    Ghost(lo): Ghost<int>,
    Ghost(hi): Ghost<int>,
) -> (r: usize)
    requires
        old(pool).wf(),
        shape(old(pool)@, node, t),
        t.ordered(lo, hi),
        t is Fork,
        t.l() is Fork,
        t.r() is Fork,
    ensures
        final(pool).wf(),
        same_slots(old(pool), final(pool)),
        shape(final(pool)@, r, t.move_red_right()),
        links_only(old(pool)@, final(pool)@, t.handles()),
{
    // Assuming that h is red and both h.right and h.right.left
    // are black, make h.right or one of its children red.
    let mut node = node;
    let ghost f = t.flip();
    flip_color(pool, node, Ghost(t), Ghost(lo), Ghost(hi));
    proof {
        crate::llrb::lemma_flip(t, lo, hi);
        reveal_with_fuel(shape, 3);
        reveal_with_fuel(Tree::ordered, 2);
    }
    let ghost m1 = pool@;
    let left = pool.get(node).left;
    if left != NIL && is_red(pool, pool.get(left).left) {
        node = rotate_right(pool, node, Ghost(f), Ghost(lo), Ghost(hi));
        let ghost m2 = pool@;
        proof {
            crate::llrb::lemma_rot_right(f, lo, hi);
        }
        flip_color(pool, node, Ghost(f.rot_right()), Ghost(lo), Ghost(hi));
        proof {
            let hs = t.handles();
            lemma_links_only_trans(old(pool)@, m1, m2, hs, hs, hs);
            lemma_links_only_trans(old(pool)@, m2, pool@, hs, hs, hs);
        }
    }
    node
}

/// After a change to nodes whose keys are less than the root's, the root and
/// the right subtree are as they were.
proof fn lemma_below_changed<TOrd: RType>(
    a: Map<usize, Node<TOrd>>,
    b: Map<usize, Node<TOrd>>,
    touched: Set<usize>,
    node: usize,
    t: Tree,
    lo: int,
    hi: int,
)
    requires
        shape(a, node, t),
        t.ordered(lo, hi),
        t is Fork,
        links_only(a, b, touched),
        forall|h: usize| #[trigger]
            touched.contains(h) && a.dom().contains(h) ==> a[h].lo() < t.k(),
    ensures
        root_at(b, node, t),
        b[node] == a[node],
        shape(b, b[node].right, t.r()),
        t.r().ordered(t.k(), hi),
        lo < t.k() < hi,
{
    lemma_subtree_kept(a, b, touched, a[node].right, t.r(), t.k(), hi);
}

/// After a change to nodes whose keys are greater than the root's, the root
/// and the left subtree are as they were.
proof fn lemma_above_changed<TOrd: RType>(
    a: Map<usize, Node<TOrd>>,
    b: Map<usize, Node<TOrd>>,
    touched: Set<usize>,
    node: usize,
    t: Tree,
    lo: int,
    hi: int,
)
    requires
        shape(a, node, t),
        t.ordered(lo, hi),
        t is Fork,
        links_only(a, b, touched),
        forall|h: usize| #[trigger]
            touched.contains(h) && a.dom().contains(h) ==> a[h].lo() > t.k(),
    ensures
        root_at(b, node, t),
        b[node] == a[node],
        shape(b, b[node].left, t.l()),
        t.l().ordered(lo, t.k()),
        lo < t.k() < hi,
{
    lemma_subtree_kept(a, b, touched, a[node].left, t.l(), lo, t.k());
}

/// The repairs on the way up after an insertion: lean to the left, split a
/// run of two red links, and pass the redness up where both children are red.
fn fixup_insert<TOrd: RType>(
    pool: &mut MemPool<Node<TOrd>>,
    node: usize,
    Ghost(t): Ghost<Tree>,
    Ghost(lo): Ghost<int>,
    Ghost(hi): Ghost<int>,
) -> (r: usize)
    requires
        old(pool).wf(),
        shape(old(pool)@, node, t),
        t.ordered(lo, hi),
        t is Fork,
    ensures
        final(pool).wf(),
        same_slots(old(pool), final(pool)),
        shape(final(pool)@, r, t.fix_ins()),
        links_only(old(pool)@, final(pool)@, t.handles()),
{
    let mut node = node;
    let ghost hs = t.handles();
    proof {
        reveal_with_fuel(shape, 3);
        lemma_links_only_trans(old(pool)@, old(pool)@, pool@, Set::empty(), Set::empty(), hs);
    }
    let n = *pool.get(node);
    if is_red(pool, n.right) && !is_red(pool, n.left) {
        node = rotate_left(pool, node, Ghost(t), Ghost(lo), Ghost(hi));
    }
    let ghost t1 = if t.r().is_red() && !t.l().is_red() {
        t.rot_left()
    } else {
        t
    };
    let ghost m1 = pool@;
    proof {
        crate::llrb::lemma_rot_left(t, lo, hi);
    }
    let n = *pool.get(node);
    if is_red(pool, n.left) && is_red(pool, pool.get(n.left).left) {
        node = rotate_right(pool, node, Ghost(t1), Ghost(lo), Ghost(hi));
    }
    let ghost t2 = if t1.l().is_red() && t1.l().l().is_red() {
        t1.rot_right()
    } else {
        t1
    };
    let ghost m2 = pool@;
    proof {
        crate::llrb::lemma_rot_right(t1, lo, hi);
        lemma_links_only_trans(old(pool)@, m1, m2, hs, hs, hs);
    }
    let n = *pool.get(node);
    if is_red(pool, n.left) && is_red(pool, n.right) {
        flip_color(pool, node, Ghost(t2), Ghost(lo), Ghost(hi));
    }
    proof {
        lemma_links_only_trans(old(pool)@, m2, pool@, hs, hs, hs);
    }
    node
}

fn insert_recursive<TOrd: RType>(
    pool: &mut MemPool<Node<TOrd>>,
    node: usize,
    node_to_insert: usize,
    Ghost(t): Ghost<Tree>,
    Ghost(lo): Ghost<int>,
    Ghost(hi): Ghost<int>,
) -> (r: usize)
    requires
        old(pool).wf(),
        shape(old(pool)@, node, t),
        t.ordered(lo, hi),
        node_to_insert != NIL,
        old(pool)@.dom().contains(node_to_insert),
        old(pool)@[node_to_insert].left == NIL,
        old(pool)@[node_to_insert].right == NIL,
        old(pool)@[node_to_insert].color == RED,
        lo < old(pool)@[node_to_insert].lo() < hi,
        !t.keys().contains(old(pool)@[node_to_insert].lo()),
        t.rbt(),
    ensures
        final(pool).wf(),
        same_slots(old(pool), final(pool)),
        shape(final(pool)@, r, t.ins(node_to_insert, old(pool)@[node_to_insert].lo())),
        links_only(old(pool)@, final(pool)@, t.handles().insert(node_to_insert)),
    decreases t,
{
    let ghost key = pool@[node_to_insert].lo();
    let ghost hs = t.handles().insert(node_to_insert);
    let ghost a = pool@;
    if node == NIL {
        proof {
            reveal_with_fuel(shape, 2);
        }
        return node_to_insert;
    }
    proof {
        lemma_shape_keys(a, node, t, lo, hi);
        assert(t.keys().contains(t.k()));
        assert(node != node_to_insert);
    }
    let n = *pool.get(node);
    let cmp = key_cmp(&pool.get(node_to_insert).range[0], &n.range[0]);
    let ghost u;
    if cmp == -1 {
        proof {
            lemma_shape_keys(a, n.left, t.l(), lo, t.k());
        }
        let left = insert_recursive(
            pool,
            n.left,
            node_to_insert,
            Ghost(t.l()),
            Ghost(lo),
            Ghost(t.k()),
        );
        let ghost m = pool@;
        let ghost sub = t.l().ins(node_to_insert, key);
        proof {
            u = t.with_left(sub);
            crate::llrb::lemma_ins(t.l(), node_to_insert, key, lo, t.k());
            lemma_below_changed(a, m, t.l().handles().insert(node_to_insert), node, t, lo, hi);
        }
        set_left(pool, node, left, Ghost(t), Ghost(sub), Ghost(lo), Ghost(hi));
        proof {
            lemma_links_only_trans(
                a,
                m,
                pool@,
                t.l().handles().insert(node_to_insert),
                set![node],
                hs,
            );
        }
    } else {
        // we know this key won't already exist
        assert(cmp == 1);
        proof {
            lemma_shape_keys(a, n.right, t.r(), t.k(), hi);
        }
        let right = insert_recursive(
            pool,
            n.right,
            node_to_insert,
            Ghost(t.r()),
            Ghost(t.k()),
            Ghost(hi),
        );
        let ghost m = pool@;
        let ghost sub = t.r().ins(node_to_insert, key);
        proof {
            u = t.with_right(sub);
            crate::llrb::lemma_ins(t.r(), node_to_insert, key, t.k(), hi);
            lemma_above_changed(a, m, t.r().handles().insert(node_to_insert), node, t, lo, hi);
        }
        set_right(pool, node, right, Ghost(t), Ghost(sub), Ghost(lo), Ghost(hi));
        proof {
            lemma_links_only_trans(
                a,
                m,
                pool@,
                t.r().handles().insert(node_to_insert),
                set![node],
                hs,
            );
        }
    }
    let ghost m = pool@;
    let r = fixup_insert(pool, node, Ghost(u), Ghost(lo), Ghost(hi));
    proof {
        assert(u.handles() =~= hs);
        lemma_links_only_trans(a, m, pool@, hs, hs, hs);
    }
    r
}

fn fixup_remove<TOrd: RType>(
    pool: &mut MemPool<Node<TOrd>>,
    node: usize,
    Ghost(t): Ghost<Tree>,
    Ghost(lo): Ghost<int>,
    Ghost(hi): Ghost<int>,
) -> (r: usize)
    requires
        old(pool).wf(),
        shape(old(pool)@, node, t),
        t.ordered(lo, hi),
        t is Fork,
    ensures
        final(pool).wf(),
        same_slots(old(pool), final(pool)),
        shape(final(pool)@, r, t.fix_up()),
        links_only(old(pool)@, final(pool)@, t.handles()),
{
    let mut node = node;
    let ghost hs = t.handles();
    proof {
        reveal_with_fuel(shape, 3);
        lemma_links_only_trans(old(pool)@, old(pool)@, pool@, Set::empty(), Set::empty(), hs);
    }
    let n = *pool.get(node);
    if is_red(pool, n.right) {
        node = rotate_left(pool, node, Ghost(t), Ghost(lo), Ghost(hi));
    }
    let ghost t1 = if t.r().is_red() {
        t.rot_left()
    } else {
        t
    };
    let ghost m1 = pool@;
    proof {
        crate::llrb::lemma_rot_left(t, lo, hi);
    }
    let n = *pool.get(node);
    if is_red(pool, n.left) && is_red(pool, pool.get(n.left).left) {
        node = rotate_right(pool, node, Ghost(t1), Ghost(lo), Ghost(hi));
    }
    let ghost t2 = if t1.l().is_red() && t1.l().l().is_red() {
        t1.rot_right()
    } else {
        t1
    };
    let ghost m2 = pool@;
    proof {
        crate::llrb::lemma_rot_right(t1, lo, hi);
        lemma_links_only_trans(old(pool)@, m1, m2, hs, hs, hs);
    }
    let n = *pool.get(node);
    if is_red(pool, n.left) && is_red(pool, n.right) {
        flip_color(pool, node, Ghost(t2), Ghost(lo), Ghost(hi));
    }
    proof {
        lemma_links_only_trans(old(pool)@, m2, pool@, hs, hs, hs);
    }
    node
}

/// Take the leftmost node out of the tree below `node`: the new root of what
/// is left, and the node that was taken out.
fn pop_min_recursive<TOrd: RType>(
    pool: &mut MemPool<Node<TOrd>>,
    node: usize,
    Ghost(t): Ghost<Tree>,
    Ghost(lo): Ghost<int>,
    Ghost(hi): Ghost<int>,
) -> (r: (usize, usize))
    requires
        old(pool).wf(),
        shape(old(pool)@, node, t),
        t.ordered(lo, hi),
        t is Fork ==> t.min_ok(),
    ensures
        final(pool).wf(),
        same_slots(old(pool), final(pool)),
        shape(final(pool)@, r.0, t.pop_min().0),
        r.1 == t.pop_min().1,
        links_only(old(pool)@, final(pool)@, t.handles()),
        t is Fork ==> r.1 != NIL && t.handles().contains(r.1) && old(pool)@[r.1].lo()
            == t.pop_min().2,
    decreases t.size(),
{
    let ghost a = pool@;
    let ghost hs = t.handles();
    proof {
        reveal_with_fuel(shape, 3);
        lemma_links_only_trans(a, a, a, Set::empty(), Set::empty(), hs);
    }
    if node == NIL {
        return (NIL, NIL);
    }
    let n = *pool.get(node);
    if n.left == NIL {
        return (NIL, node);
    }
    let mut node = node;
    proof {
        crate::llrb::lemma_descend_min(t, lo, hi);
    }
    if !is_red(pool, n.left) && !is_red(pool, pool.get(n.left).left) {
        node = move_red_to_left(pool, node, Ghost(t), Ghost(lo), Ghost(hi));
    }
    let ghost t1 = t.lean_left();
    let ghost m1 = pool@;
    let left = pool.get(node).left;
    proof {
        reveal_with_fuel(Tree::ordered, 2);
        lemma_shape_keys(m1, left, t1.l(), lo, t1.k());
    }
    let (node_left, node_free) = pop_min_recursive(
        pool,
        left,
        Ghost(t1.l()),
        Ghost(lo),
        Ghost(t1.k()),
    );
    let ghost m2 = pool@;
    let ghost p = t1.l().pop_min();
    proof {
        crate::llrb::lemma_pop_min(t1.l(), lo, t1.k());
        crate::llrb::lemma_ordered_widen(p.0, p.2, t1.k(), lo, t1.k());
        lemma_below_changed(m1, m2, t1.l().handles(), node, t1, lo, hi);
    }
    set_left(pool, node, node_left, Ghost(t1), Ghost(p.0), Ghost(lo), Ghost(hi));
    let ghost m3 = pool@;
    let ghost u = t1.with_left(p.0);
    let r = fixup_remove(pool, node, Ghost(u), Ghost(lo), Ghost(hi));
    proof {
        assert(t1.l().handles().subset_of(hs) && set![node].subset_of(hs)
            && u.handles().subset_of(hs)) by {
            reveal_with_fuel(Tree::handles, 2);
        }
        lemma_links_only_trans(a, m1, m2, hs, t1.l().handles(), hs);
        lemma_links_only_trans(a, m2, m3, hs, set![node], hs);
        lemma_links_only_trans(a, m3, pool@, hs, u.handles(), hs);
        assert(m1[node_free].range == a[node_free].range);
    }
    (r, node_free)
}

/// The handle of the tree's root is the one to remove exactly where the
/// root's key is the key to remove.
proof fn lemma_root_is_target<TOrd: RType>(
    nodes: Map<usize, Node<TOrd>>,
    node: usize,
    node_to_remove: usize,
    t: Tree,
    lo: int,
    hi: int,
)
    requires
        shape(nodes, node, t),
        t.ordered(lo, hi),
        t.handles().contains(node_to_remove),
    ensures
        t is Fork,
        node == node_to_remove <==> nodes[node_to_remove].lo() == t.k(),
        nodes[node_to_remove].lo() < t.k() ==> t.l().handles().contains(node_to_remove),
        nodes[node_to_remove].lo() > t.k() ==> t.r().handles().contains(node_to_remove),
        t.keys().contains(nodes[node_to_remove].lo()),
{
    lemma_shape_keys(nodes, node, t, lo, hi);
    match t {
        Tree::Leaf => {},
        Tree::Fork { left, key, right, at, .. } => {
            lemma_shape_keys(nodes, nodes[node].left, *left, lo, key);
            lemma_shape_keys(nodes, nodes[node].right, *right, key, hi);
            assert(t.handles() == left.handles().union(right.handles()).insert(at));
            if left.handles().contains(node_to_remove) {
                assert(nodes[node_to_remove].lo() < key);
            } else if right.handles().contains(node_to_remove) {
                assert(nodes[node_to_remove].lo() > key);
            } else {
                assert(node_to_remove == at);
            }
        },
    }
}

/// The node `node`, which is to leave the tree and has a right subtree, gives
/// its place to its successor: the leftmost node of that subtree.
fn replace_with_successor<TOrd: RType>(
    pool: &mut MemPool<Node<TOrd>>,
    node: usize,
    Ghost(t): Ghost<Tree>,
    Ghost(lo): Ghost<int>,
    Ghost(hi): Ghost<int>,
) -> (r: usize)
    requires
        old(pool).wf(),
        shape(old(pool)@, node, t),
        t.ordered(lo, hi),
        t is Fork,
        t.r().min_pre(),
    ensures
        final(pool).wf(),
        same_slots(old(pool), final(pool)),
        shape(
            final(pool)@,
            r,
            Tree::fork(
                t.l(),
                t.r().pop_min().1,
                t.r().pop_min().2,
                t.is_red(),
                t.r().pop_min().0,
            ),
        ),
        Tree::fork(
            t.l(),
            t.r().pop_min().1,
            t.r().pop_min().2,
            t.is_red(),
            t.r().pop_min().0,
        ).ordered(lo, hi),
        Tree::fork(
            t.l(),
            t.r().pop_min().1,
            t.r().pop_min().2,
            t.is_red(),
            t.r().pop_min().0,
        ).handles().subset_of(t.handles()),
        links_only(old(pool)@, final(pool)@, t.handles()),
{
    let ghost a = pool@;
    let ghost hs = t.handles();
    proof {
        reveal_with_fuel(shape, 2);
        reveal_with_fuel(Tree::ordered, 2);
        reveal_with_fuel(Tree::handles, 2);
    }
    let n = *pool.get(node);
    let (node_right, node_free) = pop_min_recursive(
        pool,
        n.right,
        Ghost(t.r()),
        Ghost(t.k()),
        Ghost(hi),
    );
    let ghost m1 = pool@;
    let ghost p = t.r().pop_min();
    proof {
        crate::llrb::lemma_pop_min(t.r(), t.k(), hi);
        lemma_shape_keys(a, n.right, t.r(), t.k(), hi);
        lemma_above_changed(a, m1, t.r().handles(), node, t, lo, hi);
        assert(m1[node_free].range == a[node_free].range);
    }
    set_links(pool, node_free, n.left, node_right, n.color);
    proof {
        let u = Tree::fork(t.l(), p.1, p.2, t.is_red(), p.0);
        let m2 = pool@;
        crate::llrb::lemma_ordered_widen(t.l(), lo, t.k(), lo, p.2);
        lemma_subtree_kept(m1, m2, set![node_free], n.left, t.l(), lo, t.k());
        lemma_subtree_kept(m1, m2, set![node_free], node_right, p.0, p.2, hi);
        assert(u.ordered(lo, hi));
        assert(shape(m2, node_free, u));
        assert(t.r().handles().subset_of(hs) && set![node_free].subset_of(hs));
        assert(u.handles().subset_of(hs));
        lemma_links_only_trans(a, a, m1, Set::empty(), t.r().handles(), hs);
        lemma_links_only_trans(a, m1, m2, hs, set![node_free], hs);
    }
    node_free
}

/// Removal where the key to remove is less than the key of `node`.
fn remove_in_left<TOrd: RType>(
    pool: &mut MemPool<Node<TOrd>>,
    node: usize,
    node_to_remove: usize,
    Ghost(t): Ghost<Tree>,
    Ghost(lo): Ghost<int>,
    Ghost(hi): Ghost<int>,
) -> (r: usize)
    requires
        old(pool).wf(),
        shape(old(pool)@, node, t),
        t.ordered(lo, hi),
        t.handles().contains(node_to_remove),
        old(pool)@.dom().contains(node_to_remove),
        t.del_ok(old(pool)@[node_to_remove].lo()),
        old(pool)@[node_to_remove].lo() < t.k(),
    ensures
        final(pool).wf(),
        same_slots(old(pool), final(pool)),
        shape(final(pool)@, r, t.del(old(pool)@[node_to_remove].lo())),
        links_only(old(pool)@, final(pool)@, t.handles()),
    decreases t.size(), 0nat,
{
    let ghost a = pool@;
    let ghost hs = t.handles();
    let ghost key = a[node_to_remove].lo();
    proof {
        reveal_with_fuel(shape, 3);
        lemma_links_only_trans(a, a, a, Set::empty(), Set::empty(), hs);
        lemma_root_is_target(a, node, node_to_remove, t, lo, hi);
        crate::llrb::lemma_descend_left(t, key, lo, hi);
    }
    let mut node = node;
    let n = *pool.get(node);
    if n.left != NIL && !is_red(pool, n.left) && !is_red(pool, pool.get(n.left).left) {
        node = move_red_to_left(pool, node, Ghost(t), Ghost(lo), Ghost(hi));
    }
    let ghost t1 = t.lean_left();
    let ghost m1 = pool@;
    let left = pool.get(node).left;
    proof {
        reveal_with_fuel(Tree::ordered, 2);
        assert(m1[node_to_remove].range == a[node_to_remove].range);
        lemma_root_is_target(m1, node, node_to_remove, t1, lo, hi);
    }
    let node_left = remove_recursive(
        pool,
        left,
        node_to_remove,
        Ghost(t1.l()),
        Ghost(lo),
        Ghost(t1.k()),
    );
    let ghost m2 = pool@;
    let ghost sub = t1.l().del(key);
    proof {
        crate::llrb::lemma_del(t1.l(), key, lo, t1.k());
        lemma_shape_keys(m1, left, t1.l(), lo, t1.k());
        lemma_below_changed(m1, m2, t1.l().handles(), node, t1, lo, hi);
    }
    set_left(pool, node, node_left, Ghost(t1), Ghost(sub), Ghost(lo), Ghost(hi));
    let ghost m3 = pool@;
    let ghost u = t1.with_left(sub);
    let r = fixup_remove(pool, node, Ghost(u), Ghost(lo), Ghost(hi));
    proof {
        assert(t1.l().handles().subset_of(hs) && set![node].subset_of(hs)
            && u.handles().subset_of(hs)) by {
            reveal_with_fuel(Tree::handles, 2);
        }
        lemma_links_only_trans(a, m1, m2, hs, t1.l().handles(), hs);
        lemma_links_only_trans(a, m2, m3, hs, set![node], hs);
        lemma_links_only_trans(a, m3, pool@, hs, u.handles(), hs);
    }
    r
}

/// Removal where the key to remove is not less than the key of `node`.
fn remove_in_right<TOrd: RType>(
    pool: &mut MemPool<Node<TOrd>>,
    node: usize,
    node_to_remove: usize,
    Ghost(t): Ghost<Tree>,
    Ghost(lo): Ghost<int>,
    Ghost(hi): Ghost<int>,
) -> (r: usize)
    requires
        old(pool).wf(),
        shape(old(pool)@, node, t),
        t.ordered(lo, hi),
        t.handles().contains(node_to_remove),
        old(pool)@.dom().contains(node_to_remove),
        t.del_ok(old(pool)@[node_to_remove].lo()),
        old(pool)@[node_to_remove].lo() >= t.k(),
    ensures
        final(pool).wf(),
        same_slots(old(pool), final(pool)),
        shape(final(pool)@, r, t.del(old(pool)@[node_to_remove].lo())),
        links_only(old(pool)@, final(pool)@, t.handles()),
    decreases t.size(), 0nat,
{
    let ghost a = pool@;
    let ghost hs = t.handles();
    let ghost key = a[node_to_remove].lo();
    proof {
        reveal_with_fuel(shape, 3);
        lemma_links_only_trans(a, a, a, Set::empty(), Set::empty(), hs);
        lemma_root_is_target(a, node, node_to_remove, t, lo, hi);
        crate::llrb::lemma_descend_right(t, key, lo, hi);
    }
    let mut node = node;
    let n = *pool.get(node);
    if is_red(pool, n.left) {
        node = rotate_right(pool, node, Ghost(t), Ghost(lo), Ghost(hi));
    }
    let ghost t1 = t.turn_right();
    let ghost m1 = pool@;
    let n1 = *pool.get(node);
    proof {
        assert(m1[node_to_remove].range == a[node_to_remove].range);
        lemma_root_is_target(m1, node, node_to_remove, t1, lo, hi);
    }
    if node == node_to_remove && n1.right == NIL {
        // 'node' removed
        return NIL;
    }
    if !is_red(pool, n1.right) && !is_red(pool, pool.get(n1.right).left) {
        node = move_red_to_right(pool, node, Ghost(t1), Ghost(lo), Ghost(hi));
    }
    let ghost t2 = t.go_right();
    let ghost m2 = pool@;
    let n2 = *pool.get(node);
    let ghost u;
    proof {
        lemma_links_only_trans(a, m1, m2, hs, hs, hs);
        assert(m2[node_to_remove].range == a[node_to_remove].range);
        lemma_root_is_target(m2, node, node_to_remove, t2, lo, hi);
        reveal_with_fuel(Tree::ordered, 2);
    }
    if node == node_to_remove {
        node = replace_with_successor(pool, node, Ghost(t2), Ghost(lo), Ghost(hi));
        proof {
            let p = t2.r().pop_min();
            u = Tree::fork(t2.l(), p.1, p.2, t2.is_red(), p.0);
            lemma_links_only_trans(a, m2, pool@, hs, hs, hs);
        }
    } else {
        let node_right = remove_recursive(
            pool,
            n2.right,
            node_to_remove,
            Ghost(t2.r()),
            Ghost(t2.k()),
            Ghost(hi),
        );
        let ghost m3 = pool@;
        let ghost sub = t2.r().del(key);
        proof {
            crate::llrb::lemma_del(t2.r(), key, t2.k(), hi);
            lemma_shape_keys(m2, n2.right, t2.r(), t2.k(), hi);
            lemma_above_changed(m2, m3, t2.r().handles(), node, t2, lo, hi);
        }
        set_right(pool, node, node_right, Ghost(t2), Ghost(sub), Ghost(lo), Ghost(hi));
        proof {
            u = t2.with_right(sub);
            assert(t2.r().handles().subset_of(hs) && set![node].subset_of(hs)
                && u.handles().subset_of(hs)) by {
                reveal_with_fuel(Tree::handles, 2);
            }
            lemma_links_only_trans(a, m2, m3, hs, t2.r().handles(), hs);
            lemma_links_only_trans(a, m3, pool@, hs, set![node], hs);
        }
    }
    let ghost m = pool@;
    let r = fixup_remove(pool, node, Ghost(u), Ghost(lo), Ghost(hi));
    proof {
        lemma_links_only_trans(a, m, pool@, hs, u.handles(), hs);
    }
    r
}

fn remove_recursive<TOrd: RType>(
    pool: &mut MemPool<Node<TOrd>>,
    node: usize,
    node_to_remove: usize,
    Ghost(t): Ghost<Tree>,
    Ghost(lo): Ghost<int>,
    Ghost(hi): Ghost<int>,
) -> (r: usize)
    requires
        old(pool).wf(),
        shape(old(pool)@, node, t),
        t.ordered(lo, hi),
        t.handles().contains(node_to_remove),
        old(pool)@.dom().contains(node_to_remove),
        t.del_ok(old(pool)@[node_to_remove].lo()),
    ensures
        final(pool).wf(),
        same_slots(old(pool), final(pool)),
        shape(final(pool)@, r, t.del(old(pool)@[node_to_remove].lo())),
        links_only(old(pool)@, final(pool)@, t.handles()),
    decreases t.size(), 1nat,
{
    if node == NIL {
        return NIL;
    }
    proof {
        lemma_shape_keys(pool@, node, t, lo, hi);
    }
    if key_cmp(&pool.get(node_to_remove).range[0], &pool.get(node).range[0]) == -1 {
        remove_in_left(pool, node, node_to_remove, Ghost(t), Ghost(lo), Ghost(hi))
    } else {
        remove_in_right(pool, node, node_to_remove, Ghost(t), Ghost(lo), Ghost(hi))
    }
}

/// A search tree that the nodes reached from `root` form is the tree that
/// they form.
pub proof fn lemma_tree_of<TOrd: RType>(nodes: Map<usize, Node<TOrd>>, root: usize, t: Tree)
    requires
        shape(nodes, root, t),
        t.ordered(key_floor::<TOrd>(), key_ceil::<TOrd>()),
    ensures
        is_tree(nodes, root),
        tree_of(nodes, root) == t,
{
    lemma_shape_unique(nodes, root, tree_of(nodes, root), t);
}

/// The nodes reached from `root` form their tree.
pub proof fn lemma_is_tree<TOrd: RType>(nodes: Map<usize, Node<TOrd>>, root: usize)
    requires
        is_tree(nodes, root),
    ensures
        shape(nodes, root, tree_of(nodes, root)),
        tree_of(nodes, root).ordered(key_floor::<TOrd>(), key_ceil::<TOrd>()),
        tree_of(nodes, root) is Leaf <==> root == NIL,
        forall|h: usize| #[trigger]
            tree_of(nodes, root).handles().contains(h) ==> {
                &&& h != NIL
                &&& nodes.dom().contains(h)
                &&& tree_of(nodes, root).keys().contains(nodes[h].lo())
            },
{
    lemma_shape_keys(
        nodes,
        root,
        tree_of(nodes, root),
        key_floor::<TOrd>(),
        key_ceil::<TOrd>(),
    );
}

/// Paint a node of the tree.
fn set_color<TOrd: RType>(pool: &mut MemPool<Node<TOrd>>, node: usize, color: bool)
    requires
        old(pool).wf(),
        old(pool)@.dom().contains(node),
    ensures
        final(pool).wf(),
        same_slots(old(pool), final(pool)),
        final(pool)@ == old(pool)@.insert(node, (Node { color: color, ..old(pool)@[node] })),
        links_only(old(pool)@, final(pool)@, set![node]),
{
    let n = *pool.get(node);
    set_links(pool, node, n.left, n.right, color);
}

/// Paint the root of a tree black.
fn blacken<TOrd: RType>(
    pool: &mut MemPool<Node<TOrd>>,
    root: usize,
    Ghost(t): Ghost<Tree>,
    Ghost(lo): Ghost<int>,
    Ghost(hi): Ghost<int>,
)
    requires
        old(pool).wf(),
        shape(old(pool)@, root, t),
        t.ordered(lo, hi),
    ensures
        final(pool).wf(),
        same_slots(old(pool), final(pool)),
        shape(final(pool)@, root, t.paint(false)),
        t.paint(false).ordered(lo, hi),
        links_only(old(pool)@, final(pool)@, t.handles()),
{
    proof {
        lemma_links_only_trans(
            pool@,
            pool@,
            pool@,
            Set::empty(),
            Set::empty(),
            t.handles(),
        );
    }
    if root != NIL {
        let ghost a = pool@;
        set_color(pool, root, BLACK);
        proof {
            let b = pool@;
            lemma_subtree_kept(a, b, set![root], a[root].left, t.l(), lo, t.k());
            lemma_subtree_kept(a, b, set![root], a[root].right, t.r(), t.k(), hi);
            lemma_links_only_trans(a, a, b, Set::empty(), set![root], t.handles());
        }
    }
}

/// Insert the node `node_to_insert` into the tree at `root`.  The node comes
/// in red, the repairs are made on the way up, and the root is painted black.
/// Hands back the new root.
pub fn insert_root<TOrd: RType>(
    pool: &mut MemPool<Node<TOrd>>,
    root: usize,
    node_to_insert: usize,
) -> (r: usize)
    requires
        old(pool).wf(),
        is_tree(old(pool)@, root),
        tree_of(old(pool)@, root).valid(),
        node_to_insert != NIL,
        old(pool)@.dom().contains(node_to_insert),
        old(pool)@[node_to_insert].left == NIL,
        old(pool)@[node_to_insert].right == NIL,
        !tree_of(old(pool)@, root).keys().contains(old(pool)@[node_to_insert].lo()),
    ensures
        final(pool).wf(),
        same_slots(old(pool), final(pool)),
        r != NIL,
        is_tree(final(pool)@, r),
        tree_of(final(pool)@, r) == tree_of(old(pool)@, root).insert(
            node_to_insert,
            old(pool)@[node_to_insert].lo(),
        ),
        tree_of(final(pool)@, r).valid(),
        tree_of(final(pool)@, r).balanced(),
        tree_of(final(pool)@, r).handles() == tree_of(old(pool)@, root).handles().insert(
            node_to_insert,
        ),
        tree_of(final(pool)@, r).keys() == tree_of(old(pool)@, root).keys().insert(
            old(pool)@[node_to_insert].lo(),
        ),
        links_only(
            old(pool)@,
            final(pool)@,
            tree_of(old(pool)@, root).handles().insert(node_to_insert),
        ),
{
    let ghost a = pool@;
    let ghost t = tree_of(a, root);
    let ghost lo = key_floor::<TOrd>();
    let ghost hi = key_ceil::<TOrd>();
    let ghost key = a[node_to_insert].lo();
    let ghost hs = t.handles().insert(node_to_insert);
    proof {
        lemma_is_tree(a, root);
        TOrd::lemma_val_bounds(a[node_to_insert].range[0]);
    }
    set_color(pool, node_to_insert, RED);
    let ghost m1 = pool@;
    proof {
        assert forall|h: usize| #[trigger] t.handles().contains(h) implies m1.dom().contains(h)
            && same_in_tree(a[h], m1[h]) by {
            assert(h != node_to_insert);
        }
        lemma_shape_frame(a, m1, root, t);
    }
    let root = insert_recursive(pool, root, node_to_insert, Ghost(t), Ghost(lo), Ghost(hi));
    let ghost m2 = pool@;
    let ghost u = t.ins(node_to_insert, key);
    proof {
        crate::llrb::lemma_ins(t, node_to_insert, key, lo, hi);
        crate::llrb::lemma_insert(t, node_to_insert, key, lo, hi);
        crate::llrb::lemma_paint(u, false, lo, hi);
    }
    blacken(pool, root, Ghost(u), Ghost(lo), Ghost(hi));
    proof {
        lemma_links_only_trans(a, m1, m2, set![node_to_insert], hs, hs);
        lemma_links_only_trans(a, m2, pool@, hs, hs, hs);
        lemma_tree_of(pool@, root, t.insert(node_to_insert, key));
    }
    root
}

/// Remove the node `node_to_remove` from the tree at `root`.  On the way down
/// redness is borrowed so that the node to remove is never a black node with
/// black children; a node with a right subtree gives its place to its
/// successor; the repairs are made on the way up, and the root is painted
/// black.  Hands back the new root, `NIL` where the tree is empty.
pub fn remove_root<TOrd: RType>(
    pool: &mut MemPool<Node<TOrd>>,
    root: usize,
    node_to_remove: usize,
) -> (r: usize)
    requires
        old(pool).wf(),
        is_tree(old(pool)@, root),
        tree_of(old(pool)@, root).valid(),
        tree_of(old(pool)@, root).handles().contains(node_to_remove),
    ensures
        final(pool).wf(),
        same_slots(old(pool), final(pool)),
        is_tree(final(pool)@, r),
        tree_of(final(pool)@, r) == tree_of(old(pool)@, root).remove(
            old(pool)@[node_to_remove].lo(),
        ),
        tree_of(final(pool)@, r).valid(),
        tree_of(final(pool)@, r).balanced(),
        tree_of(final(pool)@, r).handles() == tree_of(old(pool)@, root).handles().remove(
            node_to_remove,
        ),
        tree_of(final(pool)@, r).keys() == tree_of(old(pool)@, root).keys().remove(
            old(pool)@[node_to_remove].lo(),
        ),
        links_only(old(pool)@, final(pool)@, tree_of(old(pool)@, root).handles()),
{
    let ghost a = pool@;
    let ghost t = tree_of(a, root);
    let ghost lo = key_floor::<TOrd>();
    let ghost hi = key_ceil::<TOrd>();
    let ghost key = a[node_to_remove].lo();
    proof {
        lemma_is_tree(a, root);
        crate::llrb::lemma_remove(t, key, lo, hi);
        crate::llrb::lemma_paint(t.del(key), false, lo, hi);
        crate::llrb::lemma_del_ordered(t, key, lo, hi);
    }
    let root = remove_recursive(pool, root, node_to_remove, Ghost(t), Ghost(lo), Ghost(hi));
    let ghost m = pool@;
    blacken(pool, root, Ghost(t.del(key)), Ghost(lo), Ghost(hi));
    proof {
        let b = pool@;
        let u = t.remove(key);
        assert(t.del(key).handles().subset_of(t.handles()));
        lemma_links_only_trans(a, m, b, t.handles(), t.handles(), t.handles());
        lemma_tree_of(b, root, u);
        lemma_is_tree(b, root);
        assert(b[node_to_remove].range == a[node_to_remove].range);
        assert(!u.handles().contains(node_to_remove));
        assert(u.handles() =~= t.handles().remove(node_to_remove));
        assert(u.keys() =~= t.keys().remove(key));
    }
    root
}

/// `r` is the node of `t` with the greatest key that is not greater than
/// `key`, or `NIL` where `t` has no such key.
pub open spec fn is_lower<TOrd: RType>(
    nodes: Map<usize, Node<TOrd>>,
    t: Tree,
    key: int,
    r: usize,
) -> bool {
    if r == NIL {
        forall|k: int| #[trigger] t.keys().contains(k) ==> k > key
    } else {
        &&& t.handles().contains(r)
        &&& nodes.dom().contains(r)
        &&& nodes[r].lo() <= key
        &&& forall|k: int| #[trigger] t.keys().contains(k) && k <= key ==> k <= nodes[r].lo()
    }
}

/// `r` is the node of `t` with the least key that is not less than `key`, or
/// `NIL` where `t` has no such key.
pub open spec fn is_upper<TOrd: RType>(
    nodes: Map<usize, Node<TOrd>>,
    t: Tree,
    key: int,
    r: usize,
) -> bool {
    if r == NIL {
        forall|k: int| #[trigger] t.keys().contains(k) ==> k < key
    } else {
        &&& t.handles().contains(r)
        &&& nodes.dom().contains(r)
        &&& nodes[r].lo() >= key
        &&& forall|k: int| #[trigger] t.keys().contains(k) && k >= key ==> k >= nodes[r].lo()
    }
}

fn get_or_lower_recursive<TOrd: RType>(
    pool: &MemPool<Node<TOrd>>,
    n: usize,
    key: &TOrd,
    Ghost(t): Ghost<Tree>,
    Ghost(lo): Ghost<int>,
    Ghost(hi): Ghost<int>,
) -> (r: usize)
    requires
        pool.wf(),
        shape(pool@, n, t),
        t.ordered(lo, hi),
        n != NIL,
    ensures
        is_lower(pool@, t, key.val(), r),
    decreases t,
{
    proof {
        lemma_shape_keys(pool@, n, t, lo, hi);
        lemma_shape_keys(pool@, pool@[n].left, t.l(), lo, t.k());
        lemma_shape_keys(pool@, pool@[n].right, t.r(), t.k(), hi);
        crate::llrb::lemma_keys_bounded(t.l(), lo, t.k());
        crate::llrb::lemma_keys_bounded(t.r(), t.k(), hi);
    }
    // Check if (n.key <= key)
    // to get the node directly before 'key'
    let node = *pool.get(n);
    let cmp_lower = key_cmp(&node.range[0], key);
    if cmp_lower == 0 {
        n  // exact match

    } else if cmp_lower == -1 {
        // n is greater than our best so far
        if node.right != NIL {
            let n_test = get_or_lower_recursive(
                pool,
                node.right,
                key,
                Ghost(t.r()),
                Ghost(t.k()),
                Ghost(hi),
            );
            if n_test != NIL {
                return n_test;
            }
        }
        n
    } else {
        if node.left != NIL {
            return get_or_lower_recursive(
                pool,
                node.left,
                key,
                Ghost(t.l()),
                Ghost(lo),
                Ghost(t.k()),
            );
        }
        NIL
    }
}

/// The node with the greatest key that is not greater than `key`, or `NIL`
/// if there is none.
pub fn get_or_lower<TOrd: RType>(pool: &MemPool<Node<TOrd>>, root: usize, key: &TOrd) -> (r: usize)
    requires
        pool.wf(),
        is_tree(pool@, root),
    ensures
        is_lower(pool@, tree_of(pool@, root), key.val(), r),
{
    proof {
        lemma_is_tree(pool@, root);
    }
    if root != NIL {
        return get_or_lower_recursive(
            pool,
            root,
            key,
            Ghost(tree_of(pool@, root)),
            Ghost(key_floor::<TOrd>()),
            Ghost(key_ceil::<TOrd>()),
        );
    }
    NIL
}

fn get_or_upper_recursive<TOrd: RType>(
    pool: &MemPool<Node<TOrd>>,
    n: usize,
    key: &TOrd,
    Ghost(t): Ghost<Tree>,
    Ghost(lo): Ghost<int>,
    Ghost(hi): Ghost<int>,
) -> (r: usize)
    requires
        pool.wf(),
        shape(pool@, n, t),
        t.ordered(lo, hi),
        n != NIL,
    ensures
        is_upper(pool@, t, key.val(), r),
    decreases t,
{
    proof {
        lemma_shape_keys(pool@, n, t, lo, hi);
        lemma_shape_keys(pool@, pool@[n].left, t.l(), lo, t.k());
        lemma_shape_keys(pool@, pool@[n].right, t.r(), t.k(), hi);
        crate::llrb::lemma_keys_bounded(t.l(), lo, t.k());
        crate::llrb::lemma_keys_bounded(t.r(), t.k(), hi);
    }
    // Check if (n.key >= key)
    // to get the node directly after 'key'
    let node = *pool.get(n);
    let cmp_upper = key_cmp(&node.range[0], key);
    if cmp_upper == 0 {
        n  // exact match

    } else if cmp_upper == 1 {
        // n is lower than our best so far
        if node.left != NIL {
            let n_test = get_or_upper_recursive(
                pool,
                node.left,
                key,
                Ghost(t.l()),
                Ghost(lo),
                Ghost(t.k()),
            );
            if n_test != NIL {
                return n_test;
            }
        }
        n
    } else {
        if node.right != NIL {
            return get_or_upper_recursive(
                pool,
                node.right,
                key,
                Ghost(t.r()),
                Ghost(t.k()),
                Ghost(hi),
            );
        }
        NIL
    }
}

/// The node with the least key that is not less than `key`, or `NIL` if
/// there is none.
pub fn get_or_upper<TOrd: RType>(pool: &MemPool<Node<TOrd>>, root: usize, key: &TOrd) -> (r: usize)
    requires
        pool.wf(),
        is_tree(pool@, root),
    ensures
        is_upper(pool@, tree_of(pool@, root), key.val(), r),
{
    proof {
        lemma_is_tree(pool@, root);
    }
    if root != NIL {
        return get_or_upper_recursive(
            pool,
            root,
            key,
            Ghost(tree_of(pool@, root)),
            Ghost(key_floor::<TOrd>()),
            Ghost(key_ceil::<TOrd>()),
        );
    }
    NIL
}

/// The handles below `n`.
pub open spec fn handles_below(n: nat) -> Set<usize> {
    Set::new(|h: usize| h < n)
}

/// There are `n` handles below `n`.
proof fn lemma_handles_below(n: nat)
    requires
        n <= usize::MAX,
    ensures
        handles_below(n).finite(),
        handles_below(n).len() == n,
    decreases n,
{
    if n == 0 {
        assert(handles_below(n) =~= Set::<usize>::empty());
    } else {
        let m = (n - 1) as nat;
        lemma_handles_below(m);
        assert(handles_below(n) =~= handles_below(m).insert(m as usize));
    }
}

/// No two nodes of a search tree share a handle: the tree has as many nodes
/// as handles.
proof fn lemma_handles_len<TOrd: RType>(
    nodes: Map<usize, Node<TOrd>>,
    root: usize,
    t: Tree,
    lo: int,
    hi: int,
)
    requires
        shape(nodes, root, t),
        t.ordered(lo, hi),
    ensures
        t.handles().finite(),
        t.handles().len() == t.size(),
    decreases t,
{
    match t {
        Tree::Leaf => {},
        Tree::Fork { left, at, key, right, .. } => {
            lemma_handles_len(nodes, nodes[root].left, *left, lo, key);
            lemma_handles_len(nodes, nodes[root].right, *right, key, hi);
            lemma_shape_keys(nodes, nodes[root].left, *left, lo, key);
            lemma_shape_keys(nodes, nodes[root].right, *right, key, hi);
            assert(left.handles().disjoint(right.handles())) by {
                assert forall|h: usize|
                    left.handles().contains(h) implies !right.handles().contains(h) by {
                    assert(nodes[h].lo() < key);
                }
            }
            vstd::set_lib::lemma_set_disjoint_lens(left.handles(), right.handles());
            assert(!left.handles().union(right.handles()).contains(at));
        },
    }
}

/// A search tree in a pool has no more nodes than the pool has slots.
pub proof fn lemma_size_bound<TOrd: RType>(pool: &MemPool<Node<TOrd>>, root: usize, t: Tree)
    requires
        pool.wf(),
        shape(pool@, root, t),
        t.ordered(key_floor::<TOrd>(), key_ceil::<TOrd>()),
    ensures
        t.size() <= pool.slot_count(),
        t.size() < NIL,
{
    let lo = key_floor::<TOrd>();
    let hi = key_ceil::<TOrd>();
    pool.lemma_live();
    lemma_handles_len(pool@, root, t, lo, hi);
    lemma_shape_keys(pool@, root, t, lo, hi);
    lemma_handles_below(pool.slot_count());
    assert(t.handles().subset_of(handles_below(pool.slot_count())));
    vstd::set_lib::lemma_len_subset(t.handles(), handles_below(pool.slot_count()));
}

fn is_balanced_recursive<TOrd: RType>(
    pool: &MemPool<Node<TOrd>>,
    node: usize,
    black: usize,
    Ghost(t): Ghost<Tree>,
) -> (r: bool)
    requires
        pool.wf(),
        shape(pool@, node, t),
    ensures
        r == t.paths_black(black as int),
    decreases t,
{
    if node == NIL {
        return black == 0;
    }
    let mut black = black;
    if !is_red(pool, node) {
        if black == 0 {
            // no path below can hold a black node less than none
            proof {
                crate::llrb::lemma_paths_black(t, 0);
            }
            return false;
        }
        black -= 1;
    }
    let n = pool.get(node);
    is_balanced_recursive(pool, n.left, black, Ghost(t.l())) && is_balanced_recursive(
        pool,
        n.right,
        black,
        Ghost(t.r()),
    )
}

/// Whether every path from the root to a leaf holds the same number of black
/// nodes: that number is counted on the leftmost path and then looked for on
/// every path.
pub fn is_balanced<TOrd: RType>(pool: &MemPool<Node<TOrd>>, root: usize) -> (r: bool)
    requires
        pool.wf(),
        is_tree(pool@, root),
    ensures
        r == tree_of(pool@, root).balanced(),
{
    let ghost t = tree_of(pool@, root);
    proof {
        lemma_is_tree(pool@, root);
        lemma_size_bound(pool, root, t);
        crate::llrb::lemma_paths_black(t, t.bh() as int);
    }
    let mut black: usize = 0;
    let mut node = root;
    let ghost cur = t;
    while node != NIL
        invariant
            pool.wf(),
            shape(pool@, node, cur),
            black + cur.bh() == t.bh(),
            t.bh() < NIL,
        decreases cur.size(),
    {
        proof {
            crate::llrb::lemma_size_step(cur);
        }
        if !is_red(pool, node) {
            black += 1;
        }
        node = pool.get(node).left;
        proof {
            cur = cur.l();
        }
    }
    is_balanced_recursive(pool, root, black, Ghost(t))
}

/// Where one node of a search tree gets another key and nothing else
/// changes, the nodes form the tree with that key changed.
pub proof fn lemma_shape_rekey<TOrd: RType>(
    a: Map<usize, Node<TOrd>>,
    b: Map<usize, Node<TOrd>>,
    root: usize,
    t: Tree,
    node: usize,
    lo: int,
    hi: int,
)
    requires
        shape(a, root, t),
        t.ordered(lo, hi),
        t.handles().contains(node),
        forall|h: usize| a.dom().contains(h) ==> #[trigger] b.dom().contains(h),
        forall|h: usize| a.dom().contains(h) && h != node ==> #[trigger] b[h] == a[h],
        b[node].left == a[node].left,
        b[node].right == a[node].right,
        b[node].color == a[node].color,
    ensures
        shape(b, root, t.rekey(a[node].lo(), b[node].lo())),
    decreases t,
{
    lemma_root_is_target(a, root, node, t, lo, hi);
    lemma_shape_keys(a, root, t, lo, hi);
    match t {
        Tree::Leaf => {},
        Tree::Fork { left, key, right, .. } => {
            lemma_shape_keys(a, a[root].left, *left, lo, key);
            lemma_shape_keys(a, a[root].right, *right, key, hi);
            if a[node].lo() < key {
                lemma_shape_rekey(a, b, a[root].left, *left, node, lo, key);
                lemma_shape_frame(a, b, a[root].right, *right);
            } else if a[node].lo() == key {
                lemma_shape_frame(a, b, a[root].left, *left);
                lemma_shape_frame(a, b, a[root].right, *right);
            } else {
                lemma_shape_rekey(a, b, a[root].right, *right, node, key, hi);
                lemma_shape_frame(a, b, a[root].left, *left);
            }
        },
    }
}

/// Every key of a search tree is the key of one of its nodes.
pub proof fn lemma_key_node<TOrd: RType>(
    nodes: Map<usize, Node<TOrd>>,
    root: usize,
    t: Tree,
    lo: int,
    hi: int,
    k: int,
)
    requires
        shape(nodes, root, t),
        t.ordered(lo, hi),
        t.keys().contains(k),
    ensures
        exists|h: usize| #[trigger] t.handles().contains(h) && nodes[h].lo() == k,
    decreases t,
{
    match t {
        Tree::Leaf => {},
        Tree::Fork { left, at, key, right, .. } => {
            if left.keys().contains(k) {
                lemma_key_node(nodes, nodes[root].left, *left, lo, key, k);
                let h = choose|h: usize| #[trigger]
                    left.handles().contains(h) && nodes[h].lo() == k;
                assert(t.handles().contains(h));
            } else if right.keys().contains(k) {
                lemma_key_node(nodes, nodes[root].right, *right, key, hi, k);
                let h = choose|h: usize| #[trigger]
                    right.handles().contains(h) && nodes[h].lo() == k;
                assert(t.handles().contains(h));
            } else {
                assert(t.handles().contains(at));
            }
        },
    }
}

/// A search tree whose nodes are those of a sequence without duplicates has
/// as many nodes as the sequence has elements.
pub proof fn lemma_tree_size<TOrd: RType>(
    nodes: Map<usize, Node<TOrd>>,
    root: usize,
    t: Tree,
    order: Seq<usize>,
)
    requires
        shape(nodes, root, t),
        t.ordered(key_floor::<TOrd>(), key_ceil::<TOrd>()),
        order.no_duplicates(),
        forall|h: usize| #[trigger] t.handles().contains(h) <==> order.contains(h),
    ensures
        t.size() == order.len(),
{
    lemma_handles_len(nodes, root, t, key_floor::<TOrd>(), key_ceil::<TOrd>());
    order.unique_seq_to_set();
    assert(t.handles() =~= order.to_set());
}

} // verus!
