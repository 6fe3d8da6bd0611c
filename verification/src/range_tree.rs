//! The range tree: which values of a domain are free, kept as maximal free
//! ranges.
//!
//! Every free range is a node of the pool.  The nodes form the list, in
//! ascending order, and the tree, keyed by each range's lower bound.

use crate::list::{chain, list_only};
use crate::llrb::Tree;
use crate::mempool_elem::{MemPool, NIL};
use crate::ranges::{covers, gaps, spaced};
use crate::rb::{is_tree, links_only, same_in_tree, same_slots, shape, tree_of};
use crate::types::{List, Node, RType};
use vstd::prelude::*;

verus! {

/// Look values up through the tree; disable for slow, full-list look-ups.
const USE_BTREE: bool = true;

/// Main range-tree structure.
pub struct RangeTree<TOrd: RType> {
    range: [TOrd; 2],
    list: List,
    /// root of the tree that indexes the list's nodes
    root: usize,
    node_pool: MemPool<Node<TOrd>>,
    /// The handles of the list's nodes, head first.
    order: Ghost<Seq<usize>>,
}

/// The ranges of the nodes of `order`, in that order.
spec fn ranges_of<TOrd: RType>(nodes: Map<usize, Node<TOrd>>, order: Seq<usize>) -> Seq<
    (int, int),
> {
    Seq::new(order.len(), |i: int| (nodes[order[i]].lo(), nodes[order[i]].hi()))
}

/// The ranges that a vector of pairs reports.
pub open spec fn pairs_of<TOrd: RType>(pairs: Seq<[TOrd; 2]>) -> Seq<(int, int)> {
    Seq::new(pairs.len(), |i: int| (pairs[i][0].val(), pairs[i][1].val()))
}

/// What a sequence holds once `node` has come in at `place`.
proof fn lemma_insert_contains(order: Seq<usize>, place: int, node: usize)
    requires
        0 <= place <= order.len(),
    ensures
        forall|h: usize| #[trigger]
            order.insert(place, node).contains(h) <==> order.contains(h) || h == node,
{
    let grown = order.insert(place, node);
    assert forall|h: usize| #[trigger] grown.contains(h) <==> order.contains(h) || h == node by {
        if grown.contains(h) {
            let i = choose|i: int| 0 <= i < grown.len() && grown[i] == h;
            if i < place {
                assert(order[i] == h);
            } else if i > place {
                assert(order[i - 1] == h);
            }
        }
        if order.contains(h) {
            let i = choose|i: int| 0 <= i < order.len() && order[i] == h;
            if i < place {
                assert(grown[i] == h);
            } else {
                assert(grown[i + 1] == h);
            }
        }
        assert(grown[place] == node);
    }
}

/// What a sequence without duplicates holds once the element at `place` has
/// left.
proof fn lemma_remove_contains(order: Seq<usize>, place: int)
    requires
        0 <= place < order.len(),
        order.no_duplicates(),
    ensures
        forall|h: usize| #[trigger]
            order.remove(place).contains(h) <==> order.contains(h) && h != order[place],
{
    let rest = order.remove(place);
    assert forall|h: usize| #[trigger] rest.contains(h) <==> order.contains(h) && h
        != order[place] by {
        if rest.contains(h) {
            let i = choose|i: int| 0 <= i < rest.len() && rest[i] == h;
            if i < place {
                assert(order[i] == h);
            } else {
                assert(order[i + 1] == h);
            }
        }
        if order.contains(h) && h != order[place] {
            let i = choose|i: int| 0 <= i < order.len() && order[i] == h;
            if i < place {
                assert(rest[i] == h);
            } else {
                assert(rest[i - 1] == h);
            }
        }
    }
}

/// The list is the same list in every arena that agrees on its nodes' links.
proof fn lemma_chain_kept<TOrd: RType>(
    a: Map<usize, Node<TOrd>>,
    b: Map<usize, Node<TOrd>>,
    list: List,
    order: Seq<usize>,
)
    requires
        chain(a, list, order),
        forall|i: int|
            0 <= i < order.len() ==> b.dom().contains(#[trigger] order[i]) && b[order[i]].next
                == a[order[i]].next && b[order[i]].prev == a[order[i]].prev,
    ensures
        chain(b, list, order),
{
    assert forall|i: int| 0 <= i < order.len() implies (#[trigger] b[order[i]]).prev == (if i
        == 0 {
        NIL
    } else {
        order[i - 1]
    }) && b[order[i]].next == (if i + 1 == order.len() {
        NIL
    } else {
        order[i + 1]
    }) by {
        assert(b[order[i]].next == a[order[i]].next);
        assert(a[order[i]].prev == (if i == 0 {
            NIL
        } else {
            order[i - 1]
        }));
    }
}

/// The tree is the same tree in every arena that agrees on its nodes.
proof fn lemma_tree_kept<TOrd: RType>(
    a: Map<usize, Node<TOrd>>,
    b: Map<usize, Node<TOrd>>,
    root: usize,
)
    requires
        is_tree(a, root),
        forall|h: usize| #[trigger]
            tree_of(a, root).handles().contains(h) ==> b.dom().contains(h) && same_in_tree(
                a[h],
                b[h],
            ),
    ensures
        is_tree(b, root),
        tree_of(b, root) == tree_of(a, root),
{
    crate::rb::lemma_is_tree(a, root);
    crate::rb::lemma_shape_frame(a, b, root, tree_of(a, root));
    crate::rb::lemma_tree_of(b, root, tree_of(a, root));
}

impl<TOrd: RType> RangeTree<TOrd> {
    /// The free ranges, in ascending order.
    pub closed spec fn view(&self) -> Seq<(int, int)> {
        ranges_of(self.node_pool@, self.order@)
    }

    /// The least and the greatest value of the domain.
    pub closed spec fn domain(&self) -> (int, int) {
        (self.range[0].val(), self.range[1].val())
    }

    /// Whether the value `v` is free.
    pub open spec fn is_free(&self, v: int) -> bool {
        covers(self@, v)
    }

    /// The taken ranges, in ascending order: what lies between the free
    /// ranges, within the domain.
    pub open spec fn taken(&self) -> Seq<(int, int)> {
        gaps(self@, self.domain().0, self.domain().1)
    }

    /// The pool, the list and the tree hold the same nodes, and each is in
    /// order in itself.
    #[verifier::opaque]
    spec fn linked(&self) -> bool {
        &&& self.node_pool.wf()
        &&& chain(self.node_pool@, self.list, self.order@)
        &&& forall|h: usize| #[trigger]
            self.node_pool@.dom().contains(h) <==> self.order@.contains(h)
        &&& is_tree(self.node_pool@, self.root)
        &&& tree_of(self.node_pool@, self.root).valid()
        &&& forall|h: usize| #[trigger]
            tree_of(self.node_pool@, self.root).handles().contains(h) <==> self.order@.contains(
                h,
            )
        &&& self.node_pool.slot_count() == self.order@.len() + self.node_pool.free_list().len()
    }

    /// The invariant of the range tree: the free ranges lie within the
    /// domain, ascend, and no two of them overlap or touch; the pool, the
    /// list and the tree hold one node for each of them.
    pub closed spec fn wf(&self) -> bool {
        &&& self.linked()
        &&& self.domain().0 <= self.domain().1
        &&& (self.domain().1 - self.domain().0) / 2 + 1 < NIL
        &&& spaced(self@, self.domain().0, self.domain().1)
    }

    /// The free ranges of a well-formed range tree are spaced within the
    /// domain, which is not empty.
    pub proof fn lemma_wf(&self)
        requires
            self.wf(),
        ensures
            spaced(self@, self.domain().0, self.domain().1),
            self.domain().0 <= self.domain().1,
            TOrd::min_val() <= self.domain().0,
            self.domain().1 <= TOrd::max_val(),
    {
        TOrd::lemma_val_bounds(self.range[0]);
        TOrd::lemma_val_bounds(self.range[1]);
    }

    // ----------------------------------
    // Small take/drop API to reuse nodes

    #[inline]
    fn node_alloc(&mut self, node_data: Node<TOrd>) -> (node: usize)
        requires
            old(self).node_pool.wf(),
            old(self).node_pool.free_list().len() > 0 || old(self).node_pool.slot_count() + 1
                < NIL,
        ensures
            final(self).node_pool.wf(),
            node != NIL,
            !old(self).node_pool@.dom().contains(node),
            final(self).node_pool@ == old(self).node_pool@.insert(node, node_data),
            final(self).node_pool.slot_count() + old(self).node_pool.free_list().len() == old(
                self,
            ).node_pool.slot_count() + final(self).node_pool.free_list().len() + 1,
            final(self).range == old(self).range,
            final(self).list == old(self).list,
            final(self).root == old(self).root,
            final(self).order == old(self).order,
    {
        self.node_pool.alloc_elem_from(node_data)
    }

    #[inline]
    fn node_free(&mut self, node: usize)
        requires
            old(self).node_pool.wf(),
            old(self).node_pool@.dom().contains(node),
        ensures
            final(self).node_pool.wf(),
            final(self).node_pool@ == old(self).node_pool@.remove(node),
            final(self).node_pool.slot_count() == old(self).node_pool.slot_count(),
            final(self).node_pool.free_list().len() == old(self).node_pool.free_list().len() + 1,
            final(self).range == old(self).range,
            final(self).list == old(self).list,
            final(self).root == old(self).root,
            final(self).order == old(self).order,
    {
        self.node_pool.free_elem(node);
    }

    fn new_node(range: [TOrd; 2]) -> (node: Node<TOrd>)
        ensures
            node.next == NIL,
            node.prev == NIL,
            node.left == NIL,
            node.right == NIL,
            node.range == range,
            !node.color,
    {
        Node { next: NIL, prev: NIL, range: range, left: NIL, right: NIL, color: false }
    }

    // ------------------------------------------------------------------------
    // Tree API

    fn tree_insert(&mut self, node: usize)
        requires
            old(self).node_pool.wf(),
            is_tree(old(self).node_pool@, old(self).root),
            tree_of(old(self).node_pool@, old(self).root).valid(),
            node != NIL,
            old(self).node_pool@.dom().contains(node),
            old(self).node_pool@[node].left == NIL,
            old(self).node_pool@[node].right == NIL,
            !tree_of(old(self).node_pool@, old(self).root).keys().contains(
                old(self).node_pool@[node].lo(),
            ),
        ensures
            final(self).node_pool.wf(),
            same_slots(&old(self).node_pool, &final(self).node_pool),
            is_tree(final(self).node_pool@, final(self).root),
            tree_of(final(self).node_pool@, final(self).root).valid(),
            tree_of(final(self).node_pool@, final(self).root).balanced(),
            tree_of(final(self).node_pool@, final(self).root).handles() == tree_of(
                old(self).node_pool@,
                old(self).root,
            ).handles().insert(node),
            tree_of(final(self).node_pool@, final(self).root).keys() == tree_of(
                old(self).node_pool@,
                old(self).root,
            ).keys().insert(old(self).node_pool@[node].lo()),
            links_only(
                old(self).node_pool@,
                final(self).node_pool@,
                tree_of(old(self).node_pool@, old(self).root).handles().insert(node),
            ),
            final(self).range == old(self).range,
            final(self).list == old(self).list,
            final(self).order == old(self).order,
    {
        self.root = crate::rb::insert_root(&mut self.node_pool, self.root, node);
    }

    fn tree_remove(&mut self, node: usize)
        requires
            old(self).node_pool.wf(),
            is_tree(old(self).node_pool@, old(self).root),
            tree_of(old(self).node_pool@, old(self).root).valid(),
            tree_of(old(self).node_pool@, old(self).root).handles().contains(node),
        ensures
            final(self).node_pool.wf(),
            same_slots(&old(self).node_pool, &final(self).node_pool),
            is_tree(final(self).node_pool@, final(self).root),
            tree_of(final(self).node_pool@, final(self).root).valid(),
            tree_of(final(self).node_pool@, final(self).root).balanced(),
            tree_of(final(self).node_pool@, final(self).root).handles() == tree_of(
                old(self).node_pool@,
                old(self).root,
            ).handles().remove(node),
            tree_of(final(self).node_pool@, final(self).root).keys() == tree_of(
                old(self).node_pool@,
                old(self).root,
            ).keys().remove(old(self).node_pool@[node].lo()),
            links_only(
                old(self).node_pool@,
                final(self).node_pool@,
                tree_of(old(self).node_pool@, old(self).root).handles(),
            ),
            final(self).range == old(self).range,
            final(self).list == old(self).list,
            final(self).order == old(self).order,
    {
        self.root = crate::rb::remove_root(&mut self.node_pool, self.root, node);
    }

    fn tree_clear(&mut self)
        ensures
            final(self).root == NIL,
            final(self).range == old(self).range,
            final(self).list == old(self).list,
            final(self).order == old(self).order,
            final(self).node_pool == old(self).node_pool,
    {
        self.root = NIL;
    }

    // ------------------------------------------------------------------------
    // Node API

    /// What a new node finds: it is in neither the list nor the tree, and
    /// both are as they were.
    proof fn lemma_after_alloc(&self, after: Map<usize, Node<TOrd>>, node: usize, data: Node<TOrd>)
        requires
            self.linked(),
            !self.node_pool@.dom().contains(node),
            after == self.node_pool@.insert(node, data),
        ensures
            !self.order@.contains(node),
            chain(after, self.list, self.order@),
            is_tree(after, self.root),
            tree_of(after, self.root) == tree_of(self.node_pool@, self.root),
            !tree_of(self.node_pool@, self.root).handles().contains(node),
    {
        reveal(RangeTree::linked);
        let a = self.node_pool@;
        assert forall|i: int| 0 <= i < self.order@.len() implies after.dom().contains(
            #[trigger] self.order@[i],
        ) && after[self.order@[i]].next == a[self.order@[i]].next && after[self.order@[i]].prev
            == a[self.order@[i]].prev by {
            assert(self.order@.contains(self.order@[i]));
        }
        lemma_chain_kept(a, after, self.list, self.order@);
        lemma_tree_kept(a, after, self.root);
    }

    /// A change to the list leaves the tree as it was.
    proof fn lemma_after_list(a: Map<usize, Node<TOrd>>, b: Map<usize, Node<TOrd>>, root: usize)
        requires
            is_tree(a, root),
            list_only(a, b),
        ensures
            is_tree(b, root),
            tree_of(b, root) == tree_of(a, root),
    {
        crate::rb::lemma_is_tree(a, root);
        assert forall|h: usize| #[trigger]
            tree_of(a, root).handles().contains(h) implies b.dom().contains(h) && same_in_tree(
            a[h],
            b[h],
        ) by {
            assert(a.dom().contains(h));
            assert(b.dom().contains(h));
            assert(b[h].left == a[h].left);
        }
        lemma_tree_kept(a, b, root);
    }

    /// A change to the tree leaves the list as it was.
    proof fn lemma_after_tree(
        a: Map<usize, Node<TOrd>>,
        b: Map<usize, Node<TOrd>>,
        touched: Set<usize>,
        list: List,
        order: Seq<usize>,
    )
        requires
            chain(a, list, order),
            links_only(a, b, touched),
        ensures
            chain(b, list, order),
    {
        assert forall|i: int| 0 <= i < order.len() implies b.dom().contains(#[trigger] order[i])
            && b[order[i]].next == a[order[i]].next && b[order[i]].prev == a[order[i]].prev by {
            assert(a.dom().contains(order[i]));
            assert(b.dom().contains(order[i]));
            assert(b[order[i]].next == a[order[i]].next);
        }
        lemma_chain_kept(a, b, list, order);
    }

    /// A node has come into the pool, the list and the tree: the three hold
    /// the same nodes again, and the ranges are those of before with the new
    /// node's range at its place.
    proof fn lemma_node_added(
        &self,
        before: &Self,
        m1: Map<usize, Node<TOrd>>,
        m2: Map<usize, Node<TOrd>>,
        node: usize,
        data: Node<TOrd>,
        place: int,
    )
        requires
            before.linked(),
            0 <= place <= before.order@.len(),
            node != NIL,
            !before.node_pool@.dom().contains(node),
            m1 == before.node_pool@.insert(node, data),
            list_only(m1, m2),
            chain(m2, self.list, before.order@.insert(place, node)),
            self.node_pool.wf(),
            is_tree(self.node_pool@, self.root),
            tree_of(self.node_pool@, self.root).valid(),
            tree_of(self.node_pool@, self.root).handles() == tree_of(
                before.node_pool@,
                before.root,
            ).handles().insert(node),
            links_only(
                m2,
                self.node_pool@,
                tree_of(before.node_pool@, before.root).handles().insert(node),
            ),
            self.order@ == before.order@.insert(place, node),
            self.range == before.range,
            self.node_pool.slot_count() + before.node_pool.free_list().len()
                == before.node_pool.slot_count() + self.node_pool.free_list().len() + 1,
        ensures
            self.linked(),
            self.domain() == before.domain(),
            self@ == before@.insert(place, (data.lo(), data.hi())),
    {
        reveal(RangeTree::linked);
        let a = before.node_pool@;
        let b = self.node_pool@;
        let order = before.order@;
        let grown = self.order@;
        lemma_insert_contains(order, place, node);
        Self::lemma_after_tree(
            m2,
            b,
            tree_of(a, before.root).handles().insert(node),
            self.list,
            grown,
        );
        assert forall|h: usize| #[trigger] b.dom().contains(h) <==> grown.contains(h) by {
            assert(m2.dom().contains(h) <==> b.dom().contains(h));
            assert(m1.dom().contains(h) <==> m2.dom().contains(h));
            assert(a.dom().contains(h) <==> order.contains(h));
        }
        assert forall|h: usize| #[trigger]
            tree_of(b, self.root).handles().contains(h) <==> grown.contains(h) by {
            assert(tree_of(a, before.root).handles().contains(h) <==> order.contains(h));
        }
        assert forall|h: usize| m1.dom().contains(h) implies b[h].range == m1[h].range by {
            assert(m2.dom().contains(h));
            assert(m2[h].range == m1[h].range);
            assert(b[h].range == m2[h].range);
        }
        assert(self@ =~= before@.insert(place, (data.lo(), data.hi()))) by {
            assert forall|i: int| 0 <= i < grown.len() implies self@[i] == before@.insert(
                place,
                (data.lo(), data.hi()),
            )[i] by {
                if i < place {
                    assert(grown[i] == order[i]);
                    assert(order.contains(order[i]));
                } else if i > place {
                    assert(grown[i] == order[i - 1]);
                    assert(order.contains(order[i - 1]));
                }
            }
        }
    }

    fn node_add_front(&mut self, range: [TOrd; 2])
        requires
            old(self).linked(),
            old(self).order@.len() + 1 < NIL,
            !tree_of(old(self).node_pool@, old(self).root).keys().contains(range[0].val()),
        ensures
            final(self).linked(),
            final(self).domain() == old(self).domain(),
            final(self)@ == old(self)@.insert(0, (range[0].val(), range[1].val())),
    {
        proof {
            reveal(RangeTree::linked);
        }
        let data = RangeTree::new_node(range);
        let node = self.node_alloc(data);
        let ghost m1 = self.node_pool@;
        proof {
            old(self).lemma_after_alloc(m1, node, data);
        }
        self.list.push_front(&mut self.node_pool, node, Ghost(self.order@));
        let ghost m2 = self.node_pool@;
        proof {
            Self::lemma_after_list(m1, m2, self.root);
        }
        self.tree_insert(node);
        self.order = Ghost(self.order@.insert(0, node));
        proof {
            self.lemma_node_added(old(self), m1, m2, node, data, 0);
        }
    }

    fn node_add_back(&mut self, range: [TOrd; 2])
        requires
            old(self).linked(),
            old(self).order@.len() + 1 < NIL,
            !tree_of(old(self).node_pool@, old(self).root).keys().contains(range[0].val()),
        ensures
            final(self).linked(),
            final(self).domain() == old(self).domain(),
            final(self)@ == old(self)@.insert(
                old(self)@.len() as int,
                (range[0].val(), range[1].val()),
            ),
    {
        proof {
            reveal(RangeTree::linked);
        }
        let data = RangeTree::new_node(range);
        let node = self.node_alloc(data);
        let ghost m1 = self.node_pool@;
        let ghost place = self.order@.len() as int;
        proof {
            old(self).lemma_after_alloc(m1, node, data);
        }
        self.list.push_back(&mut self.node_pool, node, Ghost(self.order@));
        let ghost m2 = self.node_pool@;
        proof {
            Self::lemma_after_list(m1, m2, self.root);
        }
        self.tree_insert(node);
        self.order = Ghost(self.order@.insert(place, node));
        proof {
            self.lemma_node_added(old(self), m1, m2, node, data, place);
        }
    }

    fn node_add_before(&mut self, node_next: usize, range: [TOrd; 2], Ghost(place): Ghost<int>)
        requires
            old(self).linked(),
            old(self).order@.len() + 1 < NIL,
            !tree_of(old(self).node_pool@, old(self).root).keys().contains(range[0].val()),
            0 <= place <= old(self).order@.len(),
            node_next == (if place == old(self).order@.len() {
                NIL
            } else {
                old(self).order@[place]
            }),
        ensures
            final(self).linked(),
            final(self).domain() == old(self).domain(),
            final(self)@ == old(self)@.insert(place, (range[0].val(), range[1].val())),
    {
        proof {
            reveal(RangeTree::linked);
        }
        let data = RangeTree::new_node(range);
        let node = self.node_alloc(data);
        let ghost m1 = self.node_pool@;
        proof {
            old(self).lemma_after_alloc(m1, node, data);
        }
        self.list.push_before(
            &mut self.node_pool,
            node_next,
            node,
            Ghost(self.order@),
            Ghost(place),
        );
        let ghost m2 = self.node_pool@;
        proof {
            Self::lemma_after_list(m1, m2, self.root);
        }
        self.tree_insert(node);
        self.order = Ghost(self.order@.insert(place, node));
        proof {
            self.lemma_node_added(old(self), m1, m2, node, data, place);
        }
    }

    fn node_add_after(&mut self, node_prev: usize, range: [TOrd; 2], Ghost(place): Ghost<int>)
        requires
            old(self).linked(),
            old(self).order@.len() + 1 < NIL,
            !tree_of(old(self).node_pool@, old(self).root).keys().contains(range[0].val()),
            0 <= place <= old(self).order@.len(),
            node_prev == (if place == 0 {
                NIL
            } else {
                old(self).order@[place - 1]
            }),
        ensures
            final(self).linked(),
            final(self).domain() == old(self).domain(),
            final(self)@ == old(self)@.insert(place, (range[0].val(), range[1].val())),
    {
        proof {
            reveal(RangeTree::linked);
        }
        let data = RangeTree::new_node(range);
        let node = self.node_alloc(data);
        let ghost m1 = self.node_pool@;
        proof {
            old(self).lemma_after_alloc(m1, node, data);
        }
        self.list.push_after(
            &mut self.node_pool,
            node_prev,
            node,
            Ghost(self.order@),
            Ghost(place),
        );
        let ghost m2 = self.node_pool@;
        proof {
            Self::lemma_after_list(m1, m2, self.root);
        }
        self.tree_insert(node);
        self.order = Ghost(self.order@.insert(place, node));
        proof {
            self.lemma_node_added(old(self), m1, m2, node, data, place);
        }
    }

    fn node_remove(&mut self, node: usize, Ghost(place): Ghost<int>)
        requires
            old(self).linked(),
            0 <= place < old(self).order@.len(),
            old(self).order@[place] == node,
        ensures
            final(self).linked(),
            final(self).domain() == old(self).domain(),
            final(self)@ == old(self)@.remove(place),
    {
        proof {
            reveal(RangeTree::linked);
        }
        let ghost a = self.node_pool@;
        let ghost order = self.order@;
        let ghost t = tree_of(a, self.root);
        proof {
            assert(order.contains(order[place]));
            lemma_remove_contains(order, place);
        }
        self.tree_remove(node);
        let ghost m1 = self.node_pool@;
        proof {
            Self::lemma_after_tree(a, m1, t.handles(), self.list, order);
        }
        self.list.remove(&mut self.node_pool, node, Ghost(order), Ghost(place));
        let ghost m2 = self.node_pool@;
        let ghost rest = order.remove(place);
        proof {
            Self::lemma_after_list(m1, m2, self.root);
        }
        self.node_free(node);
        self.order = Ghost(rest);
        proof {
            let b = self.node_pool@;
            assert forall|i: int| 0 <= i < rest.len() implies b.dom().contains(#[trigger] rest[i])
                && b[rest[i]].next == m2[rest[i]].next && b[rest[i]].prev
                == m2[rest[i]].prev by {
                assert(rest.contains(rest[i]));
            }
            lemma_chain_kept(m2, b, self.list, rest);
            assert forall|h: usize| #[trigger]
                tree_of(m2, self.root).handles().contains(h) implies b.dom().contains(h)
                && same_in_tree(m2[h], b[h]) by {
                assert(t.handles().contains(h));
                assert(order.contains(h));
                assert(a.dom().contains(h));
                assert(m1.dom().contains(h));
                assert(m2.dom().contains(h));
            }
            lemma_tree_kept(m2, b, self.root);
            assert forall|h: usize| #[trigger] b.dom().contains(h) <==> rest.contains(h) by {
                assert(m2.dom().contains(h) <==> m1.dom().contains(h));
                assert(m1.dom().contains(h) <==> a.dom().contains(h));
                assert(a.dom().contains(h) <==> order.contains(h));
            }
            assert forall|h: usize| #[trigger]
                tree_of(b, self.root).handles().contains(h) <==> rest.contains(h) by {
                assert(t.handles().contains(h) <==> order.contains(h));
            }
            assert(self@ =~= old(self)@.remove(place)) by {
                assert forall|i: int| 0 <= i < rest.len() implies self@[i] == old(self)@.remove(
                    place,
                )[i] by {
                    let j = if i < place {
                        i
                    } else {
                        i + 1
                    };
                    assert(rest[i] == order[j]);
                    assert(rest.contains(rest[i]));
                    assert(order.contains(order[j]));
                    assert(a.dom().contains(order[j]));
                    assert(m1.dom().contains(order[j]));
                    assert(m1[order[j]].range == a[order[j]].range);
                    assert(m2[order[j]].range == m1[order[j]].range);
                }
            }
        }
    }

    fn new_empty(range: [TOrd; 2]) -> (r: RangeTree<TOrd>)
        ensures
            r.linked(),
            r.domain() == (range[0].val(), range[1].val()),
            r@ == Seq::<(int, int)>::empty(),
            r.order@.len() == 0,
            tree_of(r.node_pool@, r.root) is Leaf,
    {
        proof {
            reveal(RangeTree::linked);
        }
        let r = RangeTree {
            range: range,
            list: List { first: NIL, last: NIL },
            node_pool: MemPool::new(1024),
            root: NIL,
            order: Ghost(Seq::empty()),
        };
        proof {
            crate::rb::lemma_tree_of(r.node_pool@, r.root, Tree::Leaf);
            assert(r@ =~= Seq::<(int, int)>::empty());
        }
        r
    }

    /// Create a new range tree.
    ///
    /// * `range` the [minimum, maximum] values (inclusive), for this range tree.
    /// * `full` When true, the tree is created with all values *taken*.
    pub fn new(range: [TOrd; 2], full: bool) -> (r: RangeTree<TOrd>)
        requires
            range[0].val() <= range[1].val(),
            (range[1].val() - range[0].val()) / 2 + 1 < NIL,
        ensures
            r.wf(),
            r.domain() == (range[0].val(), range[1].val()),
            r@ == (if full {
                Seq::<(int, int)>::empty()
            } else {
                seq![(range[0].val(), range[1].val())]
            }),
    {
        let mut r = RangeTree::new_empty(range);
        if !full {
            r.node_add_front(range);
            proof {
                assert(r@ =~= seq![(range[0].val(), range[1].val())]);
            }
        }
        r
    }

    /// Clear an existing range tree.
    ///
    /// * `full` When true, the tree is reset with all values *taken*.
    pub fn clear(&mut self, full: bool)
        requires
            old(self).wf(),
        ensures
            final(self).wf(),
            final(self).domain() == old(self).domain(),
            final(self)@ == (if full {
                Seq::<(int, int)>::empty()
            } else {
                seq![old(self).domain()]
            }),
    {
        proof {
            reveal(RangeTree::linked);
        }
        self.list.clear();
        self.tree_clear();
        self.node_pool.clear();
        self.order = Ghost(Seq::empty());
        proof {
            crate::rb::lemma_tree_of(self.node_pool@, self.root, Tree::Leaf);
            assert(self@ =~= Seq::<(int, int)>::empty());
        }
        let range = [self.range[0], self.range[1]];
        if !full {
            self.node_add_front(range);
            proof {
                assert(self@ =~= seq![old(self).domain()]);
            }
        }
    }

    /// The keys of the tree are the lower bounds of the free ranges.
    proof fn lemma_keys(&self)
        requires
            self.linked(),
        ensures
            self.node_pool.wf(),
            self@.len() == self.order@.len(),
            forall|i: int|
                0 <= i < self@.len() ==> tree_of(self.node_pool@, self.root).keys().contains(
                    (#[trigger] self@[i]).0,
                ),
            forall|k: int| #[trigger]
                tree_of(self.node_pool@, self.root).keys().contains(k) ==> exists|i: int|
                    0 <= i < self@.len() && (#[trigger] self@[i]).0 == k,
            forall|i: int|
                0 <= i < self.order@.len() ==> self.node_pool@.dom().contains(
                    #[trigger] self.order@[i],
                ) && self.order@[i] != NIL && self@[i] == (
                    self.node_pool@[self.order@[i]].lo(),
                    self.node_pool@[self.order@[i]].hi(),
                ),
            self.list.first == (if self.order@.len() == 0 {
                NIL
            } else {
                self.order@[0]
            }),
            self.list.last == (if self.order@.len() == 0 {
                NIL
            } else {
                self.order@[self.order@.len() - 1]
            }),
    {
        reveal(RangeTree::linked);
        let a = self.node_pool@;
        let t = tree_of(a, self.root);
        crate::rb::lemma_is_tree(a, self.root);
        assert forall|i: int| 0 <= i < self@.len() implies t.keys().contains(
            (#[trigger] self@[i]).0,
        ) by {
            assert(self.order@.contains(self.order@[i]));
            assert(t.handles().contains(self.order@[i]));
        }
        assert forall|k: int| #[trigger] t.keys().contains(k) implies exists|i: int|
            0 <= i < self@.len() && (#[trigger] self@[i]).0 == k by {
            crate::rb::lemma_key_node(
                a,
                self.root,
                t,
                crate::rb::key_floor::<TOrd>(),
                crate::rb::key_ceil::<TOrd>(),
                k,
            );
            let h = choose|h: usize| #[trigger] t.handles().contains(h) && a[h].lo() == k;
            assert(self.order@.contains(h));
            let i = choose|i: int| 0 <= i < self.order@.len() && self.order@[i] == h;
            assert(self@[i].0 == k);
        }
    }

    /// Where no other range starts between the old start and the new start of
    /// the range at `place`, the tree has no other key between the two.
    proof fn lemma_key_free(&self, place: int, key: int)
        requires
            self.linked(),
            0 <= place < self.order@.len(),
            forall|j: int|
                0 <= j < self@.len() && j != place ==> ((#[trigger] self@[j]).0 < self@[place].0
                    <==> self@[j].0 < key) && self@[j].0 != key,
        ensures
            tree_of(self.node_pool@, self.root).keys().contains(self@[place].0),
            tree_of(self.node_pool@, self.root).handles().contains(self.order@[place]),
            self.node_pool@[self.order@[place]].lo() == self@[place].0,
            forall|k: int| #[trigger]
                tree_of(self.node_pool@, self.root).keys().contains(k) && k != self@[place].0 ==> (
                k < self@[place].0 <==> k < key) && k != key,
    {
        self.lemma_keys();
        let t = tree_of(self.node_pool@, self.root);
        assert(self.order@.contains(self.order@[place]));
        assert(t.handles().contains(self.order@[place])) by {
            reveal(RangeTree::linked);
        }
        assert forall|k: int| #[trigger] t.keys().contains(k) && k != self@[place].0 implies (k
            < self@[place].0 <==> k < key) && k != key by {
            let j = choose|j: int| 0 <= j < self@.len() && (#[trigger] self@[j]).0 == k;
            assert(j != place);
        }
    }

    /// A node of the tree has another key, and no other key lies between the
    /// old one and the new one: the nodes still form a valid tree, of the
    /// same nodes.
    proof fn lemma_key_set(
        a: Map<usize, Node<TOrd>>,
        b: Map<usize, Node<TOrd>>,
        root: usize,
        node: usize,
        data: Node<TOrd>,
    )
        requires
            is_tree(a, root),
            tree_of(a, root).handles().contains(node),
            b == a.insert(node, data),
            data.left == a[node].left,
            data.right == a[node].right,
            data.color == a[node].color,
            forall|k: int| #[trigger]
                tree_of(a, root).keys().contains(k) && k != a[node].lo() ==> (k < a[node].lo()
                    <==> k < data.lo()) && k != data.lo(),
        ensures
            is_tree(b, root),
            tree_of(b, root).valid() == tree_of(a, root).valid(),
            tree_of(b, root).handles() == tree_of(a, root).handles(),
    {
        let t = tree_of(a, root);
        let lo = crate::rb::key_floor::<TOrd>();
        let hi = crate::rb::key_ceil::<TOrd>();
        crate::rb::lemma_is_tree(a, root);
        TOrd::lemma_val_bounds(data.range[0]);
        crate::llrb::lemma_rekey(t, a[node].lo(), data.lo(), lo, hi);
        crate::rb::lemma_shape_rekey(a, b, root, t, node, lo, hi);
        crate::rb::lemma_tree_of(b, root, t.rekey(a[node].lo(), data.lo()));
    }

    /// The node at `place` has another range, and its lower bound, which is
    /// its key in the tree, stays on the same side of every other key: the
    /// pool, the list and the tree still hold the same nodes.
    proof fn lemma_range_set(&self, before: &Self, node: usize, place: int, data: Node<TOrd>)
        requires
            before.linked(),
            0 <= place < before.order@.len(),
            before.order@[place] == node,
            forall|j: int|
                0 <= j < before@.len() && j != place ==> ((#[trigger] before@[j]).0
                    < before@[place].0 <==> before@[j].0 < data.lo()) && before@[j].0 != data.lo(),
            self.node_pool.wf(),
            self.node_pool@ == before.node_pool@.insert(node, data),
            data.next == before.node_pool@[node].next,
            data.prev == before.node_pool@[node].prev,
            data.left == before.node_pool@[node].left,
            data.right == before.node_pool@[node].right,
            data.color == before.node_pool@[node].color,
            self.node_pool.slot_count() == before.node_pool.slot_count(),
            self.node_pool.free_list() == before.node_pool.free_list(),
            self.list == before.list,
            self.root == before.root,
            self.order == before.order,
            self.range == before.range,
        ensures
            self.linked(),
            self.domain() == before.domain(),
            self@ == before@.update(place, (data.lo(), data.hi())),
    {
        let a = before.node_pool@;
        let b = self.node_pool@;
        let order = self.order@;
        before.lemma_key_free(place, data.lo());
        assert(is_tree(a, self.root)) by {
            reveal(RangeTree::linked);
        }
        Self::lemma_key_set(a, b, self.root, node, data);
        assert(chain(b, self.list, order)) by {
            reveal(RangeTree::linked);
            assert forall|i: int| 0 <= i < order.len() implies b.dom().contains(
                #[trigger] order[i],
            ) && b[order[i]].next == a[order[i]].next && b[order[i]].prev
                == a[order[i]].prev by {
                assert(order.contains(order[i]));
            }
            lemma_chain_kept(a, b, self.list, order);
        }
        assert(self@ =~= before@.update(place, (data.lo(), data.hi()))) by {
            reveal(RangeTree::linked);
            assert forall|i: int| 0 <= i < order.len() implies self@[i] == before@.update(
                place,
                (data.lo(), data.hi()),
            )[i] by {
                if i != place {
                    assert(order[i] != order[place]);
                }
            }
        }
        assert(self.linked()) by {
            reveal(RangeTree::linked);
            assert(order.contains(order[place]));
            assert forall|h: usize| #[trigger] b.dom().contains(h) <==> order.contains(h) by {
                assert(a.dom().contains(h) <==> order.contains(h));
            }
        }
    }

    /// Give the node at `place` another range.  Its lower bound, which is its
    /// key in the tree, stays on the same side of every other key.
    fn set_range(&mut self, node: usize, range: [TOrd; 2], Ghost(place): Ghost<int>)
        requires
            old(self).linked(),
            0 <= place < old(self).order@.len(),
            old(self).order@[place] == node,
            forall|j: int|
                0 <= j < old(self)@.len() && j != place ==> ((#[trigger] old(self)@[j]).0 < old(
                    self,
                )@[place].0 <==> old(self)@[j].0 < range[0].val()) && old(self)@[j].0
                    != range[0].val(),
        ensures
            final(self).linked(),
            final(self).domain() == old(self).domain(),
            final(self)@ == old(self)@.update(place, (range[0].val(), range[1].val())),
            final(self).order@ == old(self).order@,
    {
        proof {
            self.lemma_keys();
        }
        let mut n = *self.node_pool.get(node);
        n.range = range;
        self.node_pool.set(node, n);
        proof {
            self.lemma_range_set(old(self), node, place, n);
        }
    }

    /// The node whose range holds `value`, with its place in the list; `NIL`
    /// if the value is not free.
    fn find_node_from_value(&self, value: &TOrd) -> (r: (usize, Ghost<int>))
        requires
            self.wf(),
        ensures
            r.0 == NIL <==> !self.is_free(value.val()),
            r.0 != NIL ==> 0 <= r.1@ < self.order@.len() && self.order@[r.1@] == r.0
                && self@[r.1@].0 <= value.val() <= self@[r.1@].1,
    {
        if USE_BTREE {
            self.find_node_from_value_indexed(value)
        } else {
            self.find_node_from_value_scan(value)
        }
    }

    /// `find_node_from_value` by a walk through the list.
    fn find_node_from_value_scan(&self, value: &TOrd) -> (r: (usize, Ghost<int>))
        requires
            self.wf(),
        ensures
            r.0 == NIL <==> !self.is_free(value.val()),
            r.0 != NIL ==> 0 <= r.1@ < self.order@.len() && self.order@[r.1@] == r.0
                && self@[r.1@].0 <= value.val() <= self@[r.1@].1,
    {
        let ghost v = value.val();
        proof {
            self.lemma_keys();
        }
        let mut node = self.list.first;
        let ghost i = 0int;
        while node != NIL
            invariant
                self.wf(),
                v == value.val(),
                0 <= i <= self.order@.len(),
                node == (if i == self.order@.len() {
                    NIL
                } else {
                    self.order@[i]
                }),
                forall|j: int| 0 <= j < i ==> !((#[trigger] self@[j]).0 <= v <= self@[j].1),
            decreases self.order@.len() - i,
        {
            proof {
                self.lemma_keys();
                self.lemma_neighbors(i);
            }
            let n = self.node_pool.get(node);
            if !value.less(&n.range[0]) && !n.range[1].less(value) {
                proof {
                    assert(self@[i].0 <= v <= self@[i].1);
                }
                return (node, Ghost(i));
            }
            node = n.next;
            proof {
                i = i + 1;
            }
        }
        proof {
            self.lemma_keys();
        }
        (NIL, Ghost(0))
    }

    /// `find_node_from_value` by a search in the tree.
    fn find_node_from_value_indexed(&self, value: &TOrd) -> (r: (usize, Ghost<int>))
        requires
            self.wf(),
        ensures
            r.0 == NIL <==> !self.is_free(value.val()),
            r.0 != NIL ==> 0 <= r.1@ < self.order@.len() && self.order@[r.1@] == r.0
                && self@[r.1@].0 <= value.val() <= self@[r.1@].1,
    {
        proof {
            reveal(RangeTree::linked);
        }
        proof {
            self.lemma_keys();
            crate::rb::lemma_is_tree(self.node_pool@, self.root);
        }
        let ghost v = value.val();
        let ghost t = tree_of(self.node_pool@, self.root);
        let node = crate::rb::get_or_lower(&self.node_pool, self.root, value);
        if node != NIL {
            let n = self.node_pool.get(node);
            let ghost i = choose|i: int| 0 <= i < self.order@.len() && self.order@[i] == node;
            proof {
                assert(t.handles().contains(node));
                assert(self.order@.contains(node));
            }
            if !value.less(&n.range[0]) && !n.range[1].less(value) {
                proof {
                    assert(self@[i].0 <= v <= self@[i].1);
                }
                return (node, Ghost(i));
            }
            proof {
                if covers(self@, v) {
                    let j = choose|j: int|
                        0 <= j < self@.len() && (#[trigger] self@[j]).0 <= v <= self@[j].1;
                    assert(t.keys().contains(self@[j].0));
                    assert(self@[j].0 <= self@[i].0);
                    if j < i {
                        assert(self@[j].1 + 1 < self@[i].0);
                    } else if j > i {
                        assert(self@[i].1 + 1 < self@[j].0);
                    }
                }
            }
        } else {
            proof {
                if covers(self@, v) {
                    let j = choose|j: int|
                        0 <= j < self@.len() && (#[trigger] self@[j]).0 <= v <= self@[j].1;
                    assert(t.keys().contains(self@[j].0));
                }
            }
        }
        (NIL, Ghost(0))
    }

    /// No other range starts between the start of the range at `place` and a
    /// value within that range, one above its end at most.
    proof fn lemma_key_fits(ranges: Seq<(int, int)>, lo: int, hi: int, place: int, key: int)
        requires
            spaced(ranges, lo, hi),
            0 <= place < ranges.len(),
            ranges[place].0 <= key <= ranges[place].1 + 1,
        ensures
            forall|j: int|
                0 <= j < ranges.len() && j != place ==> ((#[trigger] ranges[j]).0
                    < ranges[place].0 <==> ranges[j].0 < key) && ranges[j].0 != key,
    {
        assert forall|j: int| 0 <= j < ranges.len() && j != place implies ((
        #[trigger] ranges[j]).0 < ranges[place].0 <==> ranges[j].0 < key) && ranges[j].0
            != key by {
            if j < place {
                assert(ranges[j].1 + 1 < ranges[place].0);
            } else {
                assert(ranges[place].1 + 1 < ranges[j].0);
            }
        }
    }

    /// Take the least value of a range that holds more than one value.
    fn take_low(&mut self, value: TOrd, node: usize, Ghost(place): Ghost<int>)
        requires
            old(self).wf(),
            0 <= place < old(self).order@.len(),
            old(self).order@[place] == node,
            old(self)@[place].0 == value.val(),
            value.val() < old(self)@[place].1,
        ensures
            final(self).wf(),
            final(self).domain() == old(self).domain(),
            forall|x: int| final(self).is_free(x) <==> old(self).is_free(x) && x != value.val(),
    {
        let ghost before = self@;
        let ghost lo = self.domain().0;
        let ghost hi = self.domain().1;
        let ghost v = value.val();
        proof {
            self.lemma_keys();
            TOrd::lemma_zero_one();
        }
        let n = *self.node_pool.get(node);
        proof {
            TOrd::lemma_val_bounds(n.range[1]);
            TOrd::lemma_val_bounds(n.range[0]);
            crate::ranges::lemma_range_changed(before, lo, hi, place, (v + 1, before[place].1));
            Self::lemma_key_fits(before, lo, hi, place, v + 1);
        }
        let range = [n.range[0].plus(TOrd::one()), n.range[1]];
        self.set_range(node, range, Ghost(place));
    }

    /// Take the greatest value of a range that holds more than one value.
    fn take_high(&mut self, value: TOrd, node: usize, Ghost(place): Ghost<int>)
        requires
            old(self).wf(),
            0 <= place < old(self).order@.len(),
            old(self).order@[place] == node,
            old(self)@[place].1 == value.val(),
            old(self)@[place].0 < value.val(),
        ensures
            final(self).wf(),
            final(self).domain() == old(self).domain(),
            forall|x: int| final(self).is_free(x) <==> old(self).is_free(x) && x != value.val(),
    {
        let ghost before = self@;
        let ghost lo = self.domain().0;
        let ghost hi = self.domain().1;
        let ghost v = value.val();
        proof {
            self.lemma_keys();
            TOrd::lemma_zero_one();
        }
        let n = *self.node_pool.get(node);
        proof {
            TOrd::lemma_val_bounds(n.range[1]);
            TOrd::lemma_val_bounds(n.range[0]);
            crate::ranges::lemma_range_changed(before, lo, hi, place, (before[place].0, v - 1));
            Self::lemma_key_fits(before, lo, hi, place, before[place].0);
        }
        let range = [n.range[0], n.range[1].minus(TOrd::one())];
        self.set_range(node, range, Ghost(place));
    }

    /// Take a value from within a range: the range ends below the value, and
    /// a new range behind it starts above the value.
    fn take_within(&mut self, value: TOrd, node: usize, Ghost(place): Ghost<int>)
        requires
            old(self).wf(),
            0 <= place < old(self).order@.len(),
            old(self).order@[place] == node,
            old(self)@[place].0 < value.val() < old(self)@[place].1,
        ensures
            final(self).wf(),
            final(self).domain() == old(self).domain(),
            forall|x: int| final(self).is_free(x) <==> old(self).is_free(x) && x != value.val(),
    {
        let ghost before = self@;
        let ghost lo = self.domain().0;
        let ghost hi = self.domain().1;
        let ghost v = value.val();
        let ghost low = (before[place].0, v - 1);
        let ghost high = (v + 1, before[place].1);
        proof {
            self.lemma_keys();
            TOrd::lemma_zero_one();
        }
        let one = TOrd::one();
        let n = *self.node_pool.get(node);
        proof {
            TOrd::lemma_val_bounds(n.range[1]);
            TOrd::lemma_val_bounds(n.range[0]);
            crate::ranges::lemma_range_changed(before, lo, hi, place, low);
            crate::ranges::lemma_range_added(before.update(place, low), lo, hi, place + 1, high);
            crate::ranges::lemma_spaced_len(
                before.update(place, low).insert(place + 1, high),
                lo,
                hi,
            );
            Self::lemma_key_fits(before, lo, hi, place, before[place].0);
        }
        let range_next: [TOrd; 2] = [value.plus(one), n.range[1]];
        let range = [n.range[0], value.minus(one)];
        self.set_range(node, range, Ghost(place));
        proof {
            self.lemma_keys();
            let t = tree_of(self.node_pool@, self.root);
            if t.keys().contains(v + 1) {
                let j = choose|j: int| 0 <= j < self@.len() && (#[trigger] self@[j]).0 == v + 1;
                Self::lemma_key_fits(before, lo, hi, place, v + 1);
                assert(self@[j].0 == before.update(place, low)[j].0);
            }
        }
        self.node_add_after(node, range_next, Ghost(place + 1));
    }

    fn take_impl(&mut self, value: TOrd, node: usize, Ghost(place): Ghost<int>)
        requires
            old(self).wf(),
            0 <= place < old(self).order@.len(),
            old(self).order@[place] == node,
            old(self)@[place].0 <= value.val() <= old(self)@[place].1,
        ensures
            final(self).wf(),
            final(self).domain() == old(self).domain(),
            forall|x: int| final(self).is_free(x) <==> old(self).is_free(x) && x != value.val(),
    {
        proof {
            self.lemma_keys();
        }
        let n = *self.node_pool.get(node);
        if n.range[0].same(&value) {
            if !n.range[1].same(&value) {
                self.take_low(value, node, Ghost(place));
            } else {
                proof {
                    crate::ranges::lemma_range_removed(
                        self@,
                        self.domain().0,
                        self.domain().1,
                        place,
                    );
                }
                self.node_remove(node, Ghost(place));
            }
        } else if n.range[1].same(&value) {
            self.take_high(value, node, Ghost(place));
        } else {
            self.take_within(value, node, Ghost(place));
        }
    }

    /// Take a value from the tree.
    ///
    /// The value must be free; use `retake` where that is not known.
    pub fn take(&mut self, value: TOrd)
        requires
            old(self).wf(),
            old(self).is_free(value.val()),
        ensures
            final(self).wf(),
            final(self).domain() == old(self).domain(),
            forall|x: int| final(self).is_free(x) <==> old(self).is_free(x) && x != value.val(),
    {
        let (node, Ghost(place)) = self.find_node_from_value(&value);
        self.take_impl(value, node, Ghost(place));
    }

    /// Take a value which may already be taken,
    /// returning true if the value was free before.
    pub fn retake(&mut self, value: TOrd) -> (r: bool)
        requires
            old(self).wf(),
        ensures
            final(self).wf(),
            final(self).domain() == old(self).domain(),
            r == old(self).is_free(value.val()),
            forall|x: int| final(self).is_free(x) <==> old(self).is_free(x) && x != value.val(),
            !r ==> final(self)@ == old(self)@,
    {
        let (node, Ghost(place)) = self.find_node_from_value(&value);
        if node != NIL {
            self.take_impl(value, node, Ghost(place));
            true
        } else {
            false
        }
    }

    /// Take any value from the range tree: the least value that is free.
    pub fn take_any(&mut self) -> (r: Option<TOrd>)
        requires
            old(self).wf(),
        ensures
            final(self).wf(),
            final(self).domain() == old(self).domain(),
            r is None <==> old(self)@.len() == 0,
            r is None ==> final(self)@ == old(self)@,
            r matches Some(value) ==> {
                &&& value.val() == old(self)@[0].0
                &&& old(self).is_free(value.val())
                &&& forall|x: int| old(self).is_free(x) ==> value.val() <= x
                &&& forall|x: int|
                    final(self).is_free(x) <==> old(self).is_free(x) && x != value.val()
            },
    {
        proof {
            self.lemma_keys();
        }
        if self.list.first != NIL {
            let node = self.list.first;
            let n = *self.node_pool.get(node);
            let value = n.range[0];
            let ghost before = self@;
            let ghost lo = self.domain().0;
            let ghost hi = self.domain().1;
            proof {
                crate::ranges::lemma_covered_at(before, lo, hi, 0, value.val());
                assert forall|x: int| covers(before, x) implies value.val() <= x by {
                    let j = choose|j: int|
                        0 <= j < before.len() && (#[trigger] before[j]).0 <= x <= before[j].1;
                    if j > 0 {
                        assert(before[0].1 + 1 < before[j].0);
                    }
                }
            }
            if value.same(&n.range[1]) {
                proof {
                    crate::ranges::lemma_range_removed(before, lo, hi, 0);
                }
                self.node_remove(node, Ghost(0));
            } else {
                self.take_low(value, node, Ghost(0));
            }
            Some(value)
        } else {
            None
        }
    }

    /// Check if the tree has this value (not taken).  A value outside the
    /// domain counts as free.
    pub fn has(&self, value: TOrd) -> (r: bool)
        requires
            self.wf(),
        ensures
            r == (value.val() < self.domain().0 || value.val() > self.domain().1 || self.is_free(
                value.val(),
            )),
    {
        if value.less(&self.range[0]) || self.range[1].less(&value) {
            return true;
        }
        let (node, _) = self.find_node_from_value(&value);
        node != NIL
    }

    /// Check if no values in the tree are taken.
    pub fn is_empty(&self) -> (r: bool)
        requires
            self.wf(),
        ensures
            r == (self@ == seq![self.domain()]),
    {
        proof {
            self.lemma_keys();
        }
        if self.list.first == NIL {
            return false;
        }
        let n = self.node_pool.get(self.list.first);
        let r = (self.list.first == self.list.last) && self.range[0].same(&n.range[0])
            && self.range[1].same(&n.range[1]);
        proof {
            if r {
                assert(self.order@.len() == 1) by {
                    if self.order@.len() > 1 {
                        assert(self.order@[0] != self.order@[self.order@.len() - 1]);
                    }
                }
                assert(self@ =~= seq![self.domain()]);
            } else if self@ == seq![self.domain()] {
                assert(self@.len() == 1);
                assert(self@[0] == self.domain());
            }
        }
        r
    }

    /// Check if all values in the tree are taken.
    pub fn is_full(&self) -> (r: bool)
        requires
            self.wf(),
        ensures
            r == (self@.len() == 0),
    {
        proof {
            self.lemma_keys();
        }
        self.list.first == NIL
    }

    /// The neighbors in the list: each node's `prev` and `next` are the nodes
    /// before and behind it.
    proof fn lemma_neighbors(&self, i: int)
        requires
            self.linked(),
            0 <= i < self.order@.len(),
        ensures
            self.node_pool@[self.order@[i]].prev == (if i == 0 {
                NIL
            } else {
                self.order@[i - 1]
            }),
            self.node_pool@[self.order@[i]].next == (if i + 1 == self.order@.len() {
                NIL
            } else {
                self.order@[i + 1]
            }),
            tree_of(self.node_pool@, self.root).handles().contains(self.order@[i]),
            forall|h: usize| #[trigger]
                tree_of(self.node_pool@, self.root).handles().contains(h)
                    ==> self.order@.contains(h),
    {
        reveal(RangeTree::linked);
        assert(self.order@.contains(self.order@[i]));
    }

    /// The two nodes between which the taken value `value` lies, `NIL` where
    /// it lies before the first or behind the last, with the place of the
    /// second of them.
    fn find_node_pair_around_value(&self, value: &TOrd) -> (r: (usize, usize, Ghost<int>))
        requires
            self.wf(),
            self.order@.len() > 0,
            !self.is_free(value.val()),
        ensures
            0 <= r.2@ <= self.order@.len(),
            r.0 == (if r.2@ == 0 {
                NIL
            } else {
                self.order@[r.2@ - 1]
            }),
            r.1 == (if r.2@ == self.order@.len() {
                NIL
            } else {
                self.order@[r.2@]
            }),
            r.2@ > 0 ==> self@[r.2@ - 1].1 < value.val(),
            r.2@ < self.order@.len() ==> value.val() < self@[r.2@].0,
    {
        let ghost len = self.order@.len() as int;
        proof {
            self.lemma_keys();
        }
        let first = self.node_pool.get(self.list.first);
        if value.less(&first.range[0]) {
            return (NIL, self.list.first, Ghost(0));
        }
        let last = self.node_pool.get(self.list.last);
        if last.range[1].less(value) {
            return (self.list.last, NIL, Ghost(len));
        }
        if USE_BTREE {
            self.find_node_pair_indexed(value)
        } else {
            self.find_node_pair_scan(value)
        }
    }

    /// `find_node_pair_around_value` by a walk through the list, for a value
    /// between the start of the first range and the end of the last.
    fn find_node_pair_scan(&self, value: &TOrd) -> (r: (usize, usize, Ghost<int>))
        requires
            self.wf(),
            self.order@.len() > 0,
            !self.is_free(value.val()),
            self@[0].0 <= value.val() <= self@[self@.len() - 1].1,
        ensures
            0 < r.2@ < self.order@.len(),
            r.0 == self.order@[r.2@ - 1],
            r.1 == self.order@[r.2@],
            self@[r.2@ - 1].1 < value.val(),
            value.val() < self@[r.2@].0,
    {
        let ghost v = value.val();
        let ghost len = self.order@.len() as int;
        proof {
            self.lemma_keys();
            self.lemma_neighbors(0);
            assert(self@[0].0 <= self@[0].1);
            assert(!covers(self@, v));
            if self@[0].1 >= v {
                assert(self@[0].0 <= v <= self@[0].1);
            }
        }
        let mut node_prev = self.list.first;
        let mut node_next = self.node_pool.get(node_prev).next;
        let ghost i = 0int;
        while node_next != NIL
            invariant
                self.wf(),
                v == value.val(),
                len == self.order@.len(),
                !covers(self@, v),
                0 <= i < len,
                node_prev == self.order@[i],
                node_next == (if i + 1 == len {
                    NIL
                } else {
                    self.order@[i + 1]
                }),
                self@[i].1 < v,
            decreases len - i,
        {
            proof {
                self.lemma_keys();
                self.lemma_neighbors(i + 1);
            }
            let p = self.node_pool.get(node_prev);
            let n = self.node_pool.get(node_next);
            if p.range[1].less(value) && value.less(&n.range[0]) {
                return (node_prev, node_next, Ghost(i + 1));
            }
            proof {
                assert(self@[i + 1].0 <= self@[i + 1].1);
                if self@[i + 1].1 >= v {
                    assert(self@[i + 1].0 <= v <= self@[i + 1].1);
                }
            }
            node_prev = node_next;
            node_next = n.next;
            proof {
                i = i + 1;
            }
        }
        proof {
            self.lemma_keys();
            assert(false);
        }
        (NIL, NIL, Ghost(0))
    }

    /// `find_node_pair_around_value` by a search in the tree, for a value
    /// between the start of the first range and the end of the last.
    fn find_node_pair_indexed(&self, value: &TOrd) -> (r: (usize, usize, Ghost<int>))
        requires
            self.wf(),
            self.order@.len() > 0,
            !self.is_free(value.val()),
            self@[0].0 <= value.val() <= self@[self@.len() - 1].1,
        ensures
            0 < r.2@ < self.order@.len(),
            r.0 == self.order@[r.2@ - 1],
            r.1 == self.order@[r.2@],
            self@[r.2@ - 1].1 < value.val(),
            value.val() < self@[r.2@].0,
    {
        let ghost v = value.val();
        let ghost len = self.order@.len() as int;
        proof {
            self.lemma_keys();
            assert(self@[0].0 <= self@[0].1);
            assert(!covers(self@, v));
        }
        let ghost t = tree_of(self.node_pool@, self.root);
        proof {
            assert(is_tree(self.node_pool@, self.root)) by {
                reveal(RangeTree::linked);
            }
        }
        let node_next = crate::rb::get_or_upper(&self.node_pool, self.root, value);
        if node_next != NIL {
            let ghost i = choose|i: int| 0 <= i < self.order@.len() && self.order@[i] == node_next;
            proof {
                self.lemma_neighbors(0);
                assert(self.order@.contains(node_next));
                self.lemma_neighbors(i);
                if i == 0 {
                    assert(self@[0].0 <= v <= self@[0].1);
                }
                assert(t.keys().contains(self@[i - 1].0));
                assert(self@[i - 1].1 + 1 < self@[i].0);
                assert(self@[i - 1].0 <= self@[i - 1].1);
                if self@[i - 1].1 >= v {
                    assert(self@[i - 1].0 <= v <= self@[i - 1].1);
                }
                if self@[i].0 == v {
                    assert(self@[i].0 <= v <= self@[i].1);
                }
            }
            let nn = self.node_pool.get(node_next);
            let node_prev = nn.prev;
            let np = self.node_pool.get(node_prev);
            if np.range[1].less(value) && value.less(&nn.range[0]) {
                return (node_prev, node_next, Ghost(i));
            }
        }
        proof {
            assert(t.keys().contains(self@[len - 1].0));
            assert(self@[len - 1].0 <= v <= self@[len - 1].1);
            assert(false);
        }
        (NIL, NIL, Ghost(0))
    }

    /// No other range starts between the start of the range at `place` and a
    /// value between that range and the one before it.
    proof fn lemma_key_fits_below(ranges: Seq<(int, int)>, lo: int, hi: int, place: int, key: int)
        requires
            spaced(ranges, lo, hi),
            0 <= place < ranges.len(),
            key <= ranges[place].0,
            place > 0 ==> ranges[place - 1].1 < key,
        ensures
            forall|j: int|
                0 <= j < ranges.len() && j != place ==> ((#[trigger] ranges[j]).0
                    < ranges[place].0 <==> ranges[j].0 < key) && ranges[j].0 != key,
    {
        assert forall|j: int| 0 <= j < ranges.len() && j != place implies ((
        #[trigger] ranges[j]).0 < ranges[place].0 <==> ranges[j].0 < key) && ranges[j].0
            != key by {
            if j < place {
                assert(ranges[j].1 + 1 < ranges[place].0);
                if j < place - 1 {
                    assert(ranges[j].1 + 1 < ranges[place - 1].0);
                }
                assert(ranges[j].0 <= ranges[j].1);
                assert(ranges[place - 1].0 <= ranges[place - 1].1);
            } else {
                assert(ranges[place].1 + 1 < ranges[j].0);
            }
        }
    }

    /// Release the one value between the range before `place` and the range
    /// at `place`: the two become one range.
    fn release_between(
        &mut self,
        value: TOrd,
        node_prev: usize,
        node_next: usize,
        Ghost(place): Ghost<int>,
    )
        requires
            old(self).wf(),
            0 < place < old(self).order@.len(),
            old(self).order@[place - 1] == node_prev,
            old(self).order@[place] == node_next,
            old(self)@[place - 1].1 + 1 == value.val(),
            old(self)@[place].0 - 1 == value.val(),
        ensures
            final(self).wf(),
            final(self).domain() == old(self).domain(),
            forall|x: int| final(self).is_free(x) <==> old(self).is_free(x) || x == value.val(),
    {
        let ghost before = self@;
        let ghost lo = self.domain().0;
        let ghost hi = self.domain().1;
        let ghost v = value.val();
        let ghost joined = (before[place - 1].0, before[place].1);
        proof {
            self.lemma_keys();
            assert(before[place - 1].0 <= before[place - 1].1);
            assert(before[place].0 <= before[place].1);
            Self::lemma_key_fits(before, lo, hi, place - 1, before[place - 1].0);
            crate::ranges::lemma_range_removed(before, lo, hi, place);
            let rest = before.remove(place);
            assert(rest[place - 1] == before[place - 1]);
            if place - 1 > 0 {
                assert(rest[place - 2] == before[place - 2]);
                assert(before[place - 2].1 + 1 < before[place - 1].0);
            }
            if place < rest.len() {
                assert(rest[place] == before[place + 1]);
                assert(before[place].1 + 1 < before[place + 1].0);
            }
            crate::ranges::lemma_range_changed(rest, lo, hi, place - 1, joined);
            assert(before.update(place - 1, joined).remove(place) =~= rest.update(
                place - 1,
                joined,
            ));
            assert(covers(before, before[place - 1].0));
            assert(covers(before, before[place].0));
        }
        let p = *self.node_pool.get(node_prev);
        let n = *self.node_pool.get(node_next);
        self.set_range(node_prev, [p.range[0], n.range[1]], Ghost(place - 1));
        self.node_remove(node_next, Ghost(place));
        proof {
            let after = self@;
            assert forall|x: int| covers(after, x) <==> covers(before, x) || x == v by {
                if before[place - 1].0 <= x <= before[place - 1].1 {
                    assert(covers(before, x));
                }
                if before[place].0 <= x <= before[place].1 {
                    assert(covers(before, x));
                }
            }
        }
    }

    /// Release the value just above the range before `place`, which the
    /// range at `place` does not touch: the range before `place` grows.
    fn release_above(&mut self, value: TOrd, node_prev: usize, Ghost(place): Ghost<int>)
        requires
            old(self).wf(),
            0 < place <= old(self).order@.len(),
            old(self).order@[place - 1] == node_prev,
            old(self)@[place - 1].1 + 1 == value.val(),
            value.val() <= old(self).domain().1,
            place < old(self).order@.len() ==> value.val() + 1 < old(self)@[place].0,
        ensures
            final(self).wf(),
            final(self).domain() == old(self).domain(),
            forall|x: int| final(self).is_free(x) <==> old(self).is_free(x) || x == value.val(),
    {
        let ghost before = self@;
        let ghost lo = self.domain().0;
        let ghost hi = self.domain().1;
        let ghost v = value.val();
        proof {
            self.lemma_keys();
            assert(before[place - 1].0 <= before[place - 1].1);
            Self::lemma_key_fits(before, lo, hi, place - 1, before[place - 1].0);
            if place - 1 > 0 {
                assert(before[place - 2].1 + 1 < before[place - 1].0);
            }
            crate::ranges::lemma_range_changed(before, lo, hi, place - 1, (before[place - 1].0, v));
        }
        let p = *self.node_pool.get(node_prev);
        self.set_range(node_prev, [p.range[0], value], Ghost(place - 1));
        proof {
            let after = self@;
            let grown = before.update(place - 1, (before[place - 1].0, v));
            assert(after == grown);
            assert forall|x: int| covers(after, x) <==> covers(before, x) || x == v by {
                assert(covers(grown, x) <==> (covers(before, x) && !(before[place - 1].0 <= x
                    <= before[place - 1].1)) || before[place - 1].0 <= x <= v);
                if before[place - 1].0 <= x <= before[place - 1].1 {
                    assert(covers(before, x));
                }
            }
        }
    }

    /// Release the value just below the range at `place`, which the range
    /// before `place` does not touch: the range at `place` grows.
    fn release_below(&mut self, value: TOrd, node_next: usize, Ghost(place): Ghost<int>)
        requires
            old(self).wf(),
            0 <= place < old(self).order@.len(),
            old(self).order@[place] == node_next,
            old(self)@[place].0 - 1 == value.val(),
            old(self).domain().0 <= value.val(),
            place > 0 ==> old(self)@[place - 1].1 + 1 < value.val(),
        ensures
            final(self).wf(),
            final(self).domain() == old(self).domain(),
            forall|x: int| final(self).is_free(x) <==> old(self).is_free(x) || x == value.val(),
    {
        let ghost before = self@;
        let ghost lo = self.domain().0;
        let ghost hi = self.domain().1;
        let ghost v = value.val();
        proof {
            self.lemma_keys();
            assert(before[place].0 <= before[place].1);
            Self::lemma_key_fits_below(before, lo, hi, place, v);
            if place + 1 < before.len() {
                assert(before[place].1 + 1 < before[place + 1].0);
            }
            crate::ranges::lemma_range_changed(before, lo, hi, place, (v, before[place].1));
        }
        let n = *self.node_pool.get(node_next);
        self.set_range(node_next, [value, n.range[1]], Ghost(place));
        proof {
            let after = self@;
            let grown = before.update(place, (v, before[place].1));
            assert(after == grown);
            assert forall|x: int| covers(after, x) <==> covers(before, x) || x == v by {
                assert(covers(grown, x) <==> (covers(before, x) && !(before[place].0 <= x
                    <= before[place].1)) || v <= x <= before[place].1);
                if before[place].0 <= x <= before[place].1 {
                    assert(covers(before, x));
                }
            }
        }
    }

    /// Release a value that no free range touches: it becomes a range of its
    /// own, at `place`.
    fn release_alone(
        &mut self,
        value: TOrd,
        node_prev: usize,
        node_next: usize,
        Ghost(place): Ghost<int>,
    )
        requires
            old(self).wf(),
            0 <= place <= old(self).order@.len(),
            node_prev == (if place == 0 {
                NIL
            } else {
                old(self).order@[place - 1]
            }),
            node_next == (if place == old(self).order@.len() {
                NIL
            } else {
                old(self).order@[place]
            }),
            old(self).domain().0 <= value.val() <= old(self).domain().1,
            place > 0 ==> old(self)@[place - 1].1 + 1 < value.val(),
            place < old(self).order@.len() ==> value.val() + 1 < old(self)@[place].0,
        ensures
            final(self).wf(),
            final(self).domain() == old(self).domain(),
            forall|x: int| final(self).is_free(x) <==> old(self).is_free(x) || x == value.val(),
    {
        let ghost before = self@;
        let ghost lo = self.domain().0;
        let ghost hi = self.domain().1;
        let ghost v = value.val();
        proof {
            self.lemma_keys();
            crate::ranges::lemma_range_added(before, lo, hi, place, (v, v));
            crate::ranges::lemma_spaced_len(before.insert(place, (v, v)), lo, hi);
            let t = tree_of(self.node_pool@, self.root);
            if t.keys().contains(v) {
                let j = choose|j: int| 0 <= j < before.len() && (#[trigger] before[j]).0 == v;
                assert(before[j].0 <= before[j].1);
                if j < place {
                    if j < place - 1 {
                        assert(before[j].1 + 1 < before[place - 1].0);
                    }
                    assert(before[place - 1].0 <= before[place - 1].1);
                } else {
                    if j > place {
                        assert(before[place].1 + 1 < before[j].0);
                    }
                    assert(before[place].0 <= before[place].1);
                }
            }
        }
        let range_new = [value, value];
        if node_prev != NIL {
            self.node_add_after(node_prev, range_new, Ghost(place));
        } else if node_next != NIL {
            self.node_add_before(node_next, range_new, Ghost(place));
        } else {
            self.node_add_back(range_new);
        }
    }

    /// Release a value that has been taken.
    pub fn release(&mut self, value: TOrd)
        requires
            old(self).wf(),
            old(self).domain().0 <= value.val() <= old(self).domain().1,
            !old(self).is_free(value.val()),
        ensures
            final(self).wf(),
            final(self).domain() == old(self).domain(),
            forall|x: int| final(self).is_free(x) <==> old(self).is_free(x) || x == value.val(),
    {
        let ghost v = value.val();
        proof {
            self.lemma_keys();
            self.lemma_wf();
            TOrd::lemma_zero_one();
        }
        let one = TOrd::one();
        let mut touch_prev = false;
        let mut touch_next = false;
        let mut node_prev = NIL;
        let mut node_next = NIL;
        let ghost place = 0int;
        if self.list.first != NIL {
            let (prev, next, Ghost(at)) = self.find_node_pair_around_value(&value);
            proof {
                place = at;
            }
            node_prev = prev;
            node_next = next;
            /* Cases:
             * 1) fill the gap between prev & next (two spans into one span).
             * 2) touching prev, (grow prev.max up one).
             * 3) touching next, (grow next.min down one).
             * 4) touching neither, add a new segment. */
            if node_prev != NIL {
                let p = self.node_pool.get(node_prev);
                proof {
                    TOrd::lemma_val_bounds(value);
                    TOrd::lemma_val_bounds(p.range[1]);
                }
                touch_prev = p.range[1].plus(one).same(&value);
            }
            if node_next != NIL {
                let n = self.node_pool.get(node_next);
                proof {
                    TOrd::lemma_val_bounds(value);
                    TOrd::lemma_val_bounds(n.range[0]);
                }
                touch_next = n.range[0].minus(one).same(&value);
            }
        }
        if touch_prev && touch_next {
            // case 1:
            self.release_between(value, node_prev, node_next, Ghost(place));
        } else if touch_prev {
            // case 2:
            self.release_above(value, node_prev, Ghost(place));
        } else if touch_next {
            // case 3:
            self.release_below(value, node_next, Ghost(place));
        } else {
            // case 4:
            self.release_alone(value, node_prev, node_next, Ghost(place));
        }
    }

    /// Return a vector containing [minimum, maximum] pairs (inclusive)
    /// of contiguous ranges which have not been taken.
    pub fn ranges_untaken_as_vec(&self) -> (ret: Vec<[TOrd; 2]>)
        requires
            self.wf(),
        ensures
            pairs_of(ret@) == self@,
    {
        let mut ret: Vec<[TOrd; 2]> = Vec::new();
        proof {
            self.lemma_keys();
        }
        if self.is_empty() {
            ret.push(self.range);
            proof {
                assert(pairs_of(ret@) =~= self@);
            }
        } else if self.list.first == NIL {
            // pass
            proof {
                assert(pairs_of(ret@) =~= self@);
            }
        } else {
            let mut node = self.list.first;
            let ghost i = 0int;
            while node != NIL
                invariant
                    self.wf(),
                    0 <= i <= self.order@.len(),
                    node == (if i == self.order@.len() {
                        NIL
                    } else {
                        self.order@[i]
                    }),
                    ret@.len() == i,
                    pairs_of(ret@) == self@.subrange(0, i),
                decreases self.order@.len() - i,
            {
                proof {
                    self.lemma_keys();
                    self.lemma_neighbors(i);
                }
                let n = self.node_pool.get(node);
                let ghost so_far = ret@;
                let pair = [n.range[0], n.range[1]];
                ret.push(pair);
                node = n.next;
                proof {
                    i = i + 1;
                    assert forall|k: int| 0 <= k < i implies pairs_of(ret@)[k] == self@.subrange(
                        0,
                        i,
                    )[k] by {
                        if k < i - 1 {
                            assert(ret@[k] == so_far[k]);
                            assert(pairs_of(so_far)[k] == self@.subrange(0, i - 1)[k]);
                        } else {
                            assert(ret@[k] == pair);
                        }
                    }
                    assert(pairs_of(ret@) =~= self@.subrange(0, i));
                }
            }
            proof {
                assert(self@.subrange(0, i) =~= self@);
            }
        }
        ret
    }

    /// Return a vector containing [minimum, maximum] pairs (inclusive)
    /// of contiguous ranges which have been taken.
    pub fn ranges_taken_as_vec(&self) -> (ret: Vec<[TOrd; 2]>)
        requires
            self.wf(),
        ensures
            pairs_of(ret@) == self.taken(),
    {
        let mut ret: Vec<[TOrd; 2]> = Vec::new();
        let ghost lo = self.domain().0;
        let ghost hi = self.domain().1;
        let ghost len = self.order@.len() as int;
        proof {
            self.lemma_keys();
            self.lemma_wf();
            TOrd::lemma_zero_one();
        }
        let one = TOrd::one();
        if self.is_empty() {
            // pass
            proof {
                assert(pairs_of(ret@) =~= gaps(self@, lo, hi));
            }
        } else if self.list.first == NIL {
            ret.push(self.range);
            proof {
                assert(pairs_of(ret@) =~= gaps(self@, lo, hi));
            }
        } else {
            let first = self.node_pool.get(self.list.first);
            proof {
                TOrd::lemma_val_bounds(first.range[0]);
            }
            if !first.range[0].same(&self.range[0]) {
                ret.push([self.range[0], first.range[0].minus(one)]);
            }
            let ghost head = if self@[0].0 != lo {
                seq![(lo, self@[0].0 - 1)]
            } else {
                Seq::<(int, int)>::empty()
            };
            let ghost middle = Seq::new(
                (len - 1) as nat,
                |i: int| (self@[i].1 + 1, self@[i + 1].0 - 1),
            );
            proof {
                assert(pairs_of(ret@) =~= head + middle.subrange(0, 0));
                self.lemma_neighbors(0);
            }
            let mut node_prev = self.list.first;
            let mut node_next = first.next;
            let ghost i = 0int;
            while node_next != NIL
                invariant
                    self.wf(),
                    len == self.order@.len(),
                    one.val() == 1,
                    0 <= i < len,
                    node_prev == self.order@[i],
                    node_next == (if i + 1 == len {
                        NIL
                    } else {
                        self.order@[i + 1]
                    }),
                    middle == Seq::new(
                        (len - 1) as nat,
                        |i: int| (self@[i].1 + 1, self@[i + 1].0 - 1),
                    ),
                    ret@.len() == head.len() + i,
                    pairs_of(ret@) == head + middle.subrange(0, i),
                decreases len - i,
            {
                proof {
                    self.lemma_keys();
                    self.lemma_neighbors(i + 1);
                    assert(self@[i].1 + 1 < self@[i + 1].0);
                }
                let p = self.node_pool.get(node_prev);
                let n = self.node_pool.get(node_next);
                proof {
                    TOrd::lemma_val_bounds(p.range[1]);
                    TOrd::lemma_val_bounds(n.range[0]);
                }
                let ghost so_far = ret@;
                let pair = [p.range[1].plus(one), n.range[0].minus(one)];
                ret.push(pair);
                node_prev = node_next;
                node_next = n.next;
                proof {
                    i = i + 1;
                    let want = head + middle.subrange(0, i);
                    let had = head + middle.subrange(0, i - 1);
                    assert forall|k: int| 0 <= k < want.len() implies pairs_of(ret@)[k]
                        == want[k] by {
                        if k < want.len() - 1 {
                            assert(ret@[k] == so_far[k]);
                            assert(pairs_of(so_far)[k] == had[k]);
                            if k >= head.len() {
                                assert(had[k] == middle[k - head.len()]);
                            }
                        } else {
                            assert(ret@[k] == pair);
                            assert(want[k] == middle[i - 1]);
                        }
                    }
                    assert(pairs_of(ret@) =~= want);
                }
            }
            let last = self.node_pool.get(self.list.last);
            proof {
                TOrd::lemma_val_bounds(last.range[1]);
                assert(middle.subrange(0, i) =~= middle);
            }
            if !last.range[1].same(&self.range[1]) {
                ret.push([last.range[1].plus(one), self.range[1]]);
            }
            proof {
                assert(pairs_of(ret@) =~= gaps(self@, lo, hi));
            }
        }
        ret
    }

    /// The tree that indexes the free ranges.
    pub closed spec fn index(&self) -> Tree {
        tree_of(self.node_pool@, self.root)
    }

    /// The index is a valid left-leaning red-black tree at all times: a
    /// search tree with a black root, without a red right child and without
    /// two red nodes in a row, in which every path from the root to a leaf
    /// holds the same number of black nodes.  Its keys are the lower bounds
    /// of the free ranges.
    pub proof fn lemma_index(&self)
        requires
            self.wf(),
        ensures
            self.index().ordered(TOrd::min_val() - 1, TOrd::max_val() + 1),
            self.index().valid(),
            self.index().balanced(),
            self.index().size() == self@.len(),
            forall|k: int| #[trigger]
                self.index().keys().contains(k) <==> exists|i: int|
                    0 <= i < self@.len() && (#[trigger] self@[i]).0 == k,
    {
        reveal(RangeTree::linked);
        self.lemma_keys();
        let a = self.node_pool@;
        crate::rb::lemma_is_tree(a, self.root);
        crate::llrb::lemma_rbt_balanced(self.index());
        crate::rb::lemma_tree_size(a, self.root, self.index(), self.order@);
    }

    /// The free ranges and the taken ranges part the domain: every value of
    /// the domain is in a range of exactly one of the two, no range reaches
    /// out of the domain, and no two ranges of one kind overlap or touch.
    pub proof fn lemma_partition(&self)
        requires
            self.wf(),
        ensures
            spaced(self@, self.domain().0, self.domain().1),
            spaced(self.taken(), self.domain().0, self.domain().1),
            forall|x: int|
                self.domain().0 <= x <= self.domain().1 ==> (#[trigger] covers(self@, x)
                    != covers(self.taken(), x)),
            forall|x: int|
                #![trigger covers(self@, x)]
                #![trigger covers(self.taken(), x)]
                covers(self@, x) || covers(self.taken(), x) ==> self.domain().0 <= x
                    <= self.domain().1,
    {
        let lo = self.domain().0;
        let hi = self.domain().1;
        crate::ranges::lemma_gaps(self@, lo, hi);
        assert forall|x: int|
            #![trigger covers(self@, x)]
            #![trigger covers(self.taken(), x)]
            covers(self@, x) || covers(self.taken(), x) implies lo <= x <= hi by {
            if covers(self@, x) {
                let i = choose|i: int|
                    0 <= i < self@.len() && (#[trigger] self@[i]).0 <= x <= self@[i].1;
            }
        }
    }

    /// Nothing is taken exactly where one free range spans the domain, and
    /// nothing is free exactly where one taken range spans it.
    pub proof fn lemma_empty_full(&self)
        requires
            self.wf(),
        ensures
            self.taken().len() == 0 <==> self@ == seq![self.domain()],
            self@.len() == 0 <==> self.taken() == seq![self.domain()],
    {
        let lo = self.domain().0;
        let hi = self.domain().1;
        crate::ranges::lemma_no_gap(self@, lo, hi);
        crate::ranges::lemma_gaps(self@, lo, hi);
        if self.taken() == seq![self.domain()] {
            assert(self.taken()[0] == self.domain());
            if self@.len() > 0 {
                assert(covers(self@, self@[0].0));
                assert(lo <= self@[0].0 <= hi);
                assert(covers(self.taken(), self@[0].0));
            }
        }
    }

    /// A value that is taken and then released leaves the range tree as it
    /// was: the same free ranges, and so the same taken ranges.
    pub proof fn lemma_take_release(before: &Self, taken: &Self, released: &Self, v: int)
        requires
            before.wf(),
            released.wf(),
            released.domain() == before.domain(),
            before.is_free(v),
            forall|x: int| taken.is_free(x) <==> before.is_free(x) && x != v,
            forall|x: int| released.is_free(x) <==> taken.is_free(x) || x == v,
        ensures
            released@ == before@,
            released.taken() == before.taken(),
    {
        assert forall|x: int| covers(taken@, x) <==> covers(before@, x) && x != v by {
            assert(taken.is_free(x) <==> before.is_free(x) && x != v);
        }
        assert forall|x: int| covers(released@, x) <==> covers(taken@, x) || x == v by {
            assert(released.is_free(x) <==> taken.is_free(x) || x == v);
        }
        crate::ranges::lemma_take_release(
            before@,
            taken@,
            released@,
            before.domain().0,
            before.domain().1,
            v,
        );
    }
}

} // verus!
