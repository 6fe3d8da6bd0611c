//! The list of free ranges: a doubly linked list threaded through the nodes'
//! `next` and `prev` links.
//!
//! The list never searches: the caller names the neighbor.  `order` is the
//! sequence of handles that the list holds, head first.

use crate::mempool_elem::{MemPool, NIL};
use crate::rb::same_slots;
use crate::types::{List, Node, RType};
use vstd::prelude::*;

verus! {

/// The list holds the nodes of `order`, in that order: `first` and `last` are
/// its ends, and each node's `prev` and `next` are its neighbors, `NIL` at the
/// ends.
pub open spec fn chain<TOrd: RType>(
    nodes: Map<usize, Node<TOrd>>,
    list: List,
    order: Seq<usize>,
) -> bool {
    &&& order.no_duplicates()
    &&& list.first == (if order.len() == 0 {
        NIL
    } else {
        order[0]
    })
    &&& list.last == (if order.len() == 0 {
        NIL
    } else {
        order[order.len() - 1]
    })
    &&& forall|i: int|
        0 <= i < order.len() ==> (#[trigger] order[i]) != NIL && nodes.dom().contains(order[i])
    &&& forall|i: int|
        0 <= i < order.len() ==> (#[trigger] nodes[order[i]]).prev == (if i == 0 {
            NIL
        } else {
            order[i - 1]
        }) && nodes[order[i]].next == (if i + 1 == order.len() {
            NIL
        } else {
            order[i + 1]
        })
}

/// From `a` to `b` only links of the list changed: the same handles are
/// live, and every node keeps its range and its place in the tree.
pub open spec fn list_only<TOrd: RType>(
    a: Map<usize, Node<TOrd>>,
    b: Map<usize, Node<TOrd>>,
) -> bool {
    &&& forall|h: usize| a.dom().contains(h) <==> #[trigger] b.dom().contains(h)
    &&& forall|h: usize|
        a.dom().contains(h) ==> {
            &&& (#[trigger] b[h]).left == a[h].left
            &&& b[h].right == a[h].right
            &&& b[h].color == a[h].color
            &&& b[h].range == a[h].range
        }
}

/// A node whose links make it the neighbor of `prev` and `next` has come
/// into the list at place `i`.
proof fn lemma_chain_insert<TOrd: RType>(
    a: Map<usize, Node<TOrd>>,
    b: Map<usize, Node<TOrd>>,
    before: List,
    after: List,
    order: Seq<usize>,
    i: int,
    node: usize,
)
    requires
        chain(a, before, order),
        0 <= i <= order.len(),
        node != NIL,
        !order.contains(node),
        a.dom().contains(node),
        list_only(a, b),
        b[node].prev == (if i == 0 {
            NIL
        } else {
            order[i - 1]
        }),
        b[node].next == (if i == order.len() {
            NIL
        } else {
            order[i]
        }),
        forall|j: int|
            0 <= j < order.len() ==> (#[trigger] b[order[j]]).prev == (if j == i {
                node
            } else {
                a[order[j]].prev
            }) && b[order[j]].next == (if j == i - 1 {
                node
            } else {
                a[order[j]].next
            }),
        after.first == (if i == 0 {
            node
        } else {
            before.first
        }),
        after.last == (if i == order.len() {
            node
        } else {
            before.last
        }),
    ensures
        chain(b, after, order.insert(i, node)),
{
    let grown = order.insert(i, node);
    assert forall|j: int, k: int|
        0 <= j < grown.len() && 0 <= k < grown.len() && j != k implies grown[j] != grown[k] by {
        let jj = if j < i {
            j
        } else {
            j - 1
        };
        let kk = if k < i {
            k
        } else {
            k - 1
        };
        if j != i && k != i {
            assert(order[jj] != order[kk]);
        } else if j == i {
            assert(order.contains(order[kk]));
        } else {
            assert(order.contains(order[jj]));
        }
    }
    assert forall|j: int| 0 <= j < grown.len() implies (#[trigger] grown[j]) != NIL
        && b.dom().contains(grown[j]) by {
        if j < i {
            assert(grown[j] == order[j]);
        } else if j > i {
            assert(grown[j] == order[j - 1]);
        }
    }
    assert forall|j: int| 0 <= j < grown.len() implies (#[trigger] b[grown[j]]).prev == (if j
        == 0 {
        NIL
    } else {
        grown[j - 1]
    }) && b[grown[j]].next == (if j + 1 == grown.len() {
        NIL
    } else {
        grown[j + 1]
    }) by {
        if j < i {
            assert(grown[j] == order[j]);
            assert(b[order[j]].prev == a[order[j]].prev);
            assert(a[order[j]].next == (if j + 1 == order.len() {
                NIL
            } else {
                order[j + 1]
            }));
        } else if j > i {
            assert(grown[j] == order[j - 1]);
            assert(b[order[j - 1]].next == a[order[j - 1]].next);
            assert(a[order[j - 1]].prev == (if j - 1 == 0 {
                NIL
            } else {
                order[j - 2]
            }));
        }
    }
}

/// The node at place `i`, whose neighbors were linked to one another, has
/// left the list.
proof fn lemma_chain_remove<TOrd: RType>(
    a: Map<usize, Node<TOrd>>,
    b: Map<usize, Node<TOrd>>,
    before: List,
    after: List,
    order: Seq<usize>,
    i: int,
)
    requires
        chain(a, before, order),
        0 <= i < order.len(),
        list_only(a, b),
        forall|j: int|
            0 <= j < order.len() && j != i ==> (#[trigger] b[order[j]]).prev == (if j == i + 1 {
                a[order[i]].prev
            } else {
                a[order[j]].prev
            }) && b[order[j]].next == (if j == i - 1 {
                a[order[i]].next
            } else {
                a[order[j]].next
            }),
        after.first == (if i == 0 {
            a[order[i]].next
        } else {
            before.first
        }),
        after.last == (if i == order.len() - 1 {
            a[order[i]].prev
        } else {
            before.last
        }),
    ensures
        chain(b, after, order.remove(i)),
{
    let rest = order.remove(i);
    assert(a[order[i]].prev == (if i == 0 {
        NIL
    } else {
        order[i - 1]
    }));
    assert forall|j: int, k: int|
        0 <= j < rest.len() && 0 <= k < rest.len() && j != k implies rest[j] != rest[k] by {
        let jj = if j < i {
            j
        } else {
            j + 1
        };
        let kk = if k < i {
            k
        } else {
            k + 1
        };
        assert(order[jj] != order[kk]);
    }
    assert forall|j: int| 0 <= j < rest.len() implies (#[trigger] rest[j]) != NIL
        && b.dom().contains(rest[j]) by {
        let jj = if j < i {
            j
        } else {
            j + 1
        };
        assert(rest[j] == order[jj]);
    }
    assert forall|j: int| 0 <= j < rest.len() implies (#[trigger] b[rest[j]]).prev == (if j == 0 {
        NIL
    } else {
        rest[j - 1]
    }) && b[rest[j]].next == (if j + 1 == rest.len() {
        NIL
    } else {
        rest[j + 1]
    }) by {
        let jj = if j < i {
            j
        } else {
            j + 1
        };
        assert(rest[j] == order[jj]);
        assert(b[order[jj]].prev == (if jj == i + 1 {
            a[order[i]].prev
        } else {
            a[order[jj]].prev
        }));
        assert(a[order[jj]].next == (if jj + 1 == order.len() {
            NIL
        } else {
            order[jj + 1]
        }));
    }
}

/// Give a node its neighbors in the list.
fn set_neighbors<TOrd: RType>(pool: &mut MemPool<Node<TOrd>>, node: usize, prev: usize, next: usize)
    requires
        old(pool).wf(),
        old(pool)@.dom().contains(node),
    ensures
        final(pool).wf(),
        same_slots(old(pool), final(pool)),
        final(pool)@ == old(pool)@.insert(
            node,
            (Node { prev: prev, next: next, ..old(pool)@[node] }),
        ),
        list_only(old(pool)@, final(pool)@),
{
    let mut n = *pool.get(node);
    n.prev = prev;
    n.next = next;
    pool.set(node, n);
}

/// Changes to the list's links follow one another.
proof fn lemma_list_only_trans<TOrd: RType>(
    a: Map<usize, Node<TOrd>>,
    b: Map<usize, Node<TOrd>>,
    c: Map<usize, Node<TOrd>>,
)
    requires
        list_only(a, b),
        list_only(b, c),
    ensures
        list_only(a, c),
{
    assert forall|h: usize| a.dom().contains(h) implies {
        &&& (#[trigger] c[h]).left == a[h].left
        &&& c[h].right == a[h].right
        &&& c[h].color == a[h].color
        &&& c[h].range == a[h].range
    } by {
        assert(b.dom().contains(h));
        assert(b[h].left == a[h].left);
    }
    assert forall|h: usize| a.dom().contains(h) <==> #[trigger] c.dom().contains(h) by {
        assert(b.dom().contains(h) <==> a.dom().contains(h));
    }
}

impl List {
    /// Put `node_new` into the list behind `node_prev`; at the head where
    /// `node_prev` is `NIL`.  `place` is the place that it takes.
    pub(crate) fn push_after<TOrd: RType>(
        &mut self,
        pool: &mut MemPool<Node<TOrd>>,
        node_prev: usize,
        node_new: usize,
        Ghost(order): Ghost<Seq<usize>>,
        Ghost(place): Ghost<int>,
    )
        requires
            old(pool).wf(),
            chain(old(pool)@, *old(self), order),
            0 <= place <= order.len(),
            node_prev == (if place == 0 {
                NIL
            } else {
                order[place - 1]
            }),
            node_new != NIL,
            old(pool)@.dom().contains(node_new),
            !order.contains(node_new),
            order.len() == 0 ==> old(pool)@[node_new].next == NIL && old(pool)@[node_new].prev
                == NIL,
        ensures
            final(pool).wf(),
            same_slots(old(pool), final(pool)),
            chain(final(pool)@, *final(self), order.insert(place, node_new)),
            list_only(old(pool)@, final(pool)@),
    {
        let ghost a = pool@;
        proof {
            lemma_list_only_trans(a, a, a);
        }
        // node_new after node_prev
        if self.first == NIL {
            // empty list
            self.first = node_new;
            self.last = node_new;
        } else if node_prev == NIL {
            // insert at head of list
            let first = self.first;
            let f = *pool.get(first);
            set_neighbors(pool, node_new, NIL, first);
            let ghost m = pool@;
            set_neighbors(pool, first, node_new, f.next);
            self.first = node_new;
            proof {
                assert(order[0] == first);
                assert(order.contains(order[0]));
                lemma_list_only_trans(a, m, pool@);
                assert forall|j: int| 0 <= j < order.len() && j != 0 implies pool@[order[j]]
                    == a[#[trigger] order[j]] by {
                    assert(order.contains(order[j]));
                }
            }
        } else {
            // at end of list
            if self.last == node_prev {
                self.last = node_new;
            }
            let p = *pool.get(node_prev);
            set_neighbors(pool, node_new, node_prev, p.next);
            let ghost m1 = pool@;
            set_neighbors(pool, node_prev, p.prev, node_new);
            let ghost m2 = pool@;
            let node_new_next = p.next;
            proof {
                assert(order.contains(order[place - 1]));
                assert(a[order[place - 1]].next == p.next);
                lemma_list_only_trans(a, m1, m2);
                if place < order.len() {
                    assert(order.contains(order[place]));
                }
            }
            if node_new_next != NIL {
                let x = *pool.get(node_new_next);
                set_neighbors(pool, node_new_next, node_new, x.next);
                proof {
                    lemma_list_only_trans(a, m2, pool@);
                }
            }
            proof {
                assert forall|j: int|
                    0 <= j < order.len() && j != place && j != place - 1 implies pool@[order[j]]
                    == a[#[trigger] order[j]] by {
                    assert(order.contains(order[j]));
                }
            }
        }
        proof {
            lemma_chain_insert(a, pool@, *old(self), *self, order, place, node_new);
        }
    }

    /// Put `node_new` into the list before `node_next`; at the tail where
    /// `node_next` is `NIL`.  `place` is the place that it takes.
    pub(crate) fn push_before<TOrd: RType>(
        &mut self,
        pool: &mut MemPool<Node<TOrd>>,
        node_next: usize,
        node_new: usize,
        Ghost(order): Ghost<Seq<usize>>,
        Ghost(place): Ghost<int>,
    )
        requires
            old(pool).wf(),
            chain(old(pool)@, *old(self), order),
            0 <= place <= order.len(),
            node_next == (if place == order.len() {
                NIL
            } else {
                order[place]
            }),
            node_new != NIL,
            old(pool)@.dom().contains(node_new),
            !order.contains(node_new),
            order.len() == 0 ==> old(pool)@[node_new].next == NIL && old(pool)@[node_new].prev
                == NIL,
        ensures
            final(pool).wf(),
            same_slots(old(pool), final(pool)),
            chain(final(pool)@, *final(self), order.insert(place, node_new)),
            list_only(old(pool)@, final(pool)@),
    {
        let ghost a = pool@;
        proof {
            lemma_list_only_trans(a, a, a);
        }
        // node_new before node_next
        if self.first == NIL {
            // empty list
            self.first = node_new;
            self.last = node_new;
        } else if node_next == NIL {
            // insert at end of list
            let last = self.last;
            let l = *pool.get(last);
            set_neighbors(pool, node_new, last, NIL);
            let ghost m = pool@;
            set_neighbors(pool, last, l.prev, node_new);
            self.last = node_new;
            proof {
                assert(order[order.len() - 1] == last);
                assert(order.contains(order[order.len() - 1]));
                lemma_list_only_trans(a, m, pool@);
                assert forall|j: int|
                    0 <= j < order.len() && j != order.len() - 1 implies pool@[order[j]]
                    == a[#[trigger] order[j]] by {
                    assert(order.contains(order[j]));
                }
            }
        } else {
            // at beginning of list
            if self.first == node_next {
                self.first = node_new;
            }
            let x = *pool.get(node_next);
            set_neighbors(pool, node_new, x.prev, node_next);
            let ghost m1 = pool@;
            set_neighbors(pool, node_next, node_new, x.next);
            let ghost m2 = pool@;
            let node_new_prev = x.prev;
            proof {
                assert(order.contains(order[place]));
                assert(a[order[place]].prev == x.prev);
                lemma_list_only_trans(a, m1, m2);
                if place > 0 {
                    assert(order.contains(order[place - 1]));
                }
            }
            if node_new_prev != NIL {
                let p = *pool.get(node_new_prev);
                set_neighbors(pool, node_new_prev, p.prev, node_new);
                proof {
                    lemma_list_only_trans(a, m2, pool@);
                }
            }
            proof {
                assert forall|j: int|
                    0 <= j < order.len() && j != place && j != place - 1 implies pool@[order[j]]
                    == a[#[trigger] order[j]] by {
                    assert(order.contains(order[j]));
                }
            }
        }
        proof {
            lemma_chain_insert(a, pool@, *old(self), *self, order, place, node_new);
        }
    }

    /// Put `node`, which has no neighbors yet, at the head of the list.
    pub(crate) fn push_front<TOrd: RType>(
        &mut self,
        pool: &mut MemPool<Node<TOrd>>,
        node: usize,
        Ghost(order): Ghost<Seq<usize>>,
    )
        requires
            old(pool).wf(),
            chain(old(pool)@, *old(self), order),
            node != NIL,
            old(pool)@.dom().contains(node),
            !order.contains(node),
            old(pool)@[node].next == NIL,
            old(pool)@[node].prev == NIL,
        ensures
            final(pool).wf(),
            same_slots(old(pool), final(pool)),
            chain(final(pool)@, *final(self), order.insert(0, node)),
            list_only(old(pool)@, final(pool)@),
    {
        let ghost a = pool@;
        proof {
            lemma_list_only_trans(a, a, a);
        }
        if self.first != NIL {
            let first = self.first;
            let f = *pool.get(first);
            set_neighbors(pool, node, NIL, first);
            let ghost m = pool@;
            set_neighbors(pool, first, node, f.next);
            proof {
                assert(order[0] == first);
                assert(order.contains(order[0]));
                lemma_list_only_trans(a, m, pool@);
                assert forall|j: int| 0 <= j < order.len() && j != 0 implies pool@[order[j]]
                    == a[#[trigger] order[j]] by {
                    assert(order.contains(order[j]));
                }
            }
        } else {
            self.last = node;
        }
        self.first = node;
        proof {
            lemma_chain_insert(a, pool@, *old(self), *self, order, 0, node);
        }
    }

    /// Put `node`, which has no neighbors yet, at the tail of the list.
    pub(crate) fn push_back<TOrd: RType>(
        &mut self,
        pool: &mut MemPool<Node<TOrd>>,
        node: usize,
        Ghost(order): Ghost<Seq<usize>>,
    )
        requires
            old(pool).wf(),
            chain(old(pool)@, *old(self), order),
            node != NIL,
            old(pool)@.dom().contains(node),
            !order.contains(node),
            old(pool)@[node].next == NIL,
            old(pool)@[node].prev == NIL,
        ensures
            final(pool).wf(),
            same_slots(old(pool), final(pool)),
            chain(final(pool)@, *final(self), order.insert(order.len() as int, node)),
            list_only(old(pool)@, final(pool)@),
    {
        let ghost a = pool@;
        proof {
            lemma_list_only_trans(a, a, a);
        }
        if self.first != NIL {
            let last = self.last;
            let l = *pool.get(last);
            set_neighbors(pool, node, last, NIL);
            let ghost m = pool@;
            set_neighbors(pool, last, l.prev, node);
            proof {
                assert(order[order.len() - 1] == last);
                assert(order.contains(order[order.len() - 1]));
                lemma_list_only_trans(a, m, pool@);
                assert forall|j: int|
                    0 <= j < order.len() && j != order.len() - 1 implies pool@[order[j]]
                    == a[#[trigger] order[j]] by {
                    assert(order.contains(order[j]));
                }
            }
        } else {
            self.first = node;
        }
        self.last = node;
        proof {
            lemma_chain_insert(a, pool@, *old(self), *self, order, order.len() as int, node);
        }
    }

    /// Take `node`, which stands at `place`, out of the list.  Its neighbors
    /// are linked to one another; the node itself keeps its links.
    pub(crate) fn remove<TOrd: RType>(
        &mut self,
        pool: &mut MemPool<Node<TOrd>>,
        node: usize,
        Ghost(order): Ghost<Seq<usize>>,
        Ghost(place): Ghost<int>,
    )
        requires
            old(pool).wf(),
            chain(old(pool)@, *old(self), order),
            0 <= place < order.len(),
            order[place] == node,
        ensures
            final(pool).wf(),
            same_slots(old(pool), final(pool)),
            chain(final(pool)@, *final(self), order.remove(place)),
            list_only(old(pool)@, final(pool)@),
            final(pool)@[node] == old(pool)@[node],
    {
        let ghost a = pool@;
        proof {
            lemma_list_only_trans(a, a, a);
            assert(order.contains(order[place]));
            if place > 0 {
                assert(order.contains(order[place - 1]));
            }
            if place + 1 < order.len() {
                assert(order.contains(order[place + 1]));
            }
        }
        let n = *pool.get(node);
        let node_next = n.next;
        if node_next != NIL {
            let x = *pool.get(node_next);
            set_neighbors(pool, node_next, n.prev, x.next);
        }
        let ghost m = pool@;
        let node_prev = n.prev;
        if node_prev != NIL {
            let p = *pool.get(node_prev);
            set_neighbors(pool, node_prev, p.prev, n.next);
            proof {
                lemma_list_only_trans(a, m, pool@);
            }
        }
        if self.last == node {
            self.last = n.prev;
        }
        if self.first == node {
            self.first = n.next;
        }
        proof {
            assert forall|j: int|
                0 <= j < order.len() && j != place + 1 && j != place - 1 implies pool@[order[j]]
                == a[#[trigger] order[j]] by {
                assert(order.contains(order[j]));
            }
            assert(self.last == (if place == order.len() - 1 {
                n.prev
            } else {
                old(self).last
            })) by {
                if place != order.len() - 1 {
                    assert(order[order.len() - 1] != order[place]);
                }
            }
            assert(self.first == (if place == 0 {
                n.next
            } else {
                old(self).first
            })) by {
                if place != 0 {
                    assert(order[0] != order[place]);
                }
            }
            lemma_chain_remove(a, pool@, *old(self), *self, order, place);
        }
    }

    /// Forget the nodes: the list is empty.  The nodes themselves stay as
    /// they are.
    pub(crate) fn clear(&mut self)
        ensures
            final(self).first == NIL,
            final(self).last == NIL,
    {
        self.first = NIL;
        self.last = NIL;
    }
}

} // verus!
