//! The left-leaning red-black tree as a mathematical object.
//!
//! `Tree` is the shape that the nodes of an arena form through their `left` and
//! `right` links, with each node's key and color.  The steps of insertion and
//! removal are spec functions on it, and the lemmas of this module show that
//! they keep the search order, the black height and the color rules.

use vstd::prelude::*;

verus! {

pub enum Tree {
    Leaf,
    Fork { left: Box<Tree>, at: usize, key: int, red: bool, right: Box<Tree> },
}

impl Tree {
    pub open spec fn fork(l: Tree, at: usize, key: int, red: bool, r: Tree) -> Tree {
        Tree::Fork { left: Box::new(l), at, key, red, right: Box::new(r) }
    }

    /// The left subtree; a leaf has none.
    pub open spec fn l(self) -> Tree {
        match self {
            Tree::Leaf => Tree::Leaf,
            Tree::Fork { left, .. } => *left,
        }
    }

    /// The right subtree; a leaf has none.
    pub open spec fn r(self) -> Tree {
        match self {
            Tree::Leaf => Tree::Leaf,
            Tree::Fork { right, .. } => *right,
        }
    }

    /// The handle of the root node.
    pub open spec fn h(self) -> usize {
        match self {
            Tree::Leaf => usize::MAX,
            Tree::Fork { at, .. } => at,
        }
    }

    /// The key of the root node.
    pub open spec fn k(self) -> int {
        match self {
            Tree::Leaf => 0,
            Tree::Fork { key, .. } => key,
        }
    }

    /// A leaf counts as black.
    pub open spec fn is_red(self) -> bool {
        match self {
            Tree::Leaf => false,
            Tree::Fork { red, .. } => red,
        }
    }

    /// The same tree with the root's color changed.
    pub open spec fn paint(self, red: bool) -> Tree {
        match self {
            Tree::Leaf => Tree::Leaf,
            Tree::Fork { left, at, key, right, .. } => Tree::Fork { left, at, key, red, right },
        }
    }

    pub open spec fn with_left(self, l: Tree) -> Tree {
        Tree::fork(l, self.h(), self.k(), self.is_red(), self.r())
    }

    pub open spec fn with_right(self, r: Tree) -> Tree {
        Tree::fork(self.l(), self.h(), self.k(), self.is_red(), r)
    }

    /// The number of nodes.
    pub open spec fn size(self) -> nat
        decreases self,
    {
        match self {
            Tree::Leaf => 0,
            Tree::Fork { left, right, .. } => 1 + left.size() + right.size(),
        }
    }

    /// The handles of the nodes.
    pub open spec fn handles(self) -> Set<usize>
        decreases self,
    {
        match self {
            Tree::Leaf => Set::empty(),
            Tree::Fork { left, at, right, .. } => left.handles().union(right.handles()).insert(at),
        }
    }

    /// The keys of the nodes.
    pub open spec fn keys(self) -> Set<int>
        decreases self,
    {
        match self {
            Tree::Leaf => Set::empty(),
            Tree::Fork { left, key, right, .. } => left.keys().union(right.keys()).insert(key),
        }
    }

    /// A search tree whose keys lie strictly between `lo` and `hi`.
    pub open spec fn ordered(self, lo: int, hi: int) -> bool
        decreases self,
    {
        match self {
            Tree::Leaf => true,
            Tree::Fork { left, key, right, .. } => {
                &&& lo < key < hi
                &&& left.ordered(lo, key)
                &&& right.ordered(key, hi)
            },
        }
    }

    /// The number of black nodes on the leftmost path.
    pub open spec fn bh(self) -> nat
        decreases self,
    {
        match self {
            Tree::Leaf => 0,
            Tree::Fork { left, red, .. } => left.bh() + if red {
                0nat
            } else {
                1nat
            },
        }
    }

    /// Every path from the root to a leaf holds the same number of black nodes.
    pub open spec fn balanced(self) -> bool
        decreases self,
    {
        match self {
            Tree::Leaf => true,
            Tree::Fork { left, right, .. } => {
                &&& left.balanced()
                &&& right.balanced()
                &&& left.bh() == right.bh()
            },
        }
    }

    /// Balanced, no red right child, and no red node with a red left child.
    pub open spec fn rbt(self) -> bool
        decreases self,
    {
        match self {
            Tree::Leaf => true,
            Tree::Fork { left, red, right, .. } => {
                &&& left.rbt()
                &&& right.rbt()
                &&& left.bh() == right.bh()
                &&& !right.is_red()
                &&& red ==> !left.is_red()
            },
        }
    }

    /// A valid tree: the color rules hold and the root is black.
    pub open spec fn valid(self) -> bool {
        self.rbt() && !self.is_red()
    }

    /// The node with key `key` is in the tree, on the path that a search for
    /// `key` takes.
    pub open spec fn has(self, key: int) -> bool
        decreases self,
    {
        match self {
            Tree::Leaf => false,
            Tree::Fork { left, key: k, right, .. } => if key < k {
                left.has(key)
            } else if key == k {
                true
            } else {
                right.has(key)
            },
        }
    }

    // ------------------------------------------------------------------
    // The steps of the algorithm

    pub open spec fn rot_left(self) -> Tree {
        if self is Fork && self.r() is Fork {
            let x = self;
            let y = self.r();
            Tree::fork(
                Tree::fork(x.l(), x.h(), x.k(), true, y.l()),
                y.h(),
                y.k(),
                x.is_red(),
                y.r(),
            )
        } else {
            self
        }
    }

    pub open spec fn rot_right(self) -> Tree {
        if self is Fork && self.l() is Fork {
            let x = self;
            let y = self.l();
            Tree::fork(
                y.l(),
                y.h(),
                y.k(),
                x.is_red(),
                Tree::fork(y.r(), x.h(), x.k(), true, x.r()),
            )
        } else {
            self
        }
    }

    pub open spec fn flip(self) -> Tree {
        if self is Fork && self.l() is Fork && self.r() is Fork {
            Tree::fork(
                self.l().paint(!self.l().is_red()),
                self.h(),
                self.k(),
                !self.is_red(),
                self.r().paint(!self.r().is_red()),
            )
        } else {
            self
        }
    }

    pub open spec fn move_red_left(self) -> Tree {
        let t = self.flip();
        if t.r().l().is_red() {
            t.with_right(t.r().rot_right()).rot_left().flip()
        } else {
            t
        }
    }

    pub open spec fn move_red_right(self) -> Tree {
        let t = self.flip();
        if t.l().l().is_red() {
            t.rot_right().flip()
        } else {
            t
        }
    }

    /// The repairs on the way up after an insertion.
    pub open spec fn fix_ins(self) -> Tree {
        let t1 = if self.r().is_red() && !self.l().is_red() {
            self.rot_left()
        } else {
            self
        };
        let t2 = if t1.l().is_red() && t1.l().l().is_red() {
            t1.rot_right()
        } else {
            t1
        };
        if t2.l().is_red() && t2.r().is_red() {
            t2.flip()
        } else {
            t2
        }
    }

    /// The repairs on the way up after a removal.
    pub open spec fn fix_up(self) -> Tree {
        let t1 = if self.r().is_red() {
            self.rot_left()
        } else {
            self
        };
        let t2 = if t1.l().is_red() && t1.l().l().is_red() {
            t1.rot_right()
        } else {
            t1
        };
        if t2.l().is_red() && t2.r().is_red() {
            t2.flip()
        } else {
            t2
        }
    }

    /// Insertion of the red node `at` with key `key` below the root.
    pub open spec fn ins(self, at: usize, key: int) -> Tree
        decreases self,
    {
        match self {
            Tree::Leaf => Tree::fork(Tree::Leaf, at, key, true, Tree::Leaf),
            Tree::Fork { left, key: k, right, .. } => if key < k {
                self.with_left(left.ins(at, key)).fix_ins()
            } else {
                self.with_right(right.ins(at, key)).fix_ins()
            },
        }
    }

    /// Insertion with the root painted black afterwards.
    pub open spec fn insert(self, at: usize, key: int) -> Tree {
        self.ins(at, key).paint(false)
    }
}

impl Tree {
    /// The color rules below the root: the root itself may be red with a red
    /// left child.
    pub open spec fn almost(self) -> bool {
        &&& self.l().rbt()
        &&& self.r().rbt()
        &&& self.l().bh() == self.r().bh()
        &&& !self.r().is_red()
    }
}

/// The keys of a search tree lie between its bounds, and a key's node is
/// found by searching for it.
pub proof fn lemma_keys_bounded(t: Tree, lo: int, hi: int)
    requires
        t.ordered(lo, hi),
    ensures
        forall|k: int| #[trigger] t.keys().contains(k) ==> lo < k < hi,
        forall|k: int| #[trigger] t.keys().contains(k) <==> t.has(k),
        t.keys().finite(),
        t.handles().finite(),
    decreases t,
{
    match t {
        Tree::Leaf => {},
        Tree::Fork { left, key, right, .. } => {
            lemma_keys_bounded(*left, lo, key);
            lemma_keys_bounded(*right, key, hi);
            assert forall|k: int| #[trigger] t.keys().contains(k) <==> t.has(k) by {
                if k < key {
                    assert(left.keys().contains(k) <==> left.has(k));
                    assert(!right.keys().contains(k));
                } else if k > key {
                    assert(right.keys().contains(k) <==> right.has(k));
                    assert(!left.keys().contains(k));
                }
            }
        },
    }
}

/// Wider bounds hold too.
pub proof fn lemma_ordered_widen(t: Tree, lo: int, hi: int, lo2: int, hi2: int)
    requires
        t.ordered(lo, hi),
        lo2 <= lo,
        hi <= hi2,
    ensures
        t.ordered(lo2, hi2),
    decreases t,
{
    match t {
        Tree::Leaf => {},
        Tree::Fork { left, key, right, .. } => {
            lemma_ordered_widen(*left, lo, key, lo2, key);
            lemma_ordered_widen(*right, key, hi, key, hi2);
        },
    }
}

/// A rotation to the left keeps the search order and the nodes.
pub proof fn lemma_rot_left(t: Tree, lo: int, hi: int)
    requires
        t.ordered(lo, hi),
    ensures
        t.rot_left().ordered(lo, hi),
        t.rot_left().keys() == t.keys(),
        t.rot_left().handles() == t.handles(),
        t.rot_left().size() == t.size(),
{
    reveal_with_fuel(Tree::ordered, 3);
    reveal_with_fuel(Tree::keys, 3);
    reveal_with_fuel(Tree::handles, 3);
    reveal_with_fuel(Tree::size, 3);
    if t is Fork && t.r() is Fork {
        lemma_ordered_widen(t.l(), lo, t.k(), lo, t.r().k());
        lemma_ordered_widen(t.r().r(), t.r().k(), hi, t.r().k(), hi);
    }
    assert(t.rot_left().keys() =~= t.keys());
    assert(t.rot_left().handles() =~= t.handles());
}

/// A rotation to the right keeps the search order and the nodes.
pub proof fn lemma_rot_right(t: Tree, lo: int, hi: int)
    requires
        t.ordered(lo, hi),
    ensures
        t.rot_right().ordered(lo, hi),
        t.rot_right().keys() == t.keys(),
        t.rot_right().handles() == t.handles(),
        t.rot_right().size() == t.size(),
{
    reveal_with_fuel(Tree::ordered, 3);
    reveal_with_fuel(Tree::keys, 3);
    reveal_with_fuel(Tree::handles, 3);
    reveal_with_fuel(Tree::size, 3);
    if t is Fork && t.l() is Fork {
        lemma_ordered_widen(t.r(), t.k(), hi, t.l().k(), hi);
    }
    assert(t.rot_right().keys() =~= t.keys());
    assert(t.rot_right().handles() =~= t.handles());
}

/// Painting the root changes neither the search order nor the nodes.
pub proof fn lemma_paint(t: Tree, red: bool, lo: int, hi: int)
    ensures
        t.paint(red).ordered(lo, hi) == t.ordered(lo, hi),
        t.paint(red).keys() == t.keys(),
        t.paint(red).handles() == t.handles(),
        t.paint(red).size() == t.size(),
        t.paint(red).l() == t.l(),
        t.paint(red).r() == t.r(),
{
}

/// A color flip changes neither the search order nor the nodes.
pub proof fn lemma_flip(t: Tree, lo: int, hi: int)
    requires
        t.ordered(lo, hi),
    ensures
        t.flip().ordered(lo, hi),
        t.flip().keys() == t.keys(),
        t.flip().handles() == t.handles(),
        t.flip().size() == t.size(),
{
    if t is Fork && t.l() is Fork && t.r() is Fork {
        lemma_paint(t.l(), !t.l().is_red(), lo, t.k());
        lemma_paint(t.r(), !t.r().is_red(), t.k(), hi);
    }
}

/// The repairs after an insertion keep the search order and the nodes.
pub proof fn lemma_fix_ins_nodes(t: Tree, lo: int, hi: int)
    requires
        t.ordered(lo, hi),
    ensures
        t.fix_ins().ordered(lo, hi),
        t.fix_ins().keys() == t.keys(),
        t.fix_ins().handles() == t.handles(),
        t.fix_ins().size() == t.size(),
{
    let t1 = if t.r().is_red() && !t.l().is_red() {
        t.rot_left()
    } else {
        t
    };
    lemma_rot_left(t, lo, hi);
    let t2 = if t1.l().is_red() && t1.l().l().is_red() {
        t1.rot_right()
    } else {
        t1
    };
    lemma_rot_right(t1, lo, hi);
    lemma_flip(t2, lo, hi);
}

/// The repairs after an insertion restore the color rules, where the new
/// node went into one of the subtrees.
pub proof fn lemma_fix_ins_colors(t: Tree)
    requires
        t is Fork,
        t.l().bh() == t.r().bh(),
        t.r().rbt(),
        ({
            &&& t.l().almost()
            &&& !t.r().is_red()
            &&& t.is_red() ==> t.l().rbt()
        }) || ({
            &&& t.l().rbt()
            &&& t.is_red() ==> !t.l().is_red()
        }),
    ensures
        t.fix_ins() is Fork,
        t.fix_ins().almost(),
        t.fix_ins().bh() == t.bh(),
        !t.is_red() ==> t.fix_ins().rbt(),
{
    reveal_with_fuel(Tree::rbt, 4);
    reveal_with_fuel(Tree::bh, 4);
}

/// Insertion below the root keeps the search order, adds the one node, and
/// leaves the color rules broken at the root at most.
pub proof fn lemma_ins(t: Tree, at: usize, key: int, lo: int, hi: int)
    requires
        t.rbt(),
        t.ordered(lo, hi),
        lo < key < hi,
        !t.keys().contains(key),
    ensures
        t.ins(at, key) is Fork,
        t.ins(at, key).ordered(lo, hi),
        t.ins(at, key).keys() == t.keys().insert(key),
        t.ins(at, key).handles() == t.handles().insert(at),
        t.ins(at, key).size() == t.size() + 1,
        t.ins(at, key).almost(),
        t.ins(at, key).bh() == t.bh(),
        !t.is_red() ==> t.ins(at, key).rbt(),
    decreases t,
{
    match t {
        Tree::Leaf => {
            reveal_with_fuel(Tree::keys, 2);
            reveal_with_fuel(Tree::handles, 2);
            reveal_with_fuel(Tree::rbt, 2);
            reveal_with_fuel(Tree::ordered, 2);
            reveal_with_fuel(Tree::size, 2);
            assert(t.ins(at, key).keys() =~= t.keys().insert(key));
            assert(t.ins(at, key).handles() =~= t.handles().insert(at));
        },
        Tree::Fork { left, key: k, right, .. } => {
            reveal_with_fuel(Tree::rbt, 3);
            if key < k {
                lemma_ins(*left, at, key, lo, k);
                let u = t.with_left(left.ins(at, key));
                assert(u.ordered(lo, hi));
                lemma_fix_ins_nodes(u, lo, hi);
                lemma_fix_ins_colors(u);
                assert(u.keys() =~= t.keys().insert(key));
                assert(u.handles() =~= t.handles().insert(at));
            } else {
                lemma_ins(*right, at, key, k, hi);
                let u = t.with_right(right.ins(at, key));
                assert(u.ordered(lo, hi));
                lemma_fix_ins_nodes(u, lo, hi);
                lemma_fix_ins_colors(u);
                assert(u.keys() =~= t.keys().insert(key));
                assert(u.handles() =~= t.handles().insert(at));
            }
        },
    }
}

/// Insertion into a valid tree gives a valid tree with the one node added.
pub proof fn lemma_insert(t: Tree, at: usize, key: int, lo: int, hi: int)
    requires
        t.valid(),
        t.ordered(lo, hi),
        lo < key < hi,
        !t.keys().contains(key),
    ensures
        t.insert(at, key).valid(),
        t.insert(at, key).balanced(),
        t.insert(at, key).ordered(lo, hi),
        t.insert(at, key).keys() == t.keys().insert(key),
        t.insert(at, key).handles() == t.handles().insert(at),
        t.insert(at, key).size() == t.size() + 1,
{
    lemma_ins(t, at, key, lo, hi);
    lemma_paint(t.ins(at, key), false, lo, hi);
    lemma_rbt_balanced(t.insert(at, key));
}

/// The color rules include the balance.
pub proof fn lemma_rbt_balanced(t: Tree)
    requires
        t.rbt(),
    ensures
        t.balanced(),
    decreases t,
{
    match t {
        Tree::Leaf => {},
        Tree::Fork { left, right, .. } => {
            lemma_rbt_balanced(*left);
            lemma_rbt_balanced(*right);
        },
    }
}

/// A rotation or a color flip keeps the number of nodes.
pub proof fn lemma_size_step(t: Tree)
    ensures
        t.rot_left().size() == t.size(),
        t.rot_right().size() == t.size(),
        t.flip().size() == t.size(),
        t is Fork ==> t.rot_left() is Fork && t.rot_right() is Fork && t.flip() is Fork,
        t is Fork ==> t.l().size() < t.size() && t.r().size() < t.size(),
        forall|l: Tree| #[trigger] t.with_left(l).size() == 1 + l.size() + t.r().size(),
        forall|r: Tree| #[trigger] t.with_right(r).size() == 1 + t.l().size() + r.size(),
{
    reveal_with_fuel(Tree::size, 3);
}

/// The steps of the algorithm keep the number of nodes.
pub proof fn lemma_sizes(t: Tree)
    ensures
        t.move_red_left().size() == t.size(),
        t.move_red_right().size() == t.size(),
        t.lean_left().size() == t.size(),
        t.lean_right().size() == t.size(),
        t.turn_right().size() == t.size(),
        t.fix_up().size() == t.size(),
        t is Fork ==> t.lean_left() is Fork && t.lean_right() is Fork && t.turn_right() is Fork
            && t.fix_up() is Fork,
        t is Fork ==> t.l().size() < t.size() && t.r().size() < t.size(),
{
    lemma_size_step(t);
    let f = t.flip();
    lemma_size_step(f);
    lemma_size_step(f.r());
    let g = f.with_right(f.r().rot_right());
    lemma_size_step(g);
    lemma_size_step(g.rot_left());
    lemma_size_step(f.rot_right());
    let t1 = if t.r().is_red() {
        t.rot_left()
    } else {
        t
    };
    lemma_size_step(t1);
    let t2 = if t1.l().is_red() && t1.l().l().is_red() {
        t1.rot_right()
    } else {
        t1
    };
    lemma_size_step(t2);
}

impl Tree {
    /// Whether redness has to be borrowed before the descent to the left.
    pub open spec fn needs_red_left(self) -> bool {
        self.l() is Fork && !self.l().is_red() && !self.l().l().is_red()
    }

    /// Whether redness has to be borrowed before the descent to the right.
    pub open spec fn needs_red_right(self) -> bool {
        !self.r().is_red() && !self.r().l().is_red()
    }

    /// The tree as it is when the descent to the left starts.
    pub open spec fn lean_left(self) -> Tree {
        if self.needs_red_left() {
            self.move_red_left()
        } else {
            self
        }
    }

    /// The tree as it is when the descent to the right starts.
    pub open spec fn lean_right(self) -> Tree {
        if self.needs_red_right() {
            self.move_red_right()
        } else {
            self
        }
    }

    /// The tree as it is when the descent meets a node whose key is not
    /// greater than the one to remove.
    pub open spec fn turn_right(self) -> Tree {
        if self.l().is_red() {
            self.rot_right()
        } else {
            self
        }
    }

    /// Removal of the leftmost node: what is left of the tree, and the handle
    /// and the key of the node that was removed.
    pub open spec fn pop_min(self) -> (Tree, usize, int)
        decreases self.size(),
    {
        if self is Leaf {
            (Tree::Leaf, usize::MAX, 0)
        } else if self.l() is Leaf {
            (Tree::Leaf, self.h(), self.k())
        } else {
            let t1 = self.lean_left();
            proof {
                lemma_sizes(self);
                lemma_sizes(t1);
            }
            let p = t1.l().pop_min();
            (t1.with_left(p.0).fix_up(), p.1, p.2)
        }
    }

    /// Removal of the node with key `key` below the root.
    pub open spec fn del(self, key: int) -> Tree
        decreases self.size(),
    {
        if self is Leaf {
            Tree::Leaf
        } else if key < self.k() {
            let t1 = self.lean_left();
            proof {
                lemma_sizes(self);
                lemma_sizes(t1);
            }
            t1.with_left(t1.l().del(key)).fix_up()
        } else {
            let t1 = self.turn_right();
            if key == t1.k() && t1.r() is Leaf {
                Tree::Leaf
            } else {
                let t2 = t1.lean_right();
                proof {
                    lemma_sizes(self);
                    lemma_sizes(t1);
                    lemma_sizes(t2);
                }
                if key == t2.k() {
                    let p = t2.r().pop_min();
                    Tree::fork(t2.l(), p.1, p.2, t2.is_red(), p.0).fix_up()
                } else {
                    t2.with_right(t2.r().del(key)).fix_up()
                }
            }
        }
    }

    /// Removal with the root painted black afterwards.
    pub open spec fn remove(self, key: int) -> Tree {
        self.del(key).paint(false)
    }

    /// What the descent asks of the node that it stands at: the color rules
    /// hold in both subtrees, which are of one black height, and the node is
    /// red, or has a red left child, or has a red right child while the key
    /// to remove is not less than the node's.
    pub open spec fn del_pre(self, key: int) -> bool {
        &&& self.fit()
        &&& self.r().is_red() ==> key >= self.k()
    }

    /// The colors that the descent asks for: exactly one of the node and its
    /// two children is red, and the color rules hold in both subtrees, which
    /// are of one black height.
    pub open spec fn fit(self) -> bool {
        &&& self is Fork
        &&& self.l().rbt()
        &&& self.r().rbt()
        &&& self.l().bh() == self.r().bh()
        &&& {
            ||| self.is_red() && !self.l().is_red() && !self.r().is_red()
            ||| !self.is_red() && self.l().is_red() && !self.r().is_red()
            ||| !self.is_red() && !self.l().is_red() && self.r().is_red()
        }
    }

    /// What the descent to the leftmost node asks of the node that it stands
    /// at.
    pub open spec fn min_pre(self) -> bool {
        &&& self is Fork
        &&& self.l().rbt()
        &&& self.r().rbt()
        &&& self.l().bh() == self.r().bh()
        &&& !self.r().is_red()
        &&& self.is_red() != self.l().is_red()
    }

    /// `min_pre`, whatever the color of the node itself.
    pub open spec fn min_ok(self) -> bool {
        self.min_pre() || self.paint(!self.is_red()).min_pre()
    }

    /// `del_pre`, whatever the color of the node itself.
    pub open spec fn del_ok(self, key: int) -> bool {
        self.del_pre(key) || self.paint(!self.is_red()).del_pre(key)
    }

    /// What a removal below `self` hands back as `after`.
    pub open spec fn del_post(self, after: Tree) -> bool {
        &&& after.rbt()
        &&& after.bh() == self.bh()
        &&& !self.is_red() ==> after is Fork && !after.is_red()
    }
}

/// Before the descent to the left, the left child is made fit for it.  The
/// color of the node itself plays no part in this.
pub proof fn lemma_lean_left_colors(t: Tree)
    requires
        t.min_ok(),
        t.l() is Fork,
    ensures
        t.lean_left() is Fork,
        t.lean_left().l() is Fork,
        t.lean_left().l().min_pre(),
        t.needs_red_left() ==> t.r() is Fork,
        t.needs_red_left() && t.flip().r().l().is_red() ==> {
            let turned = t.flip().with_right(t.flip().r().rot_right()).rot_left();
            turned.l() is Fork && turned.r() is Fork
        },
{
    reveal_with_fuel(Tree::rbt, 4);
    reveal_with_fuel(Tree::bh, 4);
}

/// After the descent to the left, the repairs restore the color rules.
pub proof fn lemma_finish_left_colors(t: Tree, after: Tree)
    requires
        t.min_pre(),
        t.l() is Fork,
        t.lean_left().l().del_post(after),
    ensures
        t.del_post(t.lean_left().with_left(after).fix_up()),
{
    reveal_with_fuel(Tree::rbt, 4);
    reveal_with_fuel(Tree::bh, 4);
    if t.needs_red_left() {
        let f = t.flip();
        if f.r().l().is_red() {
            let g = f.with_right(f.r().rot_right()).rot_left().flip();
            assert(t.lean_left() == g);
            assert(t.del_post(g.with_left(after).fix_up()));
        } else {
            assert(t.lean_left() == f);
            assert(t.del_post(f.with_left(after).fix_up()));
        }
    } else {
        assert(t.del_post(t.with_left(after).fix_up()));
    }
}

impl Tree {
    /// The tree as it is when the descent goes on to the right, or takes the
    /// node that it stands at.
    pub open spec fn go_right(self) -> Tree {
        self.turn_right().lean_right()
    }

    /// The descent stops at the node that it stands at, which has no child.
    pub open spec fn stops(self, key: int) -> bool {
        key == self.turn_right().k() && self.turn_right().r() is Leaf
    }
}

/// Where the descent stops at a node without a right child, that node has
/// no child at all.
pub proof fn lemma_stop_colors(t: Tree, key: int, lo: int, hi: int)
    requires
        t.del_ok(key),
        t.ordered(lo, hi),
        key >= t.k(),
        t.stops(key),
    ensures
        t.turn_right() == t,
        key == t.k(),
        t.l() is Leaf,
        t.r() is Leaf,
        t.del_pre(key) ==> t.del_post(Tree::Leaf),
{
    reveal_with_fuel(Tree::rbt, 3);
    reveal_with_fuel(Tree::bh, 3);
    reveal_with_fuel(Tree::ordered, 3);
}

/// Before the descent to the right, the right child is made fit for it.  The
/// color of the node itself plays no part in this.
pub proof fn lemma_go_right_colors(t: Tree, key: int, lo: int, hi: int)
    requires
        t.del_ok(key),
        t.ordered(lo, hi),
        t.has(key),
        key >= t.k(),
        !t.stops(key),
    ensures
        t.turn_right() is Fork,
        t.turn_right().r() is Fork,
        t.turn_right().needs_red_right() ==> t.turn_right().l() is Fork,
        t.go_right() is Fork,
        t.go_right().r() is Fork,
        key >= t.go_right().k(),
        key == t.go_right().k() ==> t.go_right().r().min_pre(),
        key != t.go_right().k() ==> t.go_right().r().del_pre(key),
{
    reveal_with_fuel(Tree::rbt, 4);
    reveal_with_fuel(Tree::bh, 4);
    reveal_with_fuel(Tree::ordered, 4);
    reveal_with_fuel(Tree::has, 3);
}

/// After the descent to the right, the repairs restore the color rules.
pub proof fn lemma_finish_right_colors(t: Tree, at: usize, k: int, after: Tree)
    requires
        t.fit(),
        t.go_right().r().del_post(after),
    ensures
        t.del_post(Tree::fork(t.go_right().l(), at, k, t.go_right().is_red(), after).fix_up()),
{
    reveal_with_fuel(Tree::rbt, 4);
    reveal_with_fuel(Tree::bh, 4);
    let t1 = t.turn_right();
    if t1.needs_red_right() {
        let f = t1.flip();
        if f.l().l().is_red() {
            let g = f.rot_right().flip();
            assert(t.go_right() == g);
            assert(t.del_post(Tree::fork(g.l(), at, k, g.is_red(), after).fix_up()));
        } else {
            assert(t.go_right() == f);
            assert(t.del_post(Tree::fork(f.l(), at, k, f.is_red(), after).fix_up()));
        }
    } else {
        assert(t.go_right() == t1);
        assert(t.del_post(Tree::fork(t1.l(), at, k, t1.is_red(), after).fix_up()));
    }
}

/// The repairs after a removal keep the search order and the nodes.
pub proof fn lemma_fix_up_nodes(t: Tree, lo: int, hi: int)
    requires
        t.ordered(lo, hi),
    ensures
        t.fix_up().ordered(lo, hi),
        t.fix_up().keys() == t.keys(),
        t.fix_up().handles() == t.handles(),
{
    let t1 = if t.r().is_red() {
        t.rot_left()
    } else {
        t
    };
    lemma_rot_left(t, lo, hi);
    let t2 = if t1.l().is_red() && t1.l().l().is_red() {
        t1.rot_right()
    } else {
        t1
    };
    lemma_rot_right(t1, lo, hi);
    lemma_flip(t2, lo, hi);
}

/// The step before the descent to the left keeps the search order and the
/// nodes, and puts no smaller key at the root.
pub proof fn lemma_lean_left_nodes(t: Tree, lo: int, hi: int)
    requires
        t.ordered(lo, hi),
    ensures
        t.lean_left().ordered(lo, hi),
        t.lean_left().keys() == t.keys(),
        t.lean_left().handles() == t.handles(),
        t.lean_left().k() >= t.k(),
{
    if t.needs_red_left() {
        let f = t.flip();
        lemma_flip(t, lo, hi);
        if f.r().l().is_red() {
            reveal_with_fuel(Tree::ordered, 2);
            reveal_with_fuel(Tree::keys, 2);
            reveal_with_fuel(Tree::handles, 2);
            lemma_rot_right(f.r(), f.k(), hi);
            let g = f.with_right(f.r().rot_right());
            assert(g.ordered(lo, hi));
            assert(g.keys() =~= f.keys());
            assert(g.handles() =~= f.handles());
            lemma_rot_left(g, lo, hi);
            lemma_flip(g.rot_left(), lo, hi);
        }
    }
}

/// The steps before the descent to the right keep the search order and the
/// nodes, and put no greater key at the root.
pub proof fn lemma_go_right_nodes(t: Tree, lo: int, hi: int)
    requires
        t.ordered(lo, hi),
    ensures
        t.turn_right().ordered(lo, hi),
        t.turn_right().keys() == t.keys(),
        t.turn_right().handles() == t.handles(),
        t.turn_right().k() <= t.k(),
        t.go_right().ordered(lo, hi),
        t.go_right().keys() == t.keys(),
        t.go_right().handles() == t.handles(),
        t.go_right().k() <= t.k(),
{
    reveal_with_fuel(Tree::ordered, 2);
    lemma_rot_right(t, lo, hi);
    let t1 = t.turn_right();
    if t1.needs_red_right() {
        let f = t1.flip();
        lemma_flip(t1, lo, hi);
        if f.l().l().is_red() {
            lemma_rot_right(f, lo, hi);
            lemma_flip(f.rot_right(), lo, hi);
        }
    }
}

impl Tree {
    /// The handle of the node that `del` removes.
    pub open spec fn del_at(self, key: int) -> usize
        decreases self.size(),
    {
        if self is Leaf {
            usize::MAX
        } else if key < self.k() {
            let t1 = self.lean_left();
            proof {
                lemma_sizes(self);
                lemma_sizes(t1);
            }
            t1.l().del_at(key)
        } else {
            let t1 = self.turn_right();
            if key == t1.k() && t1.r() is Leaf {
                t1.h()
            } else {
                let t2 = t1.lean_right();
                proof {
                    lemma_sizes(self);
                    lemma_sizes(t1);
                    lemma_sizes(t2);
                }
                if key == t2.k() {
                    t2.h()
                } else {
                    t2.r().del_at(key)
                }
            }
        }
    }
}

/// Removal of the leftmost node takes out the node with the least key, and
/// what is left keeps the color rules and the black height.
pub proof fn lemma_pop_min(t: Tree, lo: int, hi: int)
    requires
        t.min_pre(),
        t.ordered(lo, hi),
    ensures
        t.del_post(t.pop_min().0),
        lo < t.pop_min().2 < hi,
        t.pop_min().0.ordered(t.pop_min().2, hi),
        t.keys() == t.pop_min().0.keys().insert(t.pop_min().2),
        t.handles() == t.pop_min().0.handles().insert(t.pop_min().1),
        t.pop_min().0.size() + 1 == t.size(),
    decreases t.size(),
{
    if t.l() is Leaf {
        reveal_with_fuel(Tree::rbt, 2);
        reveal_with_fuel(Tree::bh, 2);
        reveal_with_fuel(Tree::size, 2);
        reveal_with_fuel(Tree::keys, 2);
        reveal_with_fuel(Tree::handles, 2);
        assert(t.r() is Leaf);
        assert(t.keys() =~= Set::<int>::empty().insert(t.k()));
        assert(t.handles() =~= Set::<usize>::empty().insert(t.h()));
    } else {
        let t1 = t.lean_left();
        lemma_sizes(t);
        lemma_sizes(t1);
        lemma_lean_left_colors(t);
        lemma_lean_left_nodes(t, lo, hi);
        lemma_pop_min(t1.l(), lo, t1.k());
        let p = t1.l().pop_min();
        let u = t1.with_left(p.0);
        lemma_finish_left_colors(t, p.0);
        assert(u.ordered(p.2, hi));
        lemma_fix_up_nodes(u, p.2, hi);
        lemma_size_step(t1);
        lemma_sizes(u);
        assert(u.keys().insert(p.2) =~= t1.keys());
        assert(u.handles().insert(p.1) =~= t1.handles());
    }
}

/// A key of a search tree lies between the tree's bounds, and a search finds
/// it.
pub proof fn lemma_key_in(t: Tree, lo: int, hi: int, k: int)
    requires
        t.ordered(lo, hi),
    ensures
        t.keys().contains(k) ==> lo < k < hi,
        t.keys().contains(k) <==> t.has(k),
        t.keys().contains(k) ==> t is Fork,
{
    lemma_keys_bounded(t, lo, hi);
}

/// What holds of a removal below `t` that hands back `after`.
pub open spec fn del_result(t: Tree, key: int, lo: int, hi: int, after: Tree, at: usize) -> bool {
    &&& t.del_post(after)
    &&& after.ordered(lo, hi)
    &&& t.keys() == after.keys().insert(key)
    &&& !after.keys().contains(key)
    &&& t.handles() == after.handles().insert(at)
    &&& after.size() + 1 == t.size()
}

/// The descent to the left can go on: the key is in the left subtree, which
/// is fit for the descent.
proof fn lemma_del_left_pre(t: Tree, key: int, lo: int, hi: int)
    requires
        t.del_pre(key),
        t.ordered(lo, hi),
        t.keys().contains(key),
        key < t.k(),
    ensures
        t.lean_left() is Fork,
        t.lean_left().l().del_pre(key),
        t.lean_left().l().ordered(lo, t.lean_left().k()),
        t.lean_left().l().keys().contains(key),
        t.lean_left().l().size() < t.size(),
        t.l() is Fork,
        t.min_pre(),
{
    let t1 = t.lean_left();
    lemma_sizes(t);
    lemma_sizes(t1);
    lemma_lean_left_nodes(t, lo, hi);
    lemma_key_in(t.r(), t.k(), hi, key);
    lemma_key_in(t.l(), lo, t.k(), key);
    assert(t.l() is Fork);
    lemma_lean_left_colors(t);
    lemma_key_in(t1.r(), t1.k(), hi, key);
}

/// The descent to the left has come back: the repairs give what a removal
/// below `t` owes.
proof fn lemma_del_left_post(t: Tree, key: int, lo: int, hi: int, after: Tree, at: usize)
    requires
        t.min_pre(),
        t.l() is Fork,
        t.ordered(lo, hi),
        key < t.k(),
        del_result(t.lean_left().l(), key, lo, t.lean_left().k(), after, at),
    ensures
        del_result(t, key, lo, hi, t.lean_left().with_left(after).fix_up(), at),
{
    let t1 = t.lean_left();
    let u = t1.with_left(after);
    lemma_sizes(t);
    lemma_lean_left_nodes(t, lo, hi);
    lemma_lean_left_colors(t);
    lemma_finish_left_colors(t, after);
    assert(u.ordered(lo, hi));
    lemma_fix_up_nodes(u, lo, hi);
    lemma_size_step(t1);
    lemma_sizes(u);
    lemma_key_in(t1.r(), t1.k(), hi, key);
    assert(u.keys().insert(key) =~= t1.keys());
    assert(u.handles().insert(at) =~= t1.handles());
    assert(!u.keys().contains(key));
}

/// The descent stops: the node has no child, and the empty tree is what a
/// removal below `t` owes.
proof fn lemma_del_stop(t: Tree, key: int, lo: int, hi: int)
    requires
        t.del_pre(key),
        t.ordered(lo, hi),
        key >= t.k(),
        t.stops(key),
    ensures
        del_result(t, key, lo, hi, Tree::Leaf, t.h()),
{
    lemma_stop_colors(t, key, lo, hi);
    reveal_with_fuel(Tree::size, 2);
    reveal_with_fuel(Tree::keys, 2);
    reveal_with_fuel(Tree::handles, 2);
    assert(t.keys() =~= Set::<int>::empty().insert(t.k()));
    assert(t.handles() =~= Set::<usize>::empty().insert(t.h()));
}

/// The descent to the right can go on, or takes the node that it stands at.
proof fn lemma_del_right_pre(t: Tree, key: int, lo: int, hi: int)
    requires
        t.del_pre(key),
        t.ordered(lo, hi),
        t.keys().contains(key),
        key >= t.k(),
        !t.stops(key),
    ensures
        t.go_right() is Fork,
        t.go_right().r().ordered(t.go_right().k(), hi),
        t.go_right().r().size() < t.size(),
        key >= t.go_right().k(),
        key == t.go_right().k() ==> t.go_right().r().min_pre(),
        key != t.go_right().k() ==> t.go_right().r().del_pre(key)
            && t.go_right().r().keys().contains(key),
{
    let t2 = t.go_right();
    lemma_sizes(t);
    lemma_sizes(t.turn_right());
    lemma_sizes(t2);
    lemma_go_right_nodes(t, lo, hi);
    lemma_key_in(t, lo, hi, key);
    lemma_go_right_colors(t, key, lo, hi);
    lemma_key_in(t2.l(), lo, t2.k(), key);
}

/// The descent took the node that it stood at: its successor stands in its
/// place, and the repairs give what a removal below `t` owes.
proof fn lemma_del_here_post(t: Tree, key: int, lo: int, hi: int)
    requires
        t.fit(),
        t.ordered(lo, hi),
        t.go_right() is Fork,
        key == t.go_right().k(),
        t.go_right().r().min_pre(),
    ensures
        del_result(
            t,
            key,
            lo,
            hi,
            Tree::fork(
                t.go_right().l(),
                t.go_right().r().pop_min().1,
                t.go_right().r().pop_min().2,
                t.go_right().is_red(),
                t.go_right().r().pop_min().0,
            ).fix_up(),
            t.go_right().h(),
        ),
{
    let t2 = t.go_right();
    lemma_go_right_nodes(t, lo, hi);
    lemma_sizes(t);
    lemma_sizes(t.turn_right());
    lemma_size_step(t2);
    lemma_pop_min(t2.r(), t2.k(), hi);
    let p = t2.r().pop_min();
    let u = Tree::fork(t2.l(), p.1, p.2, t2.is_red(), p.0);
    lemma_finish_right_colors(t, p.1, p.2, p.0);
    lemma_ordered_widen(t2.l(), lo, t2.k(), lo, p.2);
    lemma_ordered_widen(p.0, p.2, hi, p.2, hi);
    assert(u.ordered(lo, hi));
    lemma_fix_up_nodes(u, lo, hi);
    lemma_sizes(u);
    lemma_key_in(p.0, p.2, hi, key);
    lemma_key_in(t2.l(), lo, t2.k(), key);
    assert(u.keys().insert(key) =~= t2.keys());
    assert(u.handles().insert(t2.h()) =~= t2.handles());
    assert(!u.keys().contains(key));
    assert(u.size() + 1 == t2.size()) by {
        reveal_with_fuel(Tree::size, 2);
    }
}

/// The descent to the right has come back: the repairs give what a removal
/// below `t` owes.
proof fn lemma_del_right_post(t: Tree, key: int, lo: int, hi: int, after: Tree, at: usize)
    requires
        t.fit(),
        t.ordered(lo, hi),
        t.go_right() is Fork,
        key > t.go_right().k(),
        del_result(t.go_right().r(), key, t.go_right().k(), hi, after, at),
    ensures
        del_result(t, key, lo, hi, t.go_right().with_right(after).fix_up(), at),
{
    let t2 = t.go_right();
    lemma_go_right_nodes(t, lo, hi);
    lemma_sizes(t);
    lemma_sizes(t.turn_right());
    lemma_size_step(t2);
    let u = t2.with_right(after);
    lemma_finish_right_colors(t, t2.h(), t2.k(), after);
    assert(u.ordered(lo, hi));
    lemma_fix_up_nodes(u, lo, hi);
    lemma_sizes(u);
    lemma_key_in(t2.l(), lo, t2.k(), key);
    assert(u.keys().insert(key) =~= t2.keys());
    assert(u.handles().insert(at) =~= t2.handles());
    assert(!u.keys().contains(key));
}

/// Removal below the root takes out the node with the key, and what is left
/// keeps the search order, the color rules and the black height.
pub proof fn lemma_del(t: Tree, key: int, lo: int, hi: int)
    requires
        t.del_pre(key),
        t.ordered(lo, hi),
        t.keys().contains(key),
    ensures
        del_result(t, key, lo, hi, t.del(key), t.del_at(key)),
    decreases t.size(),
{
    if key < t.k() {
        let t1 = t.lean_left();
        lemma_del_left_pre(t, key, lo, hi);
        lemma_del(t1.l(), key, lo, t1.k());
        lemma_del_left_post(t, key, lo, hi, t1.l().del(key), t1.l().del_at(key));
    } else if t.stops(key) {
        lemma_del_stop(t, key, lo, hi);
    } else {
        let t2 = t.go_right();
        lemma_del_right_pre(t, key, lo, hi);
        if key == t2.k() {
            lemma_del_here_post(t, key, lo, hi);
        } else {
            lemma_del(t2.r(), key, t2.k(), hi);
            lemma_del_right_post(t, key, lo, hi, t2.r().del(key), t2.r().del_at(key));
        }
    }
}

/// The color of the root plays no part in a removal below it, but for the
/// color of the root that comes out.
pub proof fn lemma_del_paint(t: Tree, key: int, red: bool)
    ensures
        t.paint(red).del(key).paint(false) == t.del(key).paint(false),
        t.paint(red).del_at(key) == t.del_at(key),
{
    let s = t.paint(red);
    if t is Fork {
        if key < t.k() {
            lemma_lean_left_paint(t, red);
            let t1 = t.lean_left();
            lemma_fix_up_paint(t1.with_left(t1.l().del(key)), s.lean_left().is_red());
        } else {
            lemma_go_right_paint(t, red);
            let t2 = t.go_right();
            if !t.stops(key) {
                if key == t2.k() {
                    let p = t2.r().pop_min();
                    lemma_fix_up_paint(
                        Tree::fork(t2.l(), p.1, p.2, t2.is_red(), p.0),
                        s.go_right().is_red(),
                    );
                } else {
                    lemma_fix_up_paint(t2.with_right(t2.r().del(key)), s.go_right().is_red());
                }
            }
        }
    }
}

/// The color of the root plays no part in the step before the descent to the
/// left.
pub proof fn lemma_lean_left_paint(t: Tree, red: bool)
    requires
        t is Fork,
    ensures
        t.paint(red).lean_left() == t.lean_left().paint(t.paint(red).lean_left().is_red()),
        t.paint(red).lean_left() is Fork,
        t.lean_left() is Fork,
{
}

/// The color of the root plays no part in the steps before the descent to the
/// right.
pub proof fn lemma_go_right_paint(t: Tree, red: bool)
    requires
        t is Fork,
    ensures
        t.paint(red).turn_right() == t.turn_right().paint(t.paint(red).turn_right().is_red()),
        t.paint(red).go_right() == t.go_right().paint(t.paint(red).go_right().is_red()),
        t.paint(red).go_right() is Fork,
        t.go_right() is Fork,
        t.turn_right() is Fork,
{
}

/// The color of the root plays no part in the repairs.
pub proof fn lemma_fix_up_paint(t: Tree, red: bool)
    requires
        t is Fork,
    ensures
        t.paint(red).fix_up().paint(false) == t.fix_up().paint(false),
{
}

/// Removal from a valid tree gives a valid tree without the one node.
pub proof fn lemma_remove(t: Tree, key: int, lo: int, hi: int)
    requires
        t.valid(),
        t.ordered(lo, hi),
        t.keys().contains(key),
    ensures
        t.remove(key).valid(),
        t.remove(key).balanced(),
        t.remove(key).ordered(lo, hi),
        t.keys() == t.remove(key).keys().insert(key),
        !t.remove(key).keys().contains(key),
        t.handles() == t.remove(key).handles().insert(t.del_at(key)),
        t.remove(key).size() + 1 == t.size(),
        t.del_ok(key),
{
    reveal_with_fuel(Tree::rbt, 2);
    let s = if t.l().is_red() {
        t
    } else {
        t.paint(true)
    };
    lemma_paint(t, true, lo, hi);
    assert(s.del_pre(key));
    lemma_del(s, key, lo, hi);
    lemma_del_paint(t, key, true);
    lemma_paint(s.del(key), false, lo, hi);
    lemma_paint(t.del(key), false, lo, hi);
    lemma_rbt_balanced(t.remove(key));
}

/// What the descent to the left rests on, whatever the color of the node
/// that it stands at.
pub proof fn lemma_descend_left(t: Tree, key: int, lo: int, hi: int)
    requires
        t.del_ok(key),
        t.ordered(lo, hi),
        t.keys().contains(key),
        key < t.k(),
    ensures
        t.l() is Fork,
        t.needs_red_left() ==> t.r() is Fork,
        t.lean_left() is Fork,
        t.lean_left().l() is Fork,
        t.lean_left().ordered(lo, hi),
        t.lean_left().handles() == t.handles(),
        t.lean_left().keys() == t.keys(),
        key < t.lean_left().k(),
        t.lean_left().l().del_pre(key),
        t.lean_left().l().keys().contains(key),
        t.lean_left().l().size() < t.size(),
{
    let t1 = t.lean_left();
    lemma_sizes(t);
    lemma_sizes(t1);
    lemma_lean_left_nodes(t, lo, hi);
    lemma_key_in(t.r(), t.k(), hi, key);
    lemma_key_in(t.l(), lo, t.k(), key);
    assert(t.l() is Fork);
    lemma_lean_left_colors(t);
    lemma_key_in(t1.r(), t1.k(), hi, key);
}

/// What the descent to the right rests on, whatever the color of the node
/// that it stands at.
pub proof fn lemma_descend_right(t: Tree, key: int, lo: int, hi: int)
    requires
        t.del_ok(key),
        t.ordered(lo, hi),
        t.keys().contains(key),
        key >= t.k(),
    ensures
        t.turn_right() is Fork,
        t.turn_right().ordered(lo, hi),
        t.turn_right().handles() == t.handles(),
        key >= t.turn_right().k(),
        !t.stops(key) ==> {
            &&& t.turn_right().r() is Fork
            &&& t.turn_right().needs_red_right() ==> t.turn_right().l() is Fork
            &&& t.go_right() is Fork
            &&& t.go_right().r() is Fork
            &&& t.go_right().ordered(lo, hi)
            &&& t.go_right().handles() == t.handles()
            &&& t.go_right().keys() == t.keys()
            &&& key >= t.go_right().k()
            &&& t.go_right().r().size() < t.size()
            &&& key == t.go_right().k() ==> t.go_right().r().min_pre()
            &&& key != t.go_right().k() ==> t.go_right().r().del_pre(key)
                && t.go_right().r().keys().contains(key)
        },
{
    let t2 = t.go_right();
    lemma_sizes(t);
    lemma_sizes(t.turn_right());
    lemma_sizes(t2);
    lemma_go_right_nodes(t, lo, hi);
    lemma_key_in(t, lo, hi, key);
    if !t.stops(key) {
        lemma_go_right_colors(t, key, lo, hi);
        lemma_key_in(t2.l(), lo, t2.k(), key);
    } else {
        reveal_with_fuel(Tree::ordered, 2);
    }
}

/// What the descent to the leftmost node rests on, whatever the color of the
/// node that it stands at.
pub proof fn lemma_descend_min(t: Tree, lo: int, hi: int)
    requires
        t.min_ok(),
        t.ordered(lo, hi),
        t.l() is Fork,
    ensures
        t.needs_red_left() ==> t.r() is Fork,
        t.lean_left() is Fork,
        t.lean_left().l() is Fork,
        t.lean_left().ordered(lo, hi),
        t.lean_left().handles() == t.handles(),
        t.lean_left().l().min_pre(),
        t.lean_left().l().size() < t.size(),
{
    lemma_sizes(t);
    lemma_sizes(t.lean_left());
    lemma_lean_left_nodes(t, lo, hi);
    lemma_lean_left_colors(t);
}

/// Removal below the root of a valid tree keeps the search order.
pub proof fn lemma_del_ordered(t: Tree, key: int, lo: int, hi: int)
    requires
        t.valid(),
        t.ordered(lo, hi),
        t.keys().contains(key),
    ensures
        t.del(key).ordered(lo, hi),
        t.del(key).handles().subset_of(t.handles()),
{
    lemma_remove(t, key, lo, hi);
    lemma_paint(t.del(key), false, lo, hi);
}

impl Tree {
    /// Every path from the root to a leaf holds exactly `n` black nodes.
    pub open spec fn paths_black(self, n: int) -> bool
        decreases self,
    {
        match self {
            Tree::Leaf => n == 0,
            Tree::Fork { left, red, right, .. } => {
                let below = if red {
                    n
                } else {
                    n - 1
                };
                left.paths_black(below) && right.paths_black(below)
            },
        }
    }
}

/// Every path holds `n` black nodes exactly where the tree is balanced and
/// its leftmost path holds `n` of them.
pub proof fn lemma_paths_black(t: Tree, n: int)
    ensures
        t.paths_black(n) <==> t.balanced() && t.bh() == n,
        t.bh() <= t.size(),
    decreases t,
{
    match t {
        Tree::Leaf => {},
        Tree::Fork { left, red, right, .. } => {
            let below = if red {
                n
            } else {
                n - 1
            };
            lemma_paths_black(*left, below);
            lemma_paths_black(*right, below);
        },
    }
}

impl Tree {
    /// The tree in which the node with key `old` has the key `new` instead.
    pub open spec fn rekey(self, old: int, new: int) -> Tree
        decreases self,
    {
        match self {
            Tree::Leaf => Tree::Leaf,
            Tree::Fork { left, at, key, red, right } => if old < key {
                Tree::fork(left.rekey(old, new), at, key, red, *right)
            } else if old == key {
                Tree::fork(*left, at, new, red, *right)
            } else {
                Tree::fork(*left, at, key, red, right.rekey(old, new))
            },
        }
    }
}

/// Narrower bounds hold too, where the keys lie between them.
pub proof fn lemma_ordered_narrow(t: Tree, lo: int, hi: int, lo2: int, hi2: int)
    requires
        t.ordered(lo, hi),
        forall|k: int| #[trigger] t.keys().contains(k) ==> lo2 < k < hi2,
    ensures
        t.ordered(lo2, hi2),
    decreases t,
{
    match t {
        Tree::Leaf => {},
        Tree::Fork { left, key, right, .. } => {
            assert(t.keys().contains(key));
            assert forall|k: int| #[trigger] left.keys().contains(k) implies lo2 < k < key by {
                assert(t.keys().contains(k));
                lemma_key_in(*left, lo, key, k);
            }
            assert forall|k: int| #[trigger] right.keys().contains(k) implies key < k < hi2 by {
                assert(t.keys().contains(k));
                lemma_key_in(*right, key, hi, k);
            }
            lemma_ordered_narrow(*left, lo, key, lo2, key);
            lemma_ordered_narrow(*right, key, hi, key, hi2);
        },
    }
}

/// A key may change where no other key lies between the old one and the new
/// one: the tree keeps its search order, its nodes and its colors.
pub proof fn lemma_rekey(t: Tree, old: int, new: int, lo: int, hi: int)
    requires
        t.ordered(lo, hi),
        t.keys().contains(old),
        lo < new < hi,
        forall|k: int| #[trigger]
            t.keys().contains(k) && k != old ==> (k < old <==> k < new) && k != new,
    ensures
        t.rekey(old, new).ordered(lo, hi),
        t.rekey(old, new).keys() == t.keys().remove(old).insert(new),
        t.rekey(old, new).handles() == t.handles(),
        t.rekey(old, new).rbt() == t.rbt(),
        t.rekey(old, new).is_red() == t.is_red(),
        t.rekey(old, new).bh() == t.bh(),
        t.rekey(old, new).size() == t.size(),
    decreases t,
{
    match t {
        Tree::Leaf => {},
        Tree::Fork { left, at, key, red, right } => {
            lemma_keys_bounded(*left, lo, key);
            lemma_keys_bounded(*right, key, hi);
            assert(t.keys().contains(key));
            if old < key {
                assert forall|k: int| #[trigger] left.keys().contains(k) && k != old implies (k
                    < old <==> k < new) && k != new by {
                    assert(t.keys().contains(k));
                }
                lemma_rekey(*left, old, new, lo, key);
                assert(t.rekey(old, new).keys() =~= t.keys().remove(old).insert(new));
            } else if old == key {
                assert forall|k: int| #[trigger] left.keys().contains(k) implies lo < k < new by {
                    assert(t.keys().contains(k));
                }
                assert forall|k: int| #[trigger] right.keys().contains(k) implies new < k < hi by {
                    assert(t.keys().contains(k));
                }
                lemma_ordered_narrow(*left, lo, key, lo, new);
                lemma_ordered_narrow(*right, key, hi, new, hi);
                assert(t.rekey(old, new).keys() =~= t.keys().remove(old).insert(new));
            } else {
                assert forall|k: int| #[trigger] right.keys().contains(k) && k != old implies (k
                    < old <==> k < new) && k != new by {
                    assert(t.keys().contains(k));
                }
                lemma_rekey(*right, old, new, key, hi);
                assert(t.rekey(old, new).keys() =~= t.keys().remove(old).insert(new));
            }
        },
    }
}

} // verus!
