//! The ordinal value type of a range tree, and the node that stands for one
//! free range.

use crate::mempool_elem::{MemElemUtils, NIL};
use vstd::prelude::*;

verus! {

/// Zero value (0 for the integer types).
pub trait Zero: Sized {
    /// The value that `zero` returns.
    spec fn zero_value() -> Self;

    fn zero() -> (r: Self)
        ensures
            r == Self::zero_value(),
    ;
}

/// Unit value (1 for the integer types).
pub trait One: Sized {
    /// The value that `one` returns.
    spec fn one_value() -> Self;

    fn one() -> (r: Self)
        ensures
            r == Self::one_value(),
    ;
}

/// Range type: a totally ordered scalar whose values stand for the integers
/// of one interval, `min_val()` to `max_val()`.
pub trait RType: Zero + One + Copy + Sized {
    /// The integer that a value stands for.
    spec fn val(self) -> int;

    /// The least integer that the type can hold.
    spec fn min_val() -> int;

    /// The greatest integer that the type can hold.
    spec fn max_val() -> int;

    /// Distinct values stand for distinct integers.
    proof fn lemma_val_injective(a: Self, b: Self)
        requires
            a.val() == b.val(),
        ensures
            a == b,
    ;

    /// Every value lies between the type's bounds.
    proof fn lemma_val_bounds(a: Self)
        ensures
            Self::min_val() <= a.val() <= Self::max_val(),
    ;

    /// Zero stands for 0 and the unit for 1.
    proof fn lemma_zero_one()
        ensures
            Self::zero_value().val() == 0,
            Self::one_value().val() == 1,
    ;

    /// `self < other`.
    fn less(&self, other: &Self) -> (r: bool)
        ensures
            r == (self.val() < other.val()),
    ;

    /// `self == other`.
    fn same(&self, other: &Self) -> (r: bool)
        ensures
            r == (self.val() == other.val()),
    ;

    /// `self + rhs`, where the sum can be held.
    fn plus(self, rhs: Self) -> (r: Self)
        requires
            Self::min_val() <= self.val() + rhs.val() <= Self::max_val(),
        ensures
            r.val() == self.val() + rhs.val(),
    ;

    /// `self - rhs`, where the difference can be held.
    fn minus(self, rhs: Self) -> (r: Self)
        requires
            Self::min_val() <= self.val() - rhs.val() <= Self::max_val(),
        ensures
            r.val() == self.val() - rhs.val(),
    ;
}

impl Zero for u8 {
    open spec fn zero_value() -> Self {
        0
    }

    #[inline]
    fn zero() -> (r: Self) {
        0
    }
}

impl One for u8 {
    open spec fn one_value() -> Self {
        1
    }

    #[inline]
    fn one() -> (r: Self) {
        1
    }
}

impl RType for u8 {
    open spec fn val(self) -> int {
        self as int
    }

    open spec fn min_val() -> int {
        u8::MIN as int
    }

    open spec fn max_val() -> int {
        u8::MAX as int
    }

    proof fn lemma_val_injective(a: Self, b: Self) {
    }

    proof fn lemma_val_bounds(a: Self) {
    }

    proof fn lemma_zero_one() {
    }

    #[inline]
    fn less(&self, other: &Self) -> (r: bool) {
        *self < *other
    }

    #[inline]
    fn same(&self, other: &Self) -> (r: bool) {
        *self == *other
    }

    #[inline]
    fn plus(self, rhs: Self) -> (r: Self) {
        self + rhs
    }

    #[inline]
    fn minus(self, rhs: Self) -> (r: Self) {
        self - rhs
    }
}

impl Zero for u16 {
    open spec fn zero_value() -> Self {
        0
    }

    #[inline]
    fn zero() -> (r: Self) {
        0
    }
}

impl One for u16 {
    open spec fn one_value() -> Self {
        1
    }

    #[inline]
    fn one() -> (r: Self) {
        1
    }
}

impl RType for u16 {
    open spec fn val(self) -> int {
        self as int
    }

    open spec fn min_val() -> int {
        u16::MIN as int
    }

    open spec fn max_val() -> int {
        u16::MAX as int
    }

    proof fn lemma_val_injective(a: Self, b: Self) {
    }

    proof fn lemma_val_bounds(a: Self) {
    }

    proof fn lemma_zero_one() {
    }

    #[inline]
    fn less(&self, other: &Self) -> (r: bool) {
        *self < *other
    }

    #[inline]
    fn same(&self, other: &Self) -> (r: bool) {
        *self == *other
    }

    #[inline]
    fn plus(self, rhs: Self) -> (r: Self) {
        self + rhs
    }

    #[inline]
    fn minus(self, rhs: Self) -> (r: Self) {
        self - rhs
    }
}

impl Zero for u32 {
    open spec fn zero_value() -> Self {
        0
    }

    #[inline]
    fn zero() -> (r: Self) {
        0
    }
}

impl One for u32 {
    open spec fn one_value() -> Self {
        1
    }

    #[inline]
    fn one() -> (r: Self) {
        1
    }
}

impl RType for u32 {
    open spec fn val(self) -> int {
        self as int
    }

    open spec fn min_val() -> int {
        u32::MIN as int
    }

    open spec fn max_val() -> int {
        u32::MAX as int
    }

    proof fn lemma_val_injective(a: Self, b: Self) {
    }

    proof fn lemma_val_bounds(a: Self) {
    }

    proof fn lemma_zero_one() {
    }

    #[inline]
    fn less(&self, other: &Self) -> (r: bool) {
        *self < *other
    }

    #[inline]
    fn same(&self, other: &Self) -> (r: bool) {
        *self == *other
    }

    #[inline]
    fn plus(self, rhs: Self) -> (r: Self) {
        self + rhs
    }

    #[inline]
    fn minus(self, rhs: Self) -> (r: Self) {
        self - rhs
    }
}

impl Zero for u64 {
    open spec fn zero_value() -> Self {
        0
    }

    #[inline]
    fn zero() -> (r: Self) {
        0
    }
}

impl One for u64 {
    open spec fn one_value() -> Self {
        1
    }

    #[inline]
    fn one() -> (r: Self) {
        1
    }
}

impl RType for u64 {
    open spec fn val(self) -> int {
        self as int
    }

    open spec fn min_val() -> int {
        u64::MIN as int
    }

    open spec fn max_val() -> int {
        u64::MAX as int
    }

    proof fn lemma_val_injective(a: Self, b: Self) {
    }

    proof fn lemma_val_bounds(a: Self) {
    }

    proof fn lemma_zero_one() {
    }

    #[inline]
    fn less(&self, other: &Self) -> (r: bool) {
        *self < *other
    }

    #[inline]
    fn same(&self, other: &Self) -> (r: bool) {
        *self == *other
    }

    #[inline]
    fn plus(self, rhs: Self) -> (r: Self) {
        self + rhs
    }

    #[inline]
    fn minus(self, rhs: Self) -> (r: Self) {
        self - rhs
    }
}

impl Zero for usize {
    open spec fn zero_value() -> Self {
        0
    }

    #[inline]
    fn zero() -> (r: Self) {
        0
    }
}

impl One for usize {
    open spec fn one_value() -> Self {
        1
    }

    #[inline]
    fn one() -> (r: Self) {
        1
    }
}

impl RType for usize {
    open spec fn val(self) -> int {
        self as int
    }

    open spec fn min_val() -> int {
        usize::MIN as int
    }

    open spec fn max_val() -> int {
        usize::MAX as int
    }

    proof fn lemma_val_injective(a: Self, b: Self) {
    }

    proof fn lemma_val_bounds(a: Self) {
    }

    proof fn lemma_zero_one() {
    }

    #[inline]
    fn less(&self, other: &Self) -> (r: bool) {
        *self < *other
    }

    #[inline]
    fn same(&self, other: &Self) -> (r: bool) {
        *self == *other
    }

    #[inline]
    fn plus(self, rhs: Self) -> (r: Self) {
        self + rhs
    }

    #[inline]
    fn minus(self, rhs: Self) -> (r: Self) {
        self - rhs
    }
}

impl Zero for i8 {
    open spec fn zero_value() -> Self {
        0
    }

    #[inline]
    fn zero() -> (r: Self) {
        0
    }
}

impl One for i8 {
    open spec fn one_value() -> Self {
        1
    }

    #[inline]
    fn one() -> (r: Self) {
        1
    }
}

impl RType for i8 {
    open spec fn val(self) -> int {
        self as int
    }

    open spec fn min_val() -> int {
        i8::MIN as int
    }

    open spec fn max_val() -> int {
        i8::MAX as int
    }

    proof fn lemma_val_injective(a: Self, b: Self) {
    }

    proof fn lemma_val_bounds(a: Self) {
    }

    proof fn lemma_zero_one() {
    }

    #[inline]
    fn less(&self, other: &Self) -> (r: bool) {
        *self < *other
    }

    #[inline]
    fn same(&self, other: &Self) -> (r: bool) {
        *self == *other
    }

    #[inline]
    fn plus(self, rhs: Self) -> (r: Self) {
        self + rhs
    }

    #[inline]
    fn minus(self, rhs: Self) -> (r: Self) {
        self - rhs
    }
}

impl Zero for i16 {
    open spec fn zero_value() -> Self {
        0
    }

    #[inline]
    fn zero() -> (r: Self) {
        0
    }
}

impl One for i16 {
    open spec fn one_value() -> Self {
        1
    }

    #[inline]
    fn one() -> (r: Self) {
        1
    }
}

impl RType for i16 {
    open spec fn val(self) -> int {
        self as int
    }

    open spec fn min_val() -> int {
        i16::MIN as int
    }

    open spec fn max_val() -> int {
        i16::MAX as int
    }

    proof fn lemma_val_injective(a: Self, b: Self) {
    }

    proof fn lemma_val_bounds(a: Self) {
    }

    proof fn lemma_zero_one() {
    }

    #[inline]
    fn less(&self, other: &Self) -> (r: bool) {
        *self < *other
    }

    #[inline]
    fn same(&self, other: &Self) -> (r: bool) {
        *self == *other
    }

    #[inline]
    fn plus(self, rhs: Self) -> (r: Self) {
        self + rhs
    }

    #[inline]
    fn minus(self, rhs: Self) -> (r: Self) {
        self - rhs
    }
}

impl Zero for i32 {
    open spec fn zero_value() -> Self {
        0
    }

    #[inline]
    fn zero() -> (r: Self) {
        0
    }
}

impl One for i32 {
    open spec fn one_value() -> Self {
        1
    }

    #[inline]
    fn one() -> (r: Self) {
        1
    }
}

impl RType for i32 {
    open spec fn val(self) -> int {
        self as int
    }

    open spec fn min_val() -> int {
        i32::MIN as int
    }

    open spec fn max_val() -> int {
        i32::MAX as int
    }

    proof fn lemma_val_injective(a: Self, b: Self) {
    }

    proof fn lemma_val_bounds(a: Self) {
    }

    proof fn lemma_zero_one() {
    }

    #[inline]
    fn less(&self, other: &Self) -> (r: bool) {
        *self < *other
    }

    #[inline]
    fn same(&self, other: &Self) -> (r: bool) {
        *self == *other
    }

    #[inline]
    fn plus(self, rhs: Self) -> (r: Self) {
        self + rhs
    }

    #[inline]
    fn minus(self, rhs: Self) -> (r: Self) {
        self - rhs
    }
}

impl Zero for i64 {
    open spec fn zero_value() -> Self {
        0
    }

    #[inline]
    fn zero() -> (r: Self) {
        0
    }
}

impl One for i64 {
    open spec fn one_value() -> Self {
        1
    }

    #[inline]
    fn one() -> (r: Self) {
        1
    }
}

impl RType for i64 {
    open spec fn val(self) -> int {
        self as int
    }

    open spec fn min_val() -> int {
        i64::MIN as int
    }

    open spec fn max_val() -> int {
        i64::MAX as int
    }

    proof fn lemma_val_injective(a: Self, b: Self) {
    }

    proof fn lemma_val_bounds(a: Self) {
    }

    proof fn lemma_zero_one() {
    }

    #[inline]
    fn less(&self, other: &Self) -> (r: bool) {
        *self < *other
    }

    #[inline]
    fn same(&self, other: &Self) -> (r: bool) {
        *self == *other
    }

    #[inline]
    fn plus(self, rhs: Self) -> (r: Self) {
        self + rhs
    }

    #[inline]
    fn minus(self, rhs: Self) -> (r: Self) {
        self - rhs
    }
}

impl Zero for isize {
    open spec fn zero_value() -> Self {
        0
    }

    #[inline]
    fn zero() -> (r: Self) {
        0
    }
}

impl One for isize {
    open spec fn one_value() -> Self {
        1
    }

    #[inline]
    fn one() -> (r: Self) {
        1
    }
}

impl RType for isize {
    open spec fn val(self) -> int {
        self as int
    }

    open spec fn min_val() -> int {
        isize::MIN as int
    }

    open spec fn max_val() -> int {
        isize::MAX as int
    }

    proof fn lemma_val_injective(a: Self, b: Self) {
    }

    proof fn lemma_val_bounds(a: Self) {
    }

    proof fn lemma_zero_one() {
    }

    #[inline]
    fn less(&self, other: &Self) -> (r: bool) {
        *self < *other
    }

    #[inline]
    fn same(&self, other: &Self) -> (r: bool) {
        *self == *other
    }

    #[inline]
    fn plus(self, rhs: Self) -> (r: Self) {
        self + rhs
    }

    #[inline]
    fn minus(self, rhs: Self) -> (r: Self) {
        self - rhs
    }
}

/// One maximal free range, `range[0]` to `range[1]` (inclusive).  A node is a
/// member of the list of free ranges and of the tree that indexes them; its
/// links are handles of the pool that holds the nodes, `NIL` where there is
/// none.
#[derive(Clone, Copy)]
pub struct Node<TOrd: RType> {
    /// Next node of the list; the link of the free chain while the node is
    /// unused.
    pub next: usize,
    pub prev: usize,
    /// range: min, max (inclusive)
    pub range: [TOrd; 2],
    /// Children in the tree.
    pub left: usize,
    pub right: usize,
    pub color: bool,
}

impl<TOrd: RType> Node<TOrd> {
    /// The least value of the node's range, which is its key in the tree.
    pub open spec fn lo(&self) -> int {
        self.range[0].val()
    }

    /// The greatest value of the node's range.
    pub open spec fn hi(&self) -> int {
        self.range[1].val()
    }
}

impl<TOrd: RType> MemElemUtils for Node<TOrd> {
    open spec fn free_ptr(&self) -> usize {
        self.next
    }

    fn free_ptr_get(&self) -> (r: usize) {
        self.next
    }

    fn free_ptr_set(&mut self, ptr: usize) {
        self.next = ptr;
    }
}

impl<TOrd: RType> Default for Node<TOrd> {
    fn default() -> (node: Node<TOrd>)
        ensures
            node.next == NIL,
            node.prev == NIL,
            node.left == NIL,
            node.right == NIL,
            node.range[0] == TOrd::zero_value(),
            node.range[1] == TOrd::zero_value(),
            !node.color,
    {
        Node {
            next: NIL,
            prev: NIL,
            range: [TOrd::zero(), TOrd::zero()],
            left: NIL,
            right: NIL,
            // always overwritten when added to the tree
            color: false,
        }
    }
}

/// Head and tail of the list of free ranges.
pub struct List {
    pub first: usize,
    pub last: usize,
}

} // verus!
