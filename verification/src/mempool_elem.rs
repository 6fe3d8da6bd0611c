//! A pool for many small allocations of one type.
//!
//! Storage grows in chunks of a fixed number of slots.  A slot is addressed by
//! a handle: the number of the slot, counted over all chunks.  Freed slots are
//! chained through a link stored inside the element itself, and are handed out
//! again before the storage grows.

use vstd::prelude::*;

verus! {

/// The handle that addresses no slot; it ends the chain of freed slots.
pub const NIL: usize = usize::MAX;

/// What an element provides so that it can be a member of the free chain.
pub trait MemElemUtils: Sized {
    /// The link that the element holds.
    spec fn free_ptr(&self) -> usize;

    fn free_ptr_get(&self) -> (r: usize)
        ensures
            r == self.free_ptr(),
    ;

    fn free_ptr_set(&mut self, ptr: usize)
        ensures
            final(self).free_ptr() == ptr,
    ;
}

/// An element that a pool can hold.
pub trait MemElem: MemElemUtils + Default {

}

impl<TElem: MemElemUtils + Default> MemElem for TElem {

}

struct MemChunk<TElem: MemElem> {
    data: Vec<TElem>,
}

pub struct MemPool<TElem: MemElem> {
    /// Data storage.
    chunks: Vec<MemChunk<TElem>>,
    /// Number of elements per chunk.
    chunk_size: usize,
    /// Head of the chain of freed slots, which ends at `NIL`.
    free: usize,
    /// The handles on the chain, head first.
    chain: Ghost<Seq<usize>>,
}

/// A handle below the slot count lies in an existing chunk, at an existing
/// offset.
proof fn lemma_handle_in_chunk(h: int, size: int, chunks: int, last: int)
    requires
        size > 0,
        chunks >= 1,
        0 <= last <= size,
        0 <= h < (chunks - 1) * size + last,
    ensures
        0 <= h / size < chunks,
        0 <= h % size < size,
        h / size == chunks - 1 ==> h % size < last,
        h == (h / size) * size + h % size,
{
    let q = h / size;
    let r = h % size;
    assert(h == q * size + r && 0 <= r < size) by (nonlinear_arith)
        requires
            q == h / size,
            r == h % size,
            size > 0,
    ;
    assert(0 <= q) by (nonlinear_arith)
        requires
            h == q * size + r,
            0 <= h,
            r < size,
            size > 0,
    ;
    assert(q < chunks) by (nonlinear_arith)
        requires
            h == q * size + r,
            0 <= r,
            h < (chunks - 1) * size + last,
            last <= size,
            size > 0,
    ;
    if q == chunks - 1 {
        assert(r < last) by (nonlinear_arith)
            requires
                h == q * size + r,
                q == chunks - 1,
                h < (chunks - 1) * size + last,
        ;
    }
}

/// Quotient and remainder of `q * size + r` by `size`.
proof fn lemma_chunk_of_handle(q: int, r: int, size: int)
    requires
        size > 0,
        0 <= q,
        0 <= r < size,
    ensures
        (q * size + r) / size == q,
        (q * size + r) % size == r,
{
    vstd::arithmetic::div_mod::lemma_fundamental_div_mod_converse(q * size + r, size, q, r);
}

/// The number of slots in a sequence of chunks.
#[verifier::opaque]
spec fn count_of<TElem: MemElem>(chunks: Seq<MemChunk<TElem>>, size: usize) -> nat {
    ((chunks.len() - 1) * size + chunks[chunks.len() - 1].data.len()) as nat
}

/// The element in slot `h` of a sequence of chunks.
#[verifier::opaque]
spec fn elem_of<TElem: MemElem>(chunks: Seq<MemChunk<TElem>>, size: usize, h: int) -> TElem {
    chunks[h / (size as int)].data[h % (size as int)]
}

/// Every chunk but the last is full, the last holds no more than a chunk's
/// size and is empty only if it is the first, and no slot has the handle
/// `NIL`.
#[verifier::opaque]
spec fn chunks_ok<TElem: MemElem>(chunks: Seq<MemChunk<TElem>>, size: usize) -> bool {
    &&& size > 0
    &&& chunks.len() >= 1
    &&& forall|i: int| 0 <= i < chunks.len() - 1 ==> (#[trigger] chunks[i]).data.len() == size
    &&& chunks[chunks.len() - 1].data.len() <= size
    &&& chunks.len() > 1 ==> chunks[chunks.len() - 1].data.len() > 0
    &&& (chunks.len() - 1) * size + chunks[chunks.len() - 1].data.len() < NIL
}

/// A sequence without duplicates, less its head.
proof fn lemma_without_head(chain: Seq<usize>)
    requires
        chain.no_duplicates(),
        chain.len() > 0,
    ensures
        chain.drop_first().no_duplicates(),
        !chain.drop_first().contains(chain[0]),
        forall|k: usize|
            #![trigger chain.contains(k)]
            #![trigger chain.drop_first().contains(k)]
            chain.contains(k) <==> k == chain[0] || chain.drop_first().contains(k),
{
    let rest = chain.drop_first();
    assert forall|i: int, j: int|
        0 <= i < rest.len() && 0 <= j < rest.len() && i != j implies rest[i] != rest[j] by {
        assert(rest[i] == chain[i + 1]);
        assert(rest[j] == chain[j + 1]);
    }
    if rest.contains(chain[0]) {
        let i = choose|i: int| 0 <= i < rest.len() && rest[i] == chain[0];
        assert(rest[i] == chain[i + 1]);
    }
    assert forall|k: usize|
        #![trigger chain.contains(k)]
        #![trigger chain.drop_first().contains(k)]
        chain.contains(k) <==> k == chain[0] || rest.contains(k) by {
        if chain.contains(k) && k != chain[0] {
            let i = choose|i: int| 0 <= i < chain.len() && chain[i] == k;
            assert(rest[i - 1] == k);
        }
        if rest.contains(k) {
            let i = choose|i: int| 0 <= i < rest.len() && rest[i] == k;
            assert(chain[i + 1] == k);
        }
    }
}

impl<TElem: MemElem> MemPool<TElem> {
    /// The number of slots per chunk.
    pub closed spec fn chunk_len(&self) -> nat {
        self.chunk_size as nat
    }

    /// The number of chunks that the pool holds.
    pub closed spec fn chunk_count(&self) -> nat {
        self.chunks@.len()
    }

    /// The number of slots that the pool holds, live and freed.
    pub closed spec fn slot_count(&self) -> nat {
        count_of(self.chunks@, self.chunk_size)
    }

    /// The freed slots in the order in which they will be handed out again.
    pub closed spec fn free_list(&self) -> Seq<usize> {
        self.chain@
    }

    /// The element in slot `h`.
    pub closed spec fn slot(&self, h: int) -> TElem {
        elem_of(self.chunks@, self.chunk_size, h)
    }

    /// Every chunk but the last is full, and the last holds no more than a
    /// chunk's size.
    spec fn chunks_wf(&self) -> bool {
        chunks_ok(self.chunks@, self.chunk_size)
    }

    /// The chain starts at `free`, follows the elements' links through distinct
    /// existing slots, and ends at `NIL`.
    spec fn chain_wf(&self) -> bool {
        &&& self.chunk_size > 0
        &&& self.slot_count() < NIL
        &&& self.chain@.no_duplicates()
        &&& self.free == (if self.chain@.len() == 0 {
            NIL
        } else {
            self.chain@[0]
        })
        &&& forall|i: int|
            0 <= i < self.chain@.len() ==> (#[trigger] self.chain@[i]) < self.slot_count()
        &&& forall|i: int|
            0 <= i < self.chain@.len() ==> (#[trigger] self.slot(
                self.chain@[i] as int,
            )).free_ptr() == (if i + 1 < self.chain@.len() {
                self.chain@[i + 1]
            } else {
                NIL
            })
    }

    /// The pool's invariant.
    pub closed spec fn wf(&self) -> bool {
        &&& self.chunks_wf()
        &&& self.chain_wf()
    }

    /// The live slots: handle to element.
    pub closed spec fn view(&self) -> Map<usize, TElem> {
        Map::new(
            |h: usize| h < self.slot_count() && !self.chain@.contains(h),
            |h: usize| self.slot(h as int),
        )
    }

    /// The live handles are those below the slot count that are not on the
    /// free list; none of them is `NIL`.  The pool holds as many chunks as
    /// its slots fill, and one where it holds no slot.
    pub proof fn lemma_live(&self)
        requires
            self.wf(),
        ensures
            self.chunk_len() > 0,
            self.slot_count() < NIL,
            self.chunk_count() == (if self.slot_count() == 0 {
                1
            } else {
                (self.slot_count() - 1) / (self.chunk_len() as int) + 1
            }),
            forall|h: usize| #[trigger]
                self@.dom().contains(h) <==> h < self.slot_count() && !self.free_list().contains(
                    h,
                ),
            forall|h: usize| #[trigger] self@.dom().contains(h) ==> self@[h] == self.slot(h as int),
            forall|i: int|
                0 <= i < self.free_list().len() ==> (#[trigger] self.free_list()[i])
                    < self.slot_count(),
            self.free_list().no_duplicates(),
    {
        reveal(chunks_ok);
        reveal(count_of);
        let size = self.chunk_size as int;
        let n = self.chunks@.len() as int;
        let last = self.chunks@[n - 1].data@.len() as int;
        if last > 0 {
            lemma_chunk_of_handle(n - 1, last - 1, size);
        } else {
            assert((n - 1) * size == 0) by (nonlinear_arith)
                requires
                    n == 1,
            ;
        }
    }

    /// Create a pool whose chunks hold `chunk_size` elements each.
    pub fn new(chunk_size: usize) -> (pool: MemPool<TElem>)
        requires
            chunk_size > 0,
        ensures
            pool.wf(),
            pool@ == Map::<usize, TElem>::empty(),
            pool.slot_count() == 0,
            pool.free_list() == Seq::<usize>::empty(),
            pool.chunk_len() == chunk_size,
    {
        let mut chunks: Vec<MemChunk<TElem>> = Vec::new();
        chunks.push(MemChunk { data: Vec::with_capacity(chunk_size) });
        let pool = MemPool { chunks, chunk_size, free: NIL, chain: Ghost(Seq::empty()) };
        proof {
            reveal(chunks_ok);
            reveal(count_of);
            assert(pool.chunks.len() == 1);
            assert(pool.chunks[0].data.len() == 0);
            assert((pool.chunks.len() - 1) * pool.chunk_size == 0) by (nonlinear_arith)
                requires
                    pool.chunks.len() == 1,
            ;
            assert(pool.slot_count() == 0);
            assert(pool@ =~= Map::<usize, TElem>::empty());
        }
        pool
    }

    /// The element in a slot, live or freed.
    fn slot_ref(&self, h: usize) -> (elem: &TElem)
        requires
            self.chunks_wf(),
            h < self.slot_count(),
        ensures
            *elem == self.slot(h as int),
    {
        proof {
            reveal(chunks_ok);
            reveal(count_of);
            reveal(elem_of);
            lemma_handle_in_chunk(
                h as int,
                self.chunk_size as int,
                self.chunks.len() as int,
                self.chunks[self.chunks.len() - 1].data.len() as int,
            );
        }
        &self.chunks[h / self.chunk_size].data[h % self.chunk_size]
    }

    /// Replace the element in a slot, live or freed.
    fn slot_put(&mut self, h: usize, elem: TElem)
        requires
            old(self).chunks_wf(),
            h < old(self).slot_count(),
        ensures
            final(self).chunks_wf(),
            final(self).slot_count() == old(self).slot_count(),
            final(self).chunk_size == old(self).chunk_size,
            final(self).free == old(self).free,
            final(self).chain == old(self).chain,
            final(self).slot(h as int) == elem,
            forall|k: int|
                0 <= k < old(self).slot_count() && k != h ==> final(self).slot(k)
                    == #[trigger] old(self).slot(k),
    {
        proof {
            reveal(chunks_ok);
            reveal(count_of);
            reveal(elem_of);
            lemma_handle_in_chunk(
                h as int,
                self.chunk_size as int,
                self.chunks.len() as int,
                self.chunks[self.chunks.len() - 1].data.len() as int,
            );
        }
        let ci = h / self.chunk_size;
        let off = h % self.chunk_size;
        self.chunks[ci].data[off] = elem;
        proof {
            self.lemma_other_slots(old(self), h);
        }
    }

    /// Set the link of the element in a slot, live or freed.
    fn slot_link(&mut self, h: usize, link: usize)
        requires
            old(self).chunks_wf(),
            h < old(self).slot_count(),
        ensures
            final(self).chunks_wf(),
            final(self).slot_count() == old(self).slot_count(),
            final(self).chunk_size == old(self).chunk_size,
            final(self).free == old(self).free,
            final(self).chain == old(self).chain,
            final(self).slot(h as int).free_ptr() == link,
            forall|k: int|
                0 <= k < old(self).slot_count() && k != h ==> final(self).slot(k)
                    == #[trigger] old(self).slot(k),
    {
        proof {
            reveal(chunks_ok);
            reveal(count_of);
            reveal(elem_of);
            lemma_handle_in_chunk(
                h as int,
                self.chunk_size as int,
                self.chunks.len() as int,
                self.chunks[self.chunks.len() - 1].data.len() as int,
            );
        }
        let ci = h / self.chunk_size;
        let off = h % self.chunk_size;
        self.chunks[ci].data[off].free_ptr_set(link);
        proof {
            self.lemma_other_slots(old(self), h);
        }
    }

    /// Slots other than `h` hold what they held, where only the element at
    /// `h`'s place was replaced.
    proof fn lemma_other_slots(&self, before: &Self, h: usize)
        requires
            before.chunks_wf(),
            h < before.slot_count(),
            self.chunk_size == before.chunk_size,
            self.chunks.len() == before.chunks.len(),
            forall|i: int|
                0 <= i < self.chunks.len() && i != (h as int) / (self.chunk_size as int)
                    ==> self.chunks[i] == before.chunks[i],
            forall|i: int|
                0 <= i < self.chunks.len() ==> (#[trigger] self.chunks[i]).data@.len()
                    == before.chunks[i].data@.len(),
            forall|i: int, j: int|
                0 <= i < self.chunks.len() && 0 <= j < self.chunks[i].data@.len() && j != (
                h as int) % (self.chunk_size as int) ==> #[trigger] self.chunks[i].data@[j]
                    == before.chunks[i].data@[j],
        ensures
            self.chunks_wf(),
            self.slot_count() == before.slot_count(),
            forall|k: int|
                0 <= k < before.slot_count() && k != h ==> self.slot(k) == #[trigger] before.slot(
                    k,
                ),
    {
        reveal(chunks_ok);
        reveal(count_of);
        reveal(elem_of);
        let size = self.chunk_size as int;
        let n = self.chunks.len() as int;
        let last = before.chunks[n - 1].data.len() as int;
        lemma_handle_in_chunk(h as int, size, n, last);
        assert forall|k: int| 0 <= k < before.slot_count() && k != h implies self.slot(k)
            == #[trigger] before.slot(k) by {
            lemma_handle_in_chunk(k, size, n, last);
        }
    }

    /// Grow the storage by one slot that holds `from`.
    fn slot_push(&mut self, from: TElem) -> (h: usize)
        requires
            old(self).chunks_wf(),
            old(self).slot_count() + 1 < NIL,
        ensures
            final(self).chunks_wf(),
            h == old(self).slot_count(),
            final(self).slot_count() == old(self).slot_count() + 1,
            final(self).chunk_size == old(self).chunk_size,
            final(self).free == old(self).free,
            final(self).chain == old(self).chain,
            final(self).slot(h as int) == from,
            forall|k: int|
                0 <= k < old(self).slot_count() ==> final(self).slot(k) == #[trigger] old(
                    self,
                ).slot(k),
    {
        proof {
            reveal(chunks_ok);
            reveal(count_of);
            reveal(elem_of);
        }
        let ghost size = self.chunk_size as int;
        let ghost n0 = self.chunks.len() as int;
        if self.chunks[self.chunks.len() - 1].data.len() == self.chunk_size {
            self.chunks.push(MemChunk { data: Vec::with_capacity(self.chunk_size) });
            assert((n0 - 1) * size + size == (n0 + 1 - 1) * size + 0) by (nonlinear_arith);
        }
        let last = self.chunks.len() - 1;
        let len = self.chunks[last].data.len();
        assert(self.slot_count() == old(self).slot_count());
        assert(last * self.chunk_size + len == old(self).slot_count());
        assert(last * self.chunk_size >= 0) by (nonlinear_arith)
            requires
                last >= 0,
                self.chunk_size >= 0,
        ;
        let h = last * self.chunk_size + len;
        self.chunks[last].data.push(from);
        proof {
            lemma_chunk_of_handle(last as int, len as int, size);
            assert forall|k: int| 0 <= k < old(self).slot_count() implies self.slot(k)
                == #[trigger] old(self).slot(k) by {
                lemma_handle_in_chunk(
                    k,
                    size,
                    old(self).chunks.len() as int,
                    old(self).chunks[old(self).chunks.len() - 1].data.len() as int,
                );
            }
        }
        h
    }

    /// The element of a live slot.
    pub fn get(&self, h: usize) -> (elem: &TElem)
        requires
            self.wf(),
            self@.dom().contains(h),
        ensures
            *elem == self@[h],
    {
        self.slot_ref(h)
    }

    /// Replace the element of a live slot.
    pub fn set(&mut self, h: usize, elem: TElem)
        requires
            old(self).wf(),
            old(self)@.dom().contains(h),
        ensures
            final(self).wf(),
            final(self)@ == old(self)@.insert(h, elem),
            final(self).slot_count() == old(self).slot_count(),
            final(self).free_list() == old(self).free_list(),
            final(self).chunk_len() == old(self).chunk_len(),
    {
        self.slot_put(h, elem);
        proof {
            assert forall|i: int| 0 <= i < self.chain@.len() implies self.slot(
                (#[trigger] self.chain@[i]) as int,
            ) == old(self).slot(self.chain@[i] as int) by {
                assert(self.chain@.contains(self.chain@[i]));
            }
            assert(self@ =~= old(self)@.insert(h, elem));
        }
    }

    /// Take a slot.  A freed slot is handed out again, as it was left, if
    /// there is one; else the storage grows by one slot, which holds the
    /// element type's default value.
    pub fn alloc_elem(&mut self) -> (h: usize)
        requires
            old(self).wf(),
            old(self).free_list().len() > 0 || old(self).slot_count() + 1 < NIL,
        ensures
            final(self).wf(),
            h != NIL,
            h == (if old(self).free_list().len() > 0 {
                old(self).free_list()[0]
            } else {
                old(self).slot_count() as usize
            }),
            !old(self)@.dom().contains(h),
            final(self)@ == old(self)@.insert(h, final(self)@[h]),
            old(self).free_list().len() > 0 ==> final(self)@[h] == old(self).slot(h as int),
            old(self).free_list().len() == 0 ==> call_ensures(
                TElem::default,
                (),
                final(self)@[h],
            ),
            final(self).free_list() == (if old(self).free_list().len() > 0 {
                old(self).free_list().drop_first()
            } else {
                old(self).free_list()
            }),
            final(self).slot_count() == (if old(self).free_list().len() > 0 {
                old(self).slot_count()
            } else {
                old(self).slot_count() + 1
            }),
            final(self).chunk_len() == old(self).chunk_len(),
    {
        if self.free == NIL {
            let fresh = TElem::default();
            let h = self.slot_push(fresh);
            proof {
                assert(self@ =~= old(self)@.insert(h, fresh));
            }
            h
        } else {
            let h = self.free;
            self.free = self.slot_ref(h).free_ptr_get();
            self.chain = Ghost(self.chain@.drop_first());
            proof {
                self.lemma_unchain(old(self));
            }
            h
        }
    }

    /// Take a slot and fill it with `from`.  A freed slot is handed out again
    /// if there is one; else the storage grows by one slot.
    pub fn alloc_elem_from(&mut self, from: TElem) -> (h: usize)
        requires
            old(self).wf(),
            old(self).free_list().len() > 0 || old(self).slot_count() + 1 < NIL,
        ensures
            final(self).wf(),
            h != NIL,
            h == (if old(self).free_list().len() > 0 {
                old(self).free_list()[0]
            } else {
                old(self).slot_count() as usize
            }),
            !old(self)@.dom().contains(h),
            final(self)@ == old(self)@.insert(h, from),
            final(self).free_list() == (if old(self).free_list().len() > 0 {
                old(self).free_list().drop_first()
            } else {
                old(self).free_list()
            }),
            final(self).slot_count() == (if old(self).free_list().len() > 0 {
                old(self).slot_count()
            } else {
                old(self).slot_count() + 1
            }),
            final(self).chunk_len() == old(self).chunk_len(),
    {
        if self.free == NIL {
            let h = self.slot_push(from);
            proof {
                assert(self@ =~= old(self)@.insert(h, from));
            }
            h
        } else {
            let h = self.free;
            self.free = self.slot_ref(h).free_ptr_get();
            self.chain = Ghost(self.chain@.drop_first());
            proof {
                self.lemma_unchain(old(self));
            }
            let ghost mid = *self;
            self.slot_put(h, from);
            proof {
                assert forall|i: int| 0 <= i < self.chain@.len() implies self.slot(
                    (#[trigger] self.chain@[i]) as int,
                ) == mid.slot(self.chain@[i] as int) by {
                    assert(self.chain@.contains(self.chain@[i]));
                }
                assert(self@ =~= mid@.insert(h, from));
                assert(self@ =~= old(self)@.insert(h, from));
            }
            h
        }
    }

    /// The head of the chain leaves it: what is left is a chain, and the head
    /// is live, holding what its slot held.
    proof fn lemma_unchain(&self, before: &Self)
        requires
            before.wf(),
            before.chain@.len() > 0,
            self.chunks == before.chunks,
            self.chunk_size == before.chunk_size,
            self.free == before.slot(before.chain@[0] as int).free_ptr(),
            self.chain@ == before.chain@.drop_first(),
        ensures
            self.wf(),
            self.slot_count() == before.slot_count(),
            !before@.dom().contains(before.chain@[0]),
            self@.dom().contains(before.chain@[0]),
            self@ == before@.insert(before.chain@[0], before.slot(before.chain@[0] as int)),
    {
        let h = before.chain@[0];
        let rest = before.chain@.drop_first();
        lemma_without_head(before.chain@);
        assert forall|i: int| 0 <= i < rest.len() implies (#[trigger] rest[i])
            < self.slot_count() by {
            assert(rest[i] == before.chain@[i + 1]);
        }
        assert forall|i: int| 0 <= i < rest.len() implies (#[trigger] self.slot(
            rest[i] as int,
        )).free_ptr() == (if i + 1 < rest.len() {
            rest[i + 1]
        } else {
            NIL
        }) by {
            assert(rest[i] == before.chain@[i + 1]);
            assert(before.slot(before.chain@[i + 1] as int).free_ptr() == (if i + 2
                < before.chain@.len() {
                before.chain@[i + 2]
            } else {
                NIL
            }));
        }
        assert(self.chain_wf());
        assert forall|k: usize| #[trigger]
            self@.dom().contains(k) <==> before@.dom().contains(k) || k == h by {
            assert(before.chain@.contains(k) <==> k == h || rest.contains(k));
        }
        assert(self@ =~= before@.insert(h, before.slot(h as int)));
    }

    /// Give a live slot back: it becomes the head of the free chain.  The
    /// storage does not shrink.
    pub fn free_elem(&mut self, h: usize)
        requires
            old(self).wf(),
            old(self)@.dom().contains(h),
        ensures
            final(self).wf(),
            final(self)@ == old(self)@.remove(h),
            final(self).free_list() == seq![h] + old(self).free_list(),
            final(self).slot(h as int).free_ptr() == (if old(self).free_list().len() > 0 {
                old(self).free_list()[0]
            } else {
                NIL
            }),
            final(self).slot_count() == old(self).slot_count(),
            final(self).chunk_len() == old(self).chunk_len(),
    {
        let link = self.free;
        self.slot_link(h, link);
        self.free = h;
        self.chain = Ghost(seq![h] + self.chain@);
        proof {
            let before = old(self).chain@;
            let chain = seq![h] + before;
            assert(!before.contains(h));
            assert forall|i: int| 0 <= i < chain.len() implies (#[trigger] chain[i])
                < self.slot_count() && self.slot(chain[i] as int).free_ptr() == (if i + 1
                < chain.len() {
                chain[i + 1]
            } else {
                NIL
            }) by {
                if i > 0 {
                    let k = before[i - 1];
                    assert(chain[i] == k);
                    assert(before.contains(k));
                    assert(k != h);
                    assert(k < old(self).slot_count());
                    assert(self.slot(k as int) == old(self).slot(k as int));
                    assert(old(self).slot(before[i - 1] as int).free_ptr() == (if i
                        < before.len() {
                        before[i]
                    } else {
                        NIL
                    }));
                }
            }
            assert(chain.no_duplicates());
            assert forall|k: usize| chain.contains(k) <==> k == h || before.contains(k) by {
                if before.contains(k) {
                    let i = choose|i: int| 0 <= i < before.len() && before[i] == k;
                    assert(chain[i + 1] == k);
                }
                if chain.contains(k) && k != h {
                    let i = choose|i: int| 0 <= i < chain.len() && chain[i] == k;
                    assert(before[i - 1] == k);
                }
                assert(chain[0] == h);
            }
            assert(self@ =~= old(self)@.remove(h));
        }
    }

    /// Forget every element: the pool keeps one chunk, which is empty, and
    /// no freed slot.
    pub fn clear(&mut self)
        requires
            old(self).wf(),
        ensures
            final(self).wf(),
            final(self)@ == Map::<usize, TElem>::empty(),
            final(self).slot_count() == 0,
            final(self).free_list() == Seq::<usize>::empty(),
            final(self).chunk_len() == old(self).chunk_len(),
    {
        proof {
            reveal(chunks_ok);
            reveal(count_of);
        }
        self.chunks.truncate(1);
        self.chunks[0].data.clear();
        self.free = NIL;
        self.chain = Ghost(Seq::empty());
        proof {
            assert(self.chunks.len() == 1);
            assert((self.chunks.len() - 1) * self.chunk_size == 0) by (nonlinear_arith)
                requires
                    self.chunks.len() == 1,
            ;
            assert(self@ =~= Map::<usize, TElem>::empty());
        }
    }
}

} // verus!
