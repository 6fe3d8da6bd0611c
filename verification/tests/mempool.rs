use rangetree::{MemElemUtils, MemPool, NIL};

#[derive(Clone, Copy)]
struct TestElem {
    value: usize,
    link: usize,
}

impl MemElemUtils for TestElem {
    fn free_ptr(&self) -> usize {
        self.link
    }
    fn free_ptr_get(&self) -> usize {
        return self.link;
    }
    fn free_ptr_set(&mut self, ptr: usize) {
        self.link = ptr;
    }
}

impl Default for TestElem {
    fn default() -> TestElem {
        TestElem {
            value: 0,
            link: NIL,
        }
    }
}

fn set_value(p: &mut MemPool<TestElem>, h: usize, value: usize) {
    let mut e = *p.get(h);
    e.value = value;
    p.set(h, e);
}

fn set_link(p: &mut MemPool<TestElem>, h: usize, link: usize) {
    let mut e = *p.get(h);
    e.link = link;
    p.set(h, e);
}

#[test]
fn test_mempool() {
    let total = 128;
    let chunk_size = 2;
    let mut p: MemPool<TestElem> = MemPool::new(chunk_size);

    for _ in 0..2 {
        let mut a = p.alloc_elem();
        set_value(&mut p, a, 0);
        for i in 1..total {
            let a_next = p.alloc_elem();
            let a_prev = a;
            a = a_next;
            set_value(&mut p, a, i);
            set_link(&mut p, a, a_prev);
        }

        for i in (0..total).rev() {
            assert!(p.get(a).value == i);
            let a_next = p.get(a).link;
            p.free_elem(a);
            a = a_next;
        }
    }
}

#[test]
fn mempool_handles_count_up_from_zero() {
    let mut p: MemPool<TestElem> = MemPool::new(3);
    for i in 0..10 {
        let h = p.alloc_elem_from(TestElem { value: i * 7, link: NIL });
        assert_eq!(h, i);
    }
    for i in 0..10 {
        assert_eq!(p.get(i).value, i * 7);
    }
}

#[test]
fn mempool_alloc_elem_gives_default() {
    let mut p: MemPool<TestElem> = MemPool::new(2);
    let h = p.alloc_elem();
    assert_eq!(p.get(h).value, 0);
    assert_eq!(p.get(h).link, NIL);
}

#[test]
fn mempool_freed_slots_come_back_last_first() {
    let mut p: MemPool<TestElem> = MemPool::new(4);
    let a = p.alloc_elem_from(TestElem { value: 1, link: NIL });
    let b = p.alloc_elem_from(TestElem { value: 2, link: NIL });
    let c = p.alloc_elem_from(TestElem { value: 3, link: NIL });
    assert_eq!((a, b, c), (0, 1, 2));
    p.free_elem(a);
    p.free_elem(c);
    // the slot freed last is handed out first
    assert_eq!(p.alloc_elem_from(TestElem { value: 4, link: NIL }), c);
    assert_eq!(p.alloc_elem_from(TestElem { value: 5, link: NIL }), a);
    // no freed slot is left: the storage grows
    assert_eq!(p.alloc_elem_from(TestElem { value: 6, link: NIL }), 3);
    assert_eq!(p.get(c).value, 4);
    assert_eq!(p.get(a).value, 5);
    assert_eq!(p.get(b).value, 2);
    assert_eq!(p.get(3).value, 6);
}

#[test]
fn mempool_alloc_elem_hands_out_freed_slot_as_it_was_left() {
    let mut p: MemPool<TestElem> = MemPool::new(2);
    let a = p.alloc_elem_from(TestElem { value: 41, link: NIL });
    p.free_elem(a);
    let b = p.alloc_elem();
    assert_eq!(a, b);
    assert_eq!(p.get(b).value, 41);
}

#[test]
fn mempool_set_replaces_one_element() {
    let mut p: MemPool<TestElem> = MemPool::new(2);
    let a = p.alloc_elem_from(TestElem { value: 1, link: NIL });
    let b = p.alloc_elem_from(TestElem { value: 2, link: NIL });
    let c = p.alloc_elem_from(TestElem { value: 3, link: NIL });
    p.set(b, TestElem { value: 20, link: a });
    assert_eq!(p.get(a).value, 1);
    assert_eq!(p.get(b).value, 20);
    assert_eq!(p.get(b).link, a);
    assert_eq!(p.get(c).value, 3);
}

#[test]
fn mempool_clear_starts_over() {
    let mut p: MemPool<TestElem> = MemPool::new(2);
    for i in 0..7 {
        p.alloc_elem_from(TestElem { value: i, link: NIL });
    }
    p.free_elem(3);
    p.clear();
    // neither the old slots nor the freed one are left
    assert_eq!(p.alloc_elem_from(TestElem { value: 100, link: NIL }), 0);
    assert_eq!(p.alloc_elem_from(TestElem { value: 101, link: NIL }), 1);
    assert_eq!(p.alloc_elem_from(TestElem { value: 102, link: NIL }), 2);
    assert_eq!(p.get(0).value, 100);
    assert_eq!(p.get(2).value, 102);
}

#[test]
fn mempool_chunk_of_one() {
    let mut p: MemPool<TestElem> = MemPool::new(1);
    for i in 0..5 {
        assert_eq!(p.alloc_elem_from(TestElem { value: i + 1, link: NIL }), i);
    }
    for i in 0..5 {
        assert_eq!(p.get(i).value, i + 1);
    }
}
