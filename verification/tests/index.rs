use rangetree::rb::{get_or_lower, get_or_upper, insert_root, is_balanced, remove_root};
use rangetree::{MemPool, Node, NIL};

fn node(key: i32) -> Node<i32> {
    Node { next: NIL, prev: NIL, range: [key, key], left: NIL, right: NIL, color: false }
}

/// The keys of the tree below `root`, from left to right.
fn keys_in_order(pool: &MemPool<Node<i32>>, root: usize, out: &mut Vec<i32>) {
    if root != NIL {
        let n = *pool.get(root);
        keys_in_order(pool, n.left, out);
        out.push(n.range[0]);
        keys_in_order(pool, n.right, out);
    }
}

/// No red right child, and no red node with a red left child.
fn colors_ok(pool: &MemPool<Node<i32>>, root: usize) -> bool {
    if root == NIL {
        return true;
    }
    let n = *pool.get(root);
    let red = |h: usize| h != NIL && !pool.get(h).color;
    if red(n.right) {
        return false;
    }
    if red(root) && red(n.left) {
        return false;
    }
    colors_ok(pool, n.left) && colors_ok(pool, n.right)
}

fn build(keys: &[i32]) -> (MemPool<Node<i32>>, usize, Vec<usize>) {
    let mut pool: MemPool<Node<i32>> = MemPool::new(4);
    let mut root = NIL;
    let mut handles = Vec::new();
    for k in keys {
        let h = pool.alloc_elem_from(node(*k));
        root = insert_root(&mut pool, root, h);
        handles.push(h);
    }
    (pool, root, handles)
}

#[test]
fn index_empty_tree() {
    let pool: MemPool<Node<i32>> = MemPool::new(4);
    assert!(is_balanced(&pool, NIL));
    assert_eq!(get_or_lower(&pool, NIL, &5), NIL);
    assert_eq!(get_or_upper(&pool, NIL, &5), NIL);
}

#[test]
fn index_insert_one() {
    let (pool, root, handles) = build(&[7]);
    assert_eq!(root, handles[0]);
    // the root is black
    assert!(pool.get(root).color);
    assert_eq!(pool.get(root).left, NIL);
    assert_eq!(pool.get(root).right, NIL);
    assert!(is_balanced(&pool, root));
}

#[test]
fn index_insert_ascending_leans_left() {
    // 1, 2, 3 in this order: 2 comes to the root, with two black children
    let (pool, root, handles) = build(&[1, 2, 3]);
    assert_eq!(root, handles[1]);
    let n = *pool.get(root);
    assert_eq!(n.left, handles[0]);
    assert_eq!(n.right, handles[2]);
    assert!(n.color);
    assert!(pool.get(n.left).color);
    assert!(pool.get(n.right).color);

    // 1, 2: 2 at the root, red 1 to its left
    let (pool, root, handles) = build(&[1, 2]);
    assert_eq!(root, handles[1]);
    assert_eq!(pool.get(root).left, handles[0]);
    assert_eq!(pool.get(root).right, NIL);
    assert!(!pool.get(handles[0]).color);
}

#[test]
fn index_balanced_after_every_insert_and_remove() {
    let keys: Vec<i32> = (0..200).map(|i| (i * 37) % 211 - 100).collect();
    let mut pool: MemPool<Node<i32>> = MemPool::new(8);
    let mut root = NIL;
    let mut handles = Vec::new();
    let mut expect: Vec<i32> = Vec::new();
    for k in &keys {
        let h = pool.alloc_elem_from(node(*k));
        root = insert_root(&mut pool, root, h);
        handles.push(h);
        expect.push(*k);
        expect.sort();
        assert!(is_balanced(&pool, root));
        assert!(colors_ok(&pool, root));
        assert!(pool.get(root).color);
        let mut got = Vec::new();
        keys_in_order(&pool, root, &mut got);
        assert_eq!(got, expect);
    }
    // take them out in another order
    for i in 0..200 {
        let at = (i * 73) % 200;
        let h = handles[at];
        let k = keys[at];
        root = remove_root(&mut pool, root, h);
        let place = expect.iter().position(|x| *x == k).unwrap();
        expect.remove(place);
        assert!(is_balanced(&pool, root));
        assert!(colors_ok(&pool, root));
        if root != NIL {
            assert!(pool.get(root).color);
        }
        let mut got = Vec::new();
        keys_in_order(&pool, root, &mut got);
        assert_eq!(got, expect);
    }
    assert_eq!(root, NIL);
}

#[test]
fn index_remove_only_node() {
    let (mut pool, root, handles) = build(&[3]);
    let root = remove_root(&mut pool, root, handles[0]);
    assert_eq!(root, NIL);
    assert!(is_balanced(&pool, root));
}

#[test]
fn index_remove_root_with_two_children() {
    let (mut pool, root, handles) = build(&[1, 2, 3]);
    // the successor, 3, takes the place of 2
    let root = remove_root(&mut pool, root, handles[1]);
    assert_eq!(root, handles[2]);
    assert_eq!(pool.get(root).left, handles[0]);
    assert_eq!(pool.get(root).right, NIL);
    assert!(pool.get(root).color);
    assert!(!pool.get(handles[0]).color);
    assert!(is_balanced(&pool, root));
}

#[test]
fn index_remove_keeps_list_links_and_ranges() {
    let mut pool: MemPool<Node<i32>> = MemPool::new(4);
    let mut root = NIL;
    let mut handles = Vec::new();
    for k in 0..10 {
        let mut n = node(k * 10);
        n.range = [k * 10, k * 10 + 5];
        n.next = 1000 + k as usize;
        n.prev = 2000 + k as usize;
        let h = pool.alloc_elem_from(n);
        root = insert_root(&mut pool, root, h);
        handles.push(h);
    }
    root = remove_root(&mut pool, root, handles[4]);
    root = remove_root(&mut pool, root, handles[0]);
    assert!(is_balanced(&pool, root));
    for k in 0..10 {
        let n = *pool.get(handles[k]);
        assert_eq!(n.range, [k as i32 * 10, k as i32 * 10 + 5]);
        assert_eq!(n.next, 1000 + k);
        assert_eq!(n.prev, 2000 + k);
    }
}

#[test]
fn index_get_or_lower() {
    let (pool, root, handles) = build(&[10, 20, 30, 40, 50]);
    assert_eq!(get_or_lower(&pool, root, &9), NIL);
    assert_eq!(get_or_lower(&pool, root, &10), handles[0]);
    assert_eq!(get_or_lower(&pool, root, &11), handles[0]);
    assert_eq!(get_or_lower(&pool, root, &29), handles[1]);
    assert_eq!(get_or_lower(&pool, root, &30), handles[2]);
    assert_eq!(get_or_lower(&pool, root, &49), handles[3]);
    assert_eq!(get_or_lower(&pool, root, &50), handles[4]);
    assert_eq!(get_or_lower(&pool, root, &1000), handles[4]);
}

#[test]
fn index_get_or_upper() {
    let (pool, root, handles) = build(&[10, 20, 30, 40, 50]);
    assert_eq!(get_or_upper(&pool, root, &-5), handles[0]);
    assert_eq!(get_or_upper(&pool, root, &10), handles[0]);
    assert_eq!(get_or_upper(&pool, root, &11), handles[1]);
    assert_eq!(get_or_upper(&pool, root, &30), handles[2]);
    assert_eq!(get_or_upper(&pool, root, &31), handles[3]);
    assert_eq!(get_or_upper(&pool, root, &50), handles[4]);
    assert_eq!(get_or_upper(&pool, root, &51), NIL);
}

#[test]
fn index_is_balanced_tells_an_unbalanced_tree() {
    // two black nodes in a row to the left of the root, none to the right
    let mut pool: MemPool<Node<i32>> = MemPool::new(4);
    let a = pool.alloc_elem_from(Node { color: true, ..node(1) });
    let b = pool.alloc_elem_from(Node { color: true, left: a, ..node(2) });
    assert!(!is_balanced(&pool, b));
    // a red child does not count
    let mut pool: MemPool<Node<i32>> = MemPool::new(4);
    let a = pool.alloc_elem_from(Node { color: false, ..node(1) });
    let b = pool.alloc_elem_from(Node { color: true, left: a, ..node(2) });
    assert!(is_balanced(&pool, b));
    // more black nodes on the right than on the leftmost path
    let mut pool: MemPool<Node<i32>> = MemPool::new(4);
    let c = pool.alloc_elem_from(Node { color: true, ..node(3) });
    let b = pool.alloc_elem_from(Node { color: true, right: c, ..node(2) });
    assert!(!is_balanced(&pool, b));
}
