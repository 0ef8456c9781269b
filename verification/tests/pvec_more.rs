use pvec::node::{no_children, Node};
use pvec::{Index, PVec, Shift, BITS_PER_LEVEL, BRANCH_FACTOR};

#[test]
fn constants_describe_a_32_way_trie() {
    assert_eq!(BRANCH_FACTOR, 32);
    assert_eq!(BITS_PER_LEVEL, 5);
    assert_eq!(1usize << BITS_PER_LEVEL, BRANCH_FACTOR);
}

#[test]
fn shift_inc_then_dec_is_identity() {
    let s = Shift(10);
    assert_eq!(s.inc().0, 15);
    assert_eq!(s.dec().0, 5);
    assert_eq!(s.inc().dec(), s);
}

#[test]
fn index_digits_of_a_large_position() {
    // 0b00011_00010_00001 = 3 * 1024 + 2 * 32 + 1
    let index = Index(3 * 1024 + 2 * 32 + 1);
    assert_eq!(index.element(), 1);
    assert_eq!(index.child(Shift(0)), 1);
    assert_eq!(index.child(Shift(5)), 2);
    assert_eq!(index.child(Shift(10)), 3);
    assert_eq!(index.child(Shift(15)), 0);
    // only the five bits of the level count
    assert_eq!(Index(0b11111_11111).child(Shift(5)), 31);
    assert_eq!(Index(32 * 33).child(Shift(5)), 1);
}

#[test]
fn new_vector_is_empty() {
    let mut v: PVec<u32> = PVec::new();
    assert_eq!(v.len(), 0);
    assert_eq!(v.get(0), None);
    assert_eq!(v.get(31), None);
    assert_eq!(v.get_mut(5), None);
    assert_eq!(v.pop(), None);
    assert_eq!(v.len(), 0);
}

#[test]
fn get_past_the_end_in_the_last_block_is_none() {
    let mut v = PVec::new();
    for i in 0..40u64 {
        v.push(i);
    }
    assert_eq!(v.len(), 40);
    assert_eq!(v.get(39), Some(&39));
    assert_eq!(v.get(40), None);
    assert_eq!(v.get(63), None);
}

#[test]
fn push_then_get_reads_the_pushed_element() {
    let mut v = PVec::new();
    for i in 0..100usize {
        v.push(i * 3);
        assert_eq!(v.len(), i + 1);
        assert_eq!(v.get(i), Some(&(i * 3)));
    }
    for i in 0..100usize {
        assert_eq!(v.get(i), Some(&(i * 3)));
    }
}

#[test]
fn pop_after_push_returns_the_pushed_element() {
    let mut v = PVec::new();
    for i in 0..31i32 {
        v.push(i);
    }
    // within a block
    v.push(100);
    assert_eq!(v.pop(), Some(100));
    assert_eq!(v.len(), 31);
    // completing a block moves it into the trie; the pop brings it back
    v.push(31);
    assert_eq!(v.len(), 32);
    v.push(200);
    assert_eq!(v.pop(), Some(200));
    assert_eq!(v.pop(), Some(31));
    assert_eq!(v.len(), 31);
    for i in 0..31i32 {
        assert_eq!(v.get(i as usize), Some(&i));
    }
}

#[test]
fn pop_returns_elements_in_reverse_order_across_levels() {
    let n = 32 * 32 + 70;
    let mut v = PVec::new();
    for i in 0..n {
        v.push(i);
    }
    assert_eq!(v.len(), n);
    for i in 0..n {
        assert_eq!(v.get(i), Some(&i));
    }
    for i in (0..n).rev() {
        assert_eq!(v.pop(), Some(i));
        assert_eq!(v.len(), i);
    }
    assert_eq!(v.pop(), None);
    // the emptied vector works as a new one
    for i in 0..70 {
        v.push(i + 1);
    }
    for i in 0..70 {
        assert_eq!(v.get(i), Some(&(i + 1)));
    }
}

#[test]
fn three_levels_hold_every_element() {
    let n = 32 * 32 * 32 + 33;
    let mut v = PVec::new();
    for i in 0..n {
        v.push(i as u32);
    }
    for i in (0..n).step_by(97) {
        assert_eq!(v.get(i), Some(&(i as u32)));
    }
    assert_eq!(v.get(n - 1), Some(&((n - 1) as u32)));
    for _ in 0..40 {
        v.pop();
    }
    assert_eq!(v.len(), n - 40);
    assert_eq!(v.get(n - 41), Some(&((n - 41) as u32)));
}

#[test]
fn get_mut_writes_are_read_back() {
    let mut v = PVec::new();
    for i in 0..70u64 {
        v.push(i);
    }
    // in the trie
    *v.get_mut(5).unwrap() = 500;
    // in the tail
    *v.get_mut(65).unwrap() = 6500;
    assert_eq!(v.get(5), Some(&500));
    assert_eq!(v.get(65), Some(&6500));
    assert_eq!(v.get(4), Some(&4));
    assert_eq!(v.get(6), Some(&6));
    assert_eq!(v.get(64), Some(&64));
    assert_eq!(v.get_mut(70), None);
    assert_eq!(v.len(), 70);
}

#[test]
fn clones_do_not_see_later_changes() {
    let mut v = PVec::new();
    for i in 0..100u64 {
        v.push(i);
    }
    let snapshot = v.clone();
    *v.get_mut(10).unwrap() = 1000;
    *v.get_mut(90).unwrap() = 9000;
    v.pop();
    v.push(77);
    assert_eq!(snapshot.get(10), Some(&10));
    assert_eq!(snapshot.get(90), Some(&90));
    assert_eq!(snapshot.get(99), Some(&99));
    assert_eq!(snapshot.len(), 100);
    assert_eq!(v.get(10), Some(&1000));
    assert_eq!(v.get(90), Some(&9000));
    assert_eq!(v.get(99), Some(&77));
    let mut other = snapshot.clone();
    for _ in 0..50 {
        other.pop();
    }
    assert_eq!(other.len(), 50);
    assert_eq!(snapshot.len(), 100);
    assert_eq!(snapshot.get(60), Some(&60));
}

#[test]
fn strings_can_be_stored() {
    let mut v = PVec::new();
    for i in 0..40 {
        v.push(format!("item {}", i));
    }
    let copy = v.clone();
    v.get_mut(3).unwrap().push_str("!");
    assert_eq!(v.get(3).map(|s| s.as_str()), Some("item 3!"));
    assert_eq!(copy.get(3).map(|s| s.as_str()), Some("item 3"));
    assert_eq!(v.pop().as_deref(), Some("item 39"));
}

#[test]
fn equal_contents_compare_equal() {
    let mut a = PVec::new();
    let mut b = PVec::new();
    for i in 0..50 {
        a.push(i);
        b.push(i);
    }
    assert_eq!(a, b);
    b.pop();
    assert_ne!(a, b);
}

#[test]
fn push_after_pop_restores_the_vector() {
    let mut v = PVec::new();
    for i in 0..45u16 {
        v.push(i);
    }
    let before = v.clone();
    let last = v.pop().unwrap();
    assert_eq!(last, 44);
    assert_eq!(v.len(), 44);
    v.push(last);
    assert_eq!(v.len(), before.len());
    for i in 0..45 {
        assert_eq!(v.get(i), before.get(i));
    }
}

#[test]
fn shifts_and_indices_compare_with_numbers() {
    assert!(Shift(5) == 5usize);
    assert!(Shift(5) != 10usize);
    assert!(Shift(5) < 10usize);
    assert!(Shift(15) > 10usize);
    assert!(Index(141) == 141usize);
    assert!(Index(3) <= 3usize);
    assert!(Index(3) < 4usize);
    assert_eq!(Index(7).partial_cmp(&7usize), Some(std::cmp::Ordering::Equal));
}

#[test]
fn index_and_index_mut_reach_every_element() {
    let mut v = PVec::new();
    for i in 0..80i64 {
        v.push(i);
    }
    assert_eq!(*v.index(0), 0);
    assert_eq!(*v.index(79), 79);
    *v.index_mut(40) = -40;
    *v.index_mut(79) = -79;
    assert_eq!(*v.index(40), -40);
    assert_eq!(*v.index(79), -79);
    assert_eq!(*v.index(41), 41);
}

#[test]
fn node_push_tail_builds_the_missing_path() {
    let mut n: Node<usize> = Node::Branch { children: no_children() };
    let mut tail = no_children();
    for j in 0..32 {
        tail[j] = Some(j);
    }
    n.push_tail(Index(32), Shift(10), tail);
    assert_eq!(n.get(Index(32), Shift(10)), Some(&0));
    assert_eq!(n.get(Index(40), Shift(10)), Some(&8));
    assert_eq!(n.get(Index(63), Shift(10)), Some(&31));
    // a block with empty slots is stored as it is
    let mut partial = no_children();
    partial[1] = Some(100);
    n.push_tail(Index(2048), Shift(10), partial);
    assert_eq!(n.get(Index(2049), Shift(10)), Some(&100));
    assert_eq!(n.get(Index(2048), Shift(10)), None);
    // popping the leaf gives its elements back and empties its slot
    let back = n.pop_tail(Index(32), Shift(10));
    assert_eq!(back[8], Some(8));
    assert_eq!(n.get(Index(2049), Shift(10)), Some(&100));
}

#[test]
fn pushes_and_pops_match_a_vec() {
    let mut v = PVec::new();
    let mut m: Vec<u64> = Vec::new();
    let mut x: u64 = 7;
    for step in 0..5000u64 {
        // a simple deterministic mix that grows overall but pops in runs
        x = x.wrapping_mul(6364136223846793005).wrapping_add(1442695040888963407);
        if (x >> 33) % 3 == 0 {
            assert_eq!(v.pop(), m.pop());
        } else {
            v.push(step);
            m.push(step);
        }
        assert_eq!(v.len(), m.len());
    }
    for i in 0..m.len() {
        assert_eq!(v.get(i), m.get(i));
    }
    while let Some(e) = m.pop() {
        assert_eq!(v.pop(), Some(e));
    }
    assert_eq!(v.pop(), None);
}
