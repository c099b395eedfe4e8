use cowvec::{CowVec, MASK, NODE_SIZE, SHIFT};

fn filled(n: usize) -> CowVec {
    let mut v = CowVec::new();
    for i in 0..n {
        v.push(i);
    }
    v
}

fn contents(v: &CowVec) -> Vec<usize> {
    let mut out = Vec::new();
    for i in 0..v.len() {
        out.push(*v.get(i));
    }
    out
}

#[test]
fn push_pop() {
    let mut v = CowVec::new();
    let n = 3 * NODE_SIZE + NODE_SIZE / 2;
    for i in 0..n {
        v.push(i);
    }
    for i in 0..n {
        assert!(v.pop() == Some(n - 1 - i));
    }
    assert!(v.pop() == None);
}

#[test]
fn push_set_get() {
    let mut v = CowVec::new();
    let n = 3 * NODE_SIZE + NODE_SIZE / 2;

    for i in 0..n {
        v.push(i);
    }
    for i in 0..n {
        if i % 2 == 0 {
            *v.get_mut(i) = i / 2;
        }
    }
    for i in 0..n {
        let expected = if i % 2 == 0 { i / 2 } else { i };
        assert!(v.get(i) == &expected);
    }
}

#[test]
fn swap_remove() {
    let mut v = CowVec::new();
    let h = 3 * NODE_SIZE;
    let n = 2 * h;

    for i in 0..n {
        v.push(i);
    }

    for i in 0..h {
        assert!(v.swap_remove(i) == i);
        assert!(v.get(i) == &(n - 1 - i));
    }
}

#[test]
fn constants_agree() {
    assert_eq!(NODE_SIZE, 32);
    assert_eq!(SHIFT, 5);
    assert_eq!(MASK, 31);
    assert_eq!(1usize << SHIFT, NODE_SIZE);
}

#[test]
fn new_is_empty() {
    let mut v = CowVec::new();
    assert_eq!(v.len(), 0);
    assert_eq!(v.pop(), None);
    assert_eq!(v.len(), 0);
    assert_eq!(v.pop(), None);
    assert_eq!(v.len(), 0);
}

#[test]
fn len_counts_pushes_and_pops() {
    let mut v = CowVec::new();
    for i in 0..200 {
        assert_eq!(v.len(), i);
        v.push(7 * i);
    }
    for i in 0..200 {
        assert_eq!(v.len(), 200 - i);
        assert_eq!(v.pop(), Some(7 * (199 - i)));
    }
    assert_eq!(v.len(), 0);
}

#[test]
fn pop_of_104_pushes_in_reverse() {
    let mut v = filled(104);
    for i in 0..104 {
        assert_eq!(v.pop(), Some(103 - i));
    }
    assert_eq!(v.pop(), None);
}

#[test]
fn single_element_round_trip() {
    let mut v = CowVec::new();
    v.push(42);
    assert_eq!(v.len(), 1);
    assert_eq!(*v.get(0), 42);
    assert_eq!(v.pop(), Some(42));
    assert_eq!(v.len(), 0);
    v.push(43);
    assert_eq!(*v.get(0), 43);
}

#[test]
fn tail_becomes_bare_root_then_is_wrapped() {
    let mut v = filled(NODE_SIZE);
    assert_eq!(v.len(), 32);
    assert_eq!(contents(&v), (0..32).collect::<Vec<usize>>());
    // One more: the full tail is committed as the root.
    v.push(32);
    assert_eq!(v.len(), 33);
    assert_eq!(contents(&v), (0..33).collect::<Vec<usize>>());
    // The next overflow wraps the root in an internal node.
    for i in 33..65 {
        v.push(i);
    }
    assert_eq!(v.len(), 65);
    assert_eq!(contents(&v), (0..65).collect::<Vec<usize>>());
    // And back down again.
    assert_eq!(v.pop(), Some(64));
    assert_eq!(contents(&v), (0..64).collect::<Vec<usize>>());
    for i in (32..64).rev() {
        assert_eq!(v.pop(), Some(i));
    }
    assert_eq!(v.len(), 32);
    assert_eq!(contents(&v), (0..32).collect::<Vec<usize>>());
    for i in (0..32).rev() {
        assert_eq!(v.pop(), Some(i));
    }
    assert_eq!(v.pop(), None);
}

#[test]
fn every_length_reads_back() {
    let mut v = CowVec::new();
    for n in 0..1200 {
        assert_eq!(v.len(), n);
        if n % 37 == 0 || n % 32 <= 1 {
            assert_eq!(contents(&v), (0..n).collect::<Vec<usize>>());
        }
        v.push(n);
    }
}

#[test]
fn second_branch_fills_and_a_third_starts() {
    // 2 * 1024 elements in the trie and a full tail; the next push has to
    // open a third branch below the root.
    let n = 2 * 1024 + 32;
    let mut v = filled(n);
    assert_eq!(v.len(), 2080);
    v.push(n);
    assert_eq!(v.len(), 2081);
    for i in 0..=n {
        assert_eq!(*v.get(i), i);
    }
    for i in (0..=n).rev() {
        assert_eq!(v.pop(), Some(i));
    }
    assert_eq!(v.pop(), None);
}

#[test]
fn three_levels_push_get_set_pop() {
    // 32 * 1024 elements fill a root of depth 2; go past that.
    let n = 32 * 1024 + 32 + 1500;
    let mut v = filled(n);
    assert_eq!(v.len(), n);
    for i in 0..n {
        assert_eq!(*v.get(i), i);
    }
    for i in (0..n).step_by(3) {
        *v.get_mut(i) = n + i;
    }
    for i in 0..n {
        let expected = if i % 3 == 0 { n + i } else { i };
        assert_eq!(*v.get(i), expected);
    }
    for i in (0..n).rev() {
        let expected = if i % 3 == 0 { n + i } else { i };
        assert_eq!(v.pop(), Some(expected));
        assert_eq!(v.len(), i);
    }
    assert_eq!(v.pop(), None);
}

#[test]
fn pop_then_push_across_every_boundary() {
    let mut v = filled(1100);
    for _ in 0..5 {
        for i in (1000..1100).rev() {
            assert_eq!(v.pop(), Some(i));
        }
        assert_eq!(v.len(), 1000);
        for i in 1000..1100 {
            v.push(i);
        }
        assert_eq!(contents(&v), (0..1100).collect::<Vec<usize>>());
    }
}

#[test]
fn get_mut_reads_then_writes() {
    let mut v = filled(100);
    {
        let slot = v.get_mut(40);
        assert_eq!(*slot, 40);
        *slot = 4000;
    }
    {
        let slot = v.get_mut(99);
        assert_eq!(*slot, 99);
        *slot = 9900;
    }
    for i in 0..100 {
        let expected = match i {
            40 => 4000,
            99 => 9900,
            _ => i,
        };
        assert_eq!(*v.get(i), expected);
    }
    assert_eq!(v.len(), 100);
}

#[test]
fn swap_remove_last_index_is_pop() {
    let mut v = filled(70);
    assert_eq!(v.swap_remove(69), 69);
    assert_eq!(v.len(), 69);
    assert_eq!(contents(&v), (0..69).collect::<Vec<usize>>());
    let mut one = filled(1);
    assert_eq!(one.swap_remove(0), 0);
    assert_eq!(one.len(), 0);
    assert_eq!(one.pop(), None);
}

#[test]
fn swap_remove_moves_last_into_place() {
    let mut v = filled(10);
    assert_eq!(v.swap_remove(3), 3);
    assert_eq!(contents(&v), vec![0, 1, 2, 9, 4, 5, 6, 7, 8]);
    assert_eq!(v.swap_remove(0), 0);
    assert_eq!(contents(&v), vec![8, 1, 2, 9, 4, 5, 6, 7]);
    assert_eq!(v.swap_remove(6), 6);
    assert_eq!(contents(&v), vec![8, 1, 2, 9, 4, 5, 7]);
}

#[test]
fn swap_remove_in_trie_with_single_tail_element() {
    // 65 elements: two leaves in the trie, one element in the tail.
    let mut v = filled(65);
    assert_eq!(v.swap_remove(5), 5);
    assert_eq!(v.len(), 64);
    assert_eq!(*v.get(5), 64);
    for i in 0..64 {
        if i != 5 {
            assert_eq!(*v.get(i), i);
        }
    }
}

#[test]
fn clone_is_unchanged_by_get_mut() {
    let mut v = filled(3000);
    let snapshot = v.clone();
    let before = contents(&snapshot);
    for i in (0..3000).step_by(7) {
        *v.get_mut(i) = 1_000_000 + i;
    }
    assert_eq!(contents(&snapshot), before);
    assert_eq!(before, (0..3000).collect::<Vec<usize>>());
    for i in 0..3000 {
        let expected = if i % 7 == 0 { 1_000_000 + i } else { i };
        assert_eq!(*v.get(i), expected);
    }
}

#[test]
fn clone_is_unchanged_by_push_and_pop() {
    let mut v = filled(1056);
    let snapshot = v.clone();
    let before = contents(&snapshot);
    for i in 0..2000 {
        v.push(5000 + i);
    }
    assert_eq!(snapshot.len(), 1056);
    assert_eq!(contents(&snapshot), before);
    for _ in 0..3000 {
        v.pop();
    }
    assert_eq!(v.len(), 56);
    assert_eq!(contents(&v), (0..56).collect::<Vec<usize>>());
    assert_eq!(snapshot.len(), 1056);
    assert_eq!(contents(&snapshot), before);
}

#[test]
fn source_is_unchanged_by_writes_to_its_clone() {
    let v = filled(200);
    let mut copy = v.clone();
    *copy.get_mut(199) = 0;
    *copy.get_mut(0) = 199;
    copy.push(200);
    assert_eq!(copy.swap_remove(100), 100);
    assert_eq!(contents(&v), (0..200).collect::<Vec<usize>>());
    assert_eq!(copy.len(), 200);
    assert_eq!(*copy.get(0), 199);
    assert_eq!(*copy.get(100), 200);
    assert_eq!(*copy.get(199), 0);
}

#[test]
fn clones_of_clones_diverge_independently() {
    let a = filled(70);
    let mut b = a.clone();
    b.push(70);
    let mut c = b.clone();
    assert_eq!(c.pop(), Some(70));
    assert_eq!(c.pop(), Some(69));
    *b.get_mut(1) = 111;
    assert_eq!(contents(&a), (0..70).collect::<Vec<usize>>());
    assert_eq!(b.len(), 71);
    assert_eq!(*b.get(1), 111);
    assert_eq!(*b.get(70), 70);
    assert_eq!(contents(&c), (0..69).collect::<Vec<usize>>());
}

#[test]
fn empty_clone_is_independent() {
    let v = CowVec::new();
    let mut w = v.clone();
    w.push(1);
    assert_eq!(v.len(), 0);
    assert_eq!(w.len(), 1);
    assert_eq!(*w.get(0), 1);
}

#[test]
fn debug_output_names_the_type() {
    let v = filled(40);
    let text = format!("{:?}", v);
    assert!(text.starts_with("CowVec"));
    assert!(text.contains("len: 40"));
    assert!(text.contains("depth: 0"));
}

#[test]
fn get_reads_tail_and_trie() {
    // 1024 + 32 + 5 elements: index 0 lies two levels down, index 1055
    // in the last leaf of the trie, index 1056 in the tail.
    let v = filled(1061);
    assert_eq!(*v.get(0), 0);
    assert_eq!(*v.get(31), 31);
    assert_eq!(*v.get(32), 32);
    assert_eq!(*v.get(1023), 1023);
    assert_eq!(*v.get(1024), 1024);
    assert_eq!(*v.get(1055), 1055);
    assert_eq!(*v.get(1056), 1056);
    assert_eq!(*v.get(1060), 1060);
}

#[test]
fn swap_remove_front_half_of_odd_length() {
    let n = 67;
    let mut v = filled(n);
    for i in 0..n / 2 {
        assert_eq!(v.swap_remove(i), i);
        assert_eq!(*v.get(i), n - 1 - i);
    }
    assert_eq!(v.len(), n - n / 2);
    let mut expected: Vec<usize> = (0..n / 2).map(|i| n - 1 - i).collect();
    expected.push(n / 2);
    assert_eq!(contents(&v), expected);
}
