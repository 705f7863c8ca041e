use dllist::DLList;

/// Full positional traversal: read every value through `get`, head first.
fn contents(l: &DLList<i32>) -> Vec<i32> {
    let mut out = Vec::new();
    let mut i: usize = 0;
    while let Some(v) = l.get(i) {
        out.push(*v);
        i += 1;
    }
    out
}

#[test]
fn demo_scenario() {
    let mut a = DLList::new();
    assert_eq!(a.len(), 0);
    a.append(8);
    assert_eq!(contents(&a), vec![8]);
    a.prepend(16);
    assert_eq!(contents(&a), vec![16, 8]);
    a.insert_at(32, 1);
    assert_eq!(contents(&a), vec![16, 32, 8]);
    a.insert_at(64, 1);
    assert_eq!(contents(&a), vec![16, 64, 32, 8]);
    assert_eq!(a.remove_at(2), Some(32));
    assert_eq!(contents(&a), vec![16, 64, 8]);
    assert_eq!(a.remove_at(2), Some(8));
    assert_eq!(contents(&a), vec![16, 64]);
    assert_eq!(a.len(), 2);
}

#[test]
fn length_matches_traversal() {
    let mut a = DLList::new();
    assert_eq!(a.len(), contents(&a).len());
    for i in 0..12 {
        if i % 3 == 0 {
            a.prepend(i);
        } else {
            a.append(i);
        }
        assert_eq!(a.len(), contents(&a).len());
    }
}

#[test]
fn drain_front_fifo() {
    let mut a = DLList::new();
    let appended = vec![10, 20, 30, 40, 50];
    for &v in &appended {
        a.append(v);
    }
    let mut drained = Vec::new();
    loop {
        match a.remove_at(0) {
            Some(v) => drained.push(v),
            None => break,
        }
    }
    assert_eq!(drained, appended);
    assert_eq!(a.len(), 0);
    assert_eq!(contents(&a), Vec::<i32>::new());
}

#[test]
fn insert_at_each_valid_index() {
    let base = vec![1, 2, 3, 4];
    for idx in 0..=base.len() {
        let mut a = DLList::new();
        for &v in &base {
            a.append(v);
        }
        a.insert_at(99, idx);
        let mut expected = base.clone();
        expected.insert(idx, 99);
        assert_eq!(contents(&a), expected);
        assert_eq!(a.len(), base.len() + 1);
    }
}

#[test]
fn insert_past_length_is_noop() {
    let mut empty = DLList::new();
    empty.insert_at(7, 1);
    assert_eq!(empty.len(), 0);
    assert_eq!(contents(&empty), Vec::<i32>::new());

    let mut one = DLList::new();
    one.append(5);
    one.insert_at(7, 2);
    assert_eq!(contents(&one), vec![5]);

    let mut a = DLList::new();
    for v in [1, 2, 3] {
        a.append(v);
    }
    a.insert_at(7, 4);
    assert_eq!(contents(&a), vec![1, 2, 3]);
    a.insert_at(7, 100);
    assert_eq!(contents(&a), vec![1, 2, 3]);
    assert_eq!(a.len(), 3);
}

#[test]
fn remove_out_of_bounds_is_absent() {
    let mut empty: DLList<i32> = DLList::new();
    assert_eq!(empty.remove_at(0), None);
    assert_eq!(empty.len(), 0);

    let mut a = DLList::new();
    for v in [1, 2, 3] {
        a.append(v);
    }
    assert_eq!(a.remove_at(3), None);
    assert_eq!(a.remove_at(100), None);
    assert_eq!(a.len(), 3);
    assert_eq!(contents(&a), vec![1, 2, 3]);
}

#[test]
fn drained_container_behaves_like_fresh() {
    let mut a = DLList::new();
    a.append(1);
    a.prepend(2);
    a.insert_at(3, 1);
    assert_eq!(a.remove_at(1), Some(3));
    assert_eq!(a.remove_at(1), Some(1));
    assert_eq!(a.remove_at(0), Some(2));
    assert_eq!(a.len(), 0);

    let mut fresh = DLList::new();
    for l in [&mut a, &mut fresh] {
        l.append(10);
        l.prepend(20);
        l.insert_at(30, 1);
    }
    assert_eq!(contents(&a), contents(&fresh));
    assert_eq!(contents(&a), vec![20, 30, 10]);
}

#[test]
fn single_element_transitions() {
    let mut a = DLList::new();
    a.prepend(9);
    assert_eq!(a.len(), 1);
    assert_eq!(contents(&a), vec![9]);
    assert_eq!(a.remove_at(0), Some(9));
    assert_eq!(a.len(), 0);
    a.append(4);
    assert_eq!(contents(&a), vec![4]);
}

#[test]
fn two_element_chain_collapses_both_ways() {
    let mut a = DLList::new();
    a.append(1);
    a.append(2);
    assert_eq!(a.remove_at(0), Some(1));
    assert_eq!(contents(&a), vec![2]);

    let mut b = DLList::new();
    b.append(1);
    b.append(2);
    assert_eq!(b.remove_at(1), Some(2));
    assert_eq!(contents(&b), vec![1]);
}

#[test]
fn interior_removal_splices_neighbours() {
    let mut a = DLList::new();
    for v in [1, 2, 3, 4, 5] {
        a.append(v);
    }
    assert_eq!(a.remove_at(2), Some(3));
    assert_eq!(contents(&a), vec![1, 2, 4, 5]);
    assert_eq!(a.remove_at(0), Some(1));
    assert_eq!(contents(&a), vec![2, 4, 5]);
    assert_eq!(a.remove_at(2), Some(5));
    assert_eq!(contents(&a), vec![2, 4]);
}

#[test]
fn get_reads_every_position() {
    let mut a = DLList::new();
    for v in [7, 8, 9] {
        a.append(v);
    }
    assert_eq!(a.get(0), Some(&7));
    assert_eq!(a.get(1), Some(&8));
    assert_eq!(a.get(2), Some(&9));
    assert_eq!(a.get(3), None);
}

#[test]
fn clear_empties_and_container_is_reusable() {
    let mut a = DLList::new();
    for v in [1, 2, 3, 4] {
        a.append(v);
    }
    a.clear();
    assert_eq!(a.len(), 0);
    assert_eq!(contents(&a), Vec::<i32>::new());
    a.append(5);
    assert_eq!(contents(&a), vec![5]);
}

#[test]
fn holds_values_that_are_not_copy() {
    let mut a: DLList<String> = DLList::new();
    a.append(String::from("middle"));
    a.prepend(String::from("front"));
    a.append(String::from("back"));
    a.insert_at(String::from("second"), 1);
    assert_eq!(a.get(0), Some(&String::from("front")));
    assert_eq!(a.get(1), Some(&String::from("second")));
    assert_eq!(a.remove_at(2), Some(String::from("middle")));
    assert_eq!(a.remove_at(2), Some(String::from("back")));
    assert_eq!(a.len(), 2);
}

#[test]
fn slots_are_reused_across_grow_and_shrink() {
    let mut a = DLList::new();
    for round in 0..4 {
        for v in 0..6 {
            a.append(round * 10 + v);
        }
        while a.remove_at(0).is_some() {}
        assert_eq!(a.len(), 0);
    }
    for v in [1, 2, 3] {
        a.prepend(v);
    }
    assert_eq!(contents(&a), vec![3, 2, 1]);
}
