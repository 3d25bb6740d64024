use pfds::heap::LeftistHeap;

#[test]
fn heap_test() {
    let empty_heap: LeftistHeap = LeftistHeap::empty();
    assert!(empty_heap.is_empty());

    let heap = LeftistHeap::empty().insert(2).insert(1).insert(0);
    println!("heap: {:?}", &heap);

    let heap2 = LeftistHeap::empty().insert(5).insert(1).insert(3);
    println!("heap2: {:?}", &heap2);

    let heap3 = heap.merge(&heap2);
    println!("heap3: {:?}", &heap3);

    assert_eq!(heap3.find_min(), Some(&0));

    println!("delete_min: {:?}", heap3.delete_min());

    let heap4 = LeftistHeap::empty().insert(1);
    let heap5 = heap4.merge(&heap2);
    println!("heap5: {:?}", &heap5);
}

#[test]
fn heap_merge_scenario() {
    let heap = LeftistHeap::empty().insert(2).insert(1).insert(0);
    let heap2 = LeftistHeap::empty().insert(5).insert(1).insert(3);
    let merged = heap.merge(&heap2);
    assert_eq!(merged.find_min(), Some(&0));
    let rest = merged.delete_min().unwrap();
    assert_eq!(rest.find_min(), Some(&1));
}

#[test]
fn heap_merge_identity() {
    let heap = LeftistHeap::empty().insert(4).insert(7).insert(4);
    let left = heap.merge(&LeftistHeap::empty());
    let right = LeftistHeap::empty().merge(&heap);
    assert_eq!(format!("{:?}", left), format!("{:?}", heap));
    assert_eq!(format!("{:?}", right), format!("{:?}", heap));
    assert_eq!(left.find_min(), Some(&4));
    assert_eq!(right.find_min(), Some(&4));
    let empty_both: LeftistHeap = LeftistHeap::empty().merge(&LeftistHeap::empty());
    assert!(empty_both.is_empty());
}

fn spine_rank(heap: &LeftistHeap) -> u32 {
    match heap {
        LeftistHeap::Empty => 0,
        LeftistHeap::Node { rtree, .. } => spine_rank(rtree) + 1,
    }
}

fn assert_wf(heap: &LeftistHeap) {
    match heap {
        LeftistHeap::Empty => {}
        LeftistHeap::Node { rank, val, ltree, rtree } => {
            if let LeftistHeap::Node { val: lval, .. } = &**ltree {
                assert!(val <= lval);
            }
            if let LeftistHeap::Node { val: rval, .. } = &**rtree {
                assert!(val <= rval);
            }
            assert!(spine_rank(ltree) >= spine_rank(rtree));
            assert_eq!(*rank, spine_rank(rtree) + 1);
            assert_wf(ltree);
            assert_wf(rtree);
        }
    }
}

#[test]
fn heap_invariants_hold() {
    let mut heap = LeftistHeap::empty();
    assert_wf(&heap);
    for v in [8i64, 3, 5, 3, 11, -2, 7] {
        heap = heap.insert(v);
        assert_wf(&heap);
    }
    let mut other = LeftistHeap::empty();
    for v in [6i64, 1, 9] {
        other = other.insert_merge(v);
        assert_wf(&other);
    }
    let mut merged = heap.merge(&other);
    assert_wf(&merged);
    while let Some(rest) = merged.delete_min() {
        assert_wf(&rest);
        merged = rest;
    }
    assert!(merged.is_empty());
}

fn drain(mut heap: LeftistHeap) -> Vec<i64> {
    let mut out = Vec::new();
    loop {
        match heap.find_min() {
            None => break,
            Some(v) => out.push(*v),
        }
        heap = heap.delete_min().unwrap();
    }
    out
}

#[test]
fn heap_insert_variants_agree() {
    let values = [5i64, 3, 8, 1, 9, 2, 7, 3];
    let mut direct = LeftistHeap::empty();
    let mut merged = LeftistHeap::empty();
    for v in values {
        direct = direct.insert(v);
        merged = merged.insert_merge(v);
    }
    assert_eq!(direct.find_min(), merged.find_min());
    assert_eq!(drain(direct), drain(merged));
}

#[test]
fn heap_sorted_extraction() {
    let values = [10i64, -4, 6, 0, 6, -4, 99, 1];
    let mut heap = LeftistHeap::empty();
    for v in values {
        heap = heap.insert(v);
    }
    let drained = drain(heap);
    assert_eq!(drained, vec![-4, -4, 0, 1, 6, 6, 10, 99]);
    for w in drained.windows(2) {
        assert!(w[0] <= w[1]);
    }
}

#[test]
fn heap_singleton_delete_leaves_empty() {
    let heap = LeftistHeap::singleton(42);
    assert_eq!(heap.find_min(), Some(&42));
    let rest = heap.delete_min().unwrap();
    assert!(rest.is_empty());
    assert_eq!(rest.find_min(), None);
    assert!(rest.delete_min().is_none());
}

#[test]
fn heap_rank_of_singleton() {
    let heap = LeftistHeap::singleton(5);
    assert_eq!(heap.rank(), 1);
    let empty_heap: LeftistHeap = LeftistHeap::empty();
    assert_eq!(empty_heap.rank(), 0);
}
