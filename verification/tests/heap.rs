use algorithms::heap::Heap;

#[test]
fn heap_it_constructs_empty() {
    let mut heap = Heap::<i32>::new();
    assert!(heap.empty());
    assert_eq!(heap.peek(), None);
    assert_eq!(heap.pop(), None);
}

#[test]
fn it_adds_and_removes_single_element() {
    let mut heap = Heap::<i32>::new();
    heap.push(0);
    assert_eq!(heap.entries(), &vec![0]);
    assert_eq!(heap.peek(), Some(0).as_ref());
    assert_eq!(heap.pop(), Some(0));
    assert!(heap.empty())
}

#[test]
fn it_adds_and_removes_several_elements() {
    let mut heap = Heap::<i32>::new();

    heap.push(1); // 1
    assert_eq!(heap.peek(), Some(1).as_ref());

    heap.push(2); // 2 1
    assert_eq!(heap.peek(), Some(2).as_ref());

    heap.push(0); // 2 1 0
    assert_eq!(heap.peek(), Some(2).as_ref());

    heap.push(5); // 5 2 1 0
    assert_eq!(heap.pop(), Some(5));
    assert_eq!(heap.pop(), Some(2));

    heap.push(4); // 4 1 0
    heap.push(0); // 4 1 0 0
    assert_eq!(heap.pop(), Some(4));
    assert_eq!(heap.pop(), Some(1));
    assert_eq!(heap.pop(), Some(0));
    assert_eq!(heap.pop(), Some(0));
}

#[test]
fn child_and_parent_indices() {
    assert_eq!(Heap::<i32>::parent(0), None);
    assert_eq!(Heap::<i32>::parent(1), Some(0));
    assert_eq!(Heap::<i32>::parent(2), Some(0));
    assert_eq!(Heap::<i32>::parent(6), Some(2));

    let mut heap = Heap::<i32>::new();
    for x in 0..4 {
        heap.push(x);
    }
    assert_eq!(heap.left_child(0), Some(1));
    assert_eq!(heap.right_child(0), Some(2));
    assert_eq!(heap.left_child(1), Some(3));
    assert_eq!(heap.right_child(1), None);
    assert_eq!(heap.left_child(2), None);
    assert_eq!(heap.left_child(usize::MAX), None);
    assert_eq!(heap.right_child(usize::MAX / 2), None);
}

#[test]
fn it_pops_in_descending_order() {
    let input = [7, -3, 12, 0, 7, 5, -8, 12, 1, 3, 9, -1];
    let mut heap = Heap::<i32>::new();
    for x in input {
        heap.push(x);
        let entries = heap.entries();
        for c in 1..entries.len() {
            assert!(entries[c] <= entries[(c - 1) / 2]);
        }
    }
    let mut sorted = input.to_vec();
    sorted.sort();
    sorted.reverse();
    let mut popped = Vec::new();
    while let Some(x) = heap.pop() {
        popped.push(x);
    }
    assert_eq!(popped, sorted);
    assert!(heap.empty());
}
