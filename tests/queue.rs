use board_plugin::Queue;

#[test]
fn queue_is_first_in_first_out() {
    let mut q: Queue<u32> = Queue::new();
    assert!(q.is_empty());
    q.enqueue(1);
    q.enqueue(2);
    q.enqueue(3);
    assert!(!q.is_empty());
    assert_eq!(q.dequeue(), Some(1));
    q.enqueue(4);
    assert_eq!(q.dequeue(), Some(2));
    assert_eq!(q.dequeue(), Some(3));
    assert_eq!(q.dequeue(), Some(4));
    assert_eq!(q.dequeue(), None);
    assert!(q.is_empty());
}

#[test]
fn queue_from_vec_keeps_order() {
    let mut q = Queue::from_vec(vec!['a', 'b', 'c']);
    assert!(!q.is_empty());
    assert_eq!(q.dequeue(), Some('a'));
    q.enqueue('d');
    assert_eq!(q.dequeue(), Some('b'));
    assert_eq!(q.dequeue(), Some('c'));
    assert_eq!(q.dequeue(), Some('d'));
    assert_eq!(q.dequeue(), None);
    let empty: Queue<u8> = Queue::from_vec(Vec::new());
    assert!(empty.is_empty());
}
