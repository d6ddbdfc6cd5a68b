use learnkit::double_linked_list::{List, Node};

#[test]
fn double_linked_list_test_push_pop() {
    let mut list = List::new();
    list.push(1);
    list.push(3);

    assert_eq!(list.pop(), Some(3));
    list.push(4);
    assert_eq!(list.pop(), Some(4));

    assert_eq!(list.pop(), Some(1));
    assert_eq!(list.pop(), None);
}

#[test]
fn double_linked_list_pop_empty_and_refill() {
    let mut list: List<String> = List::new();
    assert_eq!(list.pop(), None);
    list.push(String::from("a"));
    assert_eq!(list.pop(), Some(String::from("a")));
    assert_eq!(list.pop(), None);
    for i in 0..5 {
        list.push(i.to_string());
    }
    for i in (0..5).rev() {
        assert_eq!(list.pop(), Some(i.to_string()));
    }
    assert_eq!(list.pop(), None);
}

#[test]
fn double_linked_list_peek_gives_nothing() {
    let mut list = List::new();
    list.push(7);
    assert!(list.peek().is_none());
    assert!(list.peek_mut().is_none());
    assert_eq!(list.pop(), Some(7));
}

#[test]
fn double_linked_list_node_new() {
    let node = Node::new(5u8);
    assert_eq!(node.value, 5);
    assert!(node.next.is_none());
    assert!(node.prev.is_none());
}
