use cs110l::linked_list::{LinkedList, Node};

#[test]
fn push_then_pop_is_last_in_first_out() {
    let mut list: LinkedList<u32> = LinkedList::new();
    assert!(list.is_empty());
    list.push(1);
    list.push(2);
    list.push(3);
    assert_eq!(list.get_size(), 3);
    assert!(!list.is_empty());
    assert_eq!(list.pop(), Some(3));
    assert_eq!(list.pop(), Some(2));
    assert_eq!(list.pop(), Some(1));
    assert_eq!(list.pop(), None);
    assert_eq!(list.get_size(), 0);
    assert!(list.is_empty());
}

#[test]
fn pop_on_empty_list_leaves_it_empty() {
    let mut list: LinkedList<String> = LinkedList::new();
    assert_eq!(list.pop(), None);
    assert_eq!(list.get_size(), 0);
}

#[test]
fn pop_right_after_push_restores_the_list() {
    let mut list: LinkedList<u8> = LinkedList::new();
    list.push(7);
    list.push(8);
    let before: Vec<u8> = list.values().into_iter().copied().collect();
    list.push(9);
    assert_eq!(list.pop(), Some(9));
    let after: Vec<u8> = list.values().into_iter().copied().collect();
    assert_eq!(before, after);
}

#[test]
fn clone_keeps_values_and_order_and_is_independent() {
    let mut list: LinkedList<String> = LinkedList::new();
    list.push(String::from("jdj"));
    list.push(String::from("jdj"));
    let list2 = list.clone();
    list.pop();
    assert_eq!(list.get_size(), 1);
    assert_eq!(list2.get_size(), 2);
    let mut other: LinkedList<String> = LinkedList::new();
    other.push(String::from("x"));
    other.push(String::from("y"));
    let copy = other.clone();
    let values: Vec<&String> = copy.values();
    assert_eq!(values, vec!["y", "x"]);
}

#[test]
fn equality_compares_sizes_then_values() {
    let mut a: LinkedList<i32> = LinkedList::new();
    let mut b: LinkedList<i32> = LinkedList::new();
    assert!(a == b);
    a.push(1);
    assert!(a != b);
    b.push(1);
    assert!(a == b);
    a.push(2);
    b.push(3);
    assert!(a != b);
    let c = a.clone();
    assert!(a == c);
}

#[test]
fn fmt_prefixes_each_value_with_a_space() {
    let mut list: LinkedList<String> = LinkedList::new();
    assert_eq!(list.fmt(), "");
    list.push(String::from("a"));
    list.push(String::from("b"));
    assert_eq!(list.fmt(), " b a");
    let mut numbers: LinkedList<u32> = LinkedList::new();
    numbers.push(10);
    numbers.push(2);
    assert_eq!(numbers.fmt(), " 2 10");
}

#[test]
fn values_lists_front_first() {
    let mut list: LinkedList<char> = LinkedList::new();
    list.push('a');
    list.push('b');
    list.push('c');
    let v: Vec<char> = list.values().into_iter().copied().collect();
    assert_eq!(v, vec!['c', 'b', 'a']);
}

#[test]
fn node_new_builds_a_cell() {
    let tail = Node::new(1u8, None);
    let _head = Node::new(2u8, Some(Box::new(tail)));
}

#[test]
fn clear_releases_a_long_list() {
    let mut list: LinkedList<u64> = LinkedList::new();
    for i in 0..200_000u64 {
        list.push(i);
    }
    assert_eq!(list.get_size(), 200_000);
    list.clear();
    assert!(list.is_empty());
    assert_eq!(list.pop(), None);
}
