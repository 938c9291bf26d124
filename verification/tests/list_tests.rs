use kernel_core::doubly_list_head::DoublyListHead;
use kernel_core::singly_list_head::SinglyListHead;

#[test]
fn singly_list_is_lifo() {
    let mut list = SinglyListHead::new();
    assert!(list.is_empty());
    assert_eq!(list.pop(), None);
    list.insert_after(1);
    list.insert_after(2);
    list.insert_after(3);
    assert!(!list.is_empty());
    assert_eq!(list.pop(), Some(3));
    assert_eq!(list.pop(), Some(2));
    assert_eq!(list.pop(), Some(1));
    assert!(list.is_empty());
}

#[test]
fn doubly_list_front_back_and_delete() {
    let mut list = DoublyListHead::new_empty();
    assert!(list.is_empty());
    list.insert_after(10); // front
    list.insert_before(20); // back
    list.insert_after(30); // front
    assert!(!list.is_empty());
    assert_eq!(list.first(), 30);
    list.delete(10);
    assert_eq!(list.first(), 30);
    list.delete(30);
    assert_eq!(list.first(), 20);
    list.delete(20);
    assert!(list.is_empty());
}
