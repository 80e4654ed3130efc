use dezero::linked_list::LinkedList;

#[test]
fn empty_length() {
    let list: LinkedList<i32> = LinkedList::new();
    assert_eq!(list.len(), 0);
}

#[test]
fn append() {
    let mut list: LinkedList<i32> = LinkedList::new();
    list.append(10);
    list.append(20);
    list.append(30);
    assert_eq!(list.len(), 3);
}

#[test]
fn pop() {
    let mut list: LinkedList<i32> = LinkedList::new();
    list.append(1);
    list.append(2);
    list.append(3);
    assert_eq!(list.pop(), Some(3));
    assert_eq!(list.pop(), Some(2));
    assert_eq!(list.pop(), Some(1));
    assert_eq!(list.pop(), None);
}

#[test]
fn iterator() {
    let mut list: LinkedList<i32> = LinkedList::new();
    (0..100).for_each(|n| list.append(n));

    let mut iter = list.iter();
    (0..100).for_each(|n| assert_eq!(iter.next(), Some(n)));
    assert_eq!(iter.next(), None);

    let mut iter = list.iter();
    (0..100).for_each(|n| assert_eq!(iter.next(), Some(n)));
    assert_eq!(iter.next(), None);
}

#[test]
fn reverse() {
    let mut list: LinkedList<i32> = LinkedList::new();
    (0..10).for_each(|n| list.append(n));

    let mut iter = list.iter();
    assert_eq!(iter.next(), Some(0));
    assert_eq!(iter.next(), Some(1));
    assert_eq!(iter.next(), Some(2));
    assert_eq!(iter.next(), Some(3));
    assert_eq!(iter.next_back(), Some(3));
    assert_eq!(iter.next_back(), Some(2));
    assert_eq!(iter.next_back(), Some(1));
    assert_eq!(iter.next_back(), Some(0));
    assert_eq!(iter.next_back(), None);
}

#[test]
fn pop_shortens_the_list() {
    let mut list: LinkedList<i32> = LinkedList::new();
    list.append(1);
    list.append(2);
    assert_eq!(list.pop(), Some(2));
    assert_eq!(list.len(), 1);
    list.append(7);
    assert_eq!(list.len(), 2);
    assert_eq!(list.pop(), Some(7));
    assert_eq!(list.pop(), Some(1));
    assert_eq!(list.len(), 0);
    assert_eq!(list.pop(), None);
    assert_eq!(list.len(), 0);
}

#[test]
fn cursor_on_an_empty_list_is_exhausted() {
    let list: LinkedList<i32> = LinkedList::new();
    let mut iter = list.iter();
    assert_eq!(iter.next(), None);
    assert_eq!(iter.next_back(), None);
}

#[test]
fn cursor_stays_exhausted_behind_the_tail() {
    let mut list: LinkedList<i32> = LinkedList::new();
    list.append(5);
    let mut iter = list.iter();
    assert_eq!(iter.next(), Some(5));
    assert_eq!(iter.next(), None);
    assert_eq!(iter.next_back(), None);
    assert_eq!(iter.next(), None);
}

#[test]
fn stepping_back_from_the_head_exhausts_the_cursor() {
    let mut list: LinkedList<i32> = LinkedList::new();
    list.append(5);
    list.append(6);
    let mut iter = list.iter();
    assert_eq!(iter.next_back(), None);
    assert_eq!(iter.next(), None);
}

#[test]
fn debug() {
    let mut list: LinkedList<i32> = LinkedList::new();
    list.append(1);
    list.append(2);
    assert_eq!(list.debug_string(), "{ head -> 1 -> 2 }");
}

#[test]
fn debug_of_an_empty_list() {
    let list: LinkedList<i32> = LinkedList::new();
    assert_eq!(list.debug_string(), "{ head }");
}

#[test]
fn render_joins_with_arrows() {
    let parts = vec![String::from("a"), String::from(""), String::from("b c")];
    assert_eq!(dezero::linked_list::render(&parts), "{ head -> a ->  -> b c }");
    assert_eq!(dezero::linked_list::render(&Vec::new()), "{ head }");
}

#[test]
fn default_list_is_empty() {
    let mut list: LinkedList<i32> = LinkedList::default();
    assert_eq!(list.len(), 0);
    assert_eq!(list.pop(), None);
}
