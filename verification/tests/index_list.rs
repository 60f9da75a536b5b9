use local_cache::index_list::IndexList;

fn drain(list: &mut IndexList) -> Vec<usize> {
    let mut seen = Vec::new();
    while let Some(i) = list.head() {
        seen.push(i);
        list.unlink(i);
    }
    seen
}

fn with_slots(n: usize) -> IndexList {
    let mut list = IndexList::new();
    for expected in 0..n {
        assert_eq!(expected, list.add_slot());
    }
    list
}

#[test]
fn new_list_is_empty() {
    let list = IndexList::new();
    assert_eq!(None, list.head());
    assert_eq!(None, list.tail());
}

#[test]
fn slots_start_unlinked() {
    let list = with_slots(3);
    assert_eq!(None, list.head());
    assert_eq!(None, list.tail());
}

#[test]
fn push_front_puts_the_newest_first() {
    let mut list = with_slots(4);
    list.push_front(2);
    assert_eq!(Some(2), list.head());
    assert_eq!(Some(2), list.tail());
    list.push_front(0);
    list.push_front(3);
    assert_eq!(Some(3), list.head());
    assert_eq!(Some(2), list.tail());
    assert_eq!(vec![3, 0, 2], drain(&mut list));
    assert_eq!(None, list.tail());
}

#[test]
fn push_front_of_a_linked_slot_moves_it() {
    let mut list = with_slots(4);
    list.push_front(0);
    list.push_front(1);
    list.push_front(2);
    list.push_front(3);
    // 3 2 1 0
    list.push_front(1);
    assert_eq!(Some(1), list.head());
    assert_eq!(Some(0), list.tail());
    list.push_front(0);
    assert_eq!(Some(0), list.head());
    assert_eq!(Some(2), list.tail());
    list.push_front(0);
    assert_eq!(vec![0, 1, 3, 2], drain(&mut list));
}

#[test]
fn unlink_closes_the_gap() {
    let mut list = with_slots(5);
    for i in 0..5 {
        list.push_front(i);
    }
    // 4 3 2 1 0
    list.unlink(2);
    assert_eq!(Some(4), list.head());
    assert_eq!(Some(0), list.tail());
    list.unlink(4);
    assert_eq!(Some(3), list.head());
    list.unlink(0);
    assert_eq!(Some(1), list.tail());
    assert_eq!(vec![3, 1], drain(&mut list));
}

#[test]
fn unlink_of_an_unlinked_slot_changes_nothing() {
    let mut list = with_slots(3);
    list.unlink(1);
    assert_eq!(None, list.head());
    list.push_front(0);
    list.push_front(2);
    list.unlink(1);
    list.unlink(1);
    assert_eq!(Some(2), list.head());
    assert_eq!(Some(0), list.tail());
    assert_eq!(vec![2, 0], drain(&mut list));
}

#[test]
fn unlinked_slot_can_be_linked_again() {
    let mut list = with_slots(3);
    list.push_front(0);
    list.push_front(1);
    list.unlink(0);
    list.unlink(1);
    assert_eq!(None, list.head());
    assert_eq!(None, list.tail());
    list.push_front(1);
    list.push_front(0);
    list.push_front(2);
    assert_eq!(vec![2, 0, 1], drain(&mut list));
}

#[test]
fn slots_added_later_join_the_same_list() {
    let mut list = with_slots(1);
    list.push_front(0);
    assert_eq!(1, list.add_slot());
    list.push_front(1);
    assert_eq!(2, list.add_slot());
    assert_eq!(Some(1), list.head());
    assert_eq!(Some(0), list.tail());
    list.push_front(2);
    assert_eq!(vec![2, 1, 0], drain(&mut list));
}
