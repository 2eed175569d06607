use algorithms::linked_list::mutable_linked_list::List;

#[test]
fn basics() {
    let mut list = List::new();

    // Check empty list behaves right
    assert_eq!(list.shift(), None);

    // Populate list
    list.unshift(1);
    list.unshift(2);
    list.unshift(3);

    // Check normal removal
    assert_eq!(list.shift(), Some(3));
    assert_eq!(list.shift(), Some(2));

    // Push some more just to make sure nothing's corrupted
    list.unshift(4);
    list.unshift(5);

    // Check normal removal
    assert_eq!(list.shift(), Some(5));
    assert_eq!(list.shift(), Some(4));

    // Check exhaustion
    assert_eq!(list.shift(), Some(1));
    assert_eq!(list.shift(), None);
}

#[test]
fn peek() {
    let mut list = List::new();

    assert_eq!(list.peek(), None);

    list.unshift(1);
    list.unshift(2);
    list.unshift(3);

    assert_eq!(list.peek(), Some(&3));
}

#[test]
fn peek_mut() {
    let mut list = List::new();

    assert_eq!(list.peek_mut(), None);

    list.unshift(1);
    list.unshift(2);
    list.unshift(3);

    assert_eq!(list.peek_mut(), Some(&mut 3));

    list.peek_mut().map(|value| *value = 42);
    assert_eq!(list.peek(), Some(&42));
}

#[test]
fn into_iter() {
    let mut list = List::new();
    list.unshift(1);
    list.unshift(2);
    list.unshift(3);

    let mut iter = list.into_iter();
    assert_eq!(iter.next(), Some(3));
    assert_eq!(iter.next(), Some(2));
    assert_eq!(iter.next(), Some(1));
    assert_eq!(iter.next(), None);
}

#[test]
fn iter() {
    let mut list = List::new();
    list.unshift(1);
    list.unshift(2);
    list.unshift(3);

    let mut iter = list.iter();
    assert_eq!(iter.next(), Some(&3));
    assert_eq!(iter.next(), Some(&2));
    assert_eq!(iter.next(), Some(&1));
}

#[test]
fn iter_mut() {
    let mut list = List::new();
    list.unshift(1);
    list.unshift(2);
    list.unshift(3);

    let mut iter = list.iter_mut();
    assert_eq!(iter.next(), Some(&mut 3));
    assert_eq!(iter.next(), Some(&mut 2));
    assert_eq!(iter.next(), Some(&mut 1));
}

#[test]
fn iterators_end_and_changes_stay() {
    let mut list = List::new();
    list.unshift(1);
    list.unshift(2);
    {
        let mut iter = list.iter_mut();
        while let Some(value) = iter.next() {
            *value *= 10;
        }
        assert_eq!(iter.next(), None);
    }
    let mut iter = list.iter();
    assert_eq!(iter.next(), Some(&20));
    assert_eq!(iter.next(), Some(&10));
    assert_eq!(iter.next(), None);
    assert_eq!(list.shift(), Some(20));
    assert_eq!(list.peek(), Some(&10));
}

#[test]
fn a_long_list_is_dropped_without_nesting() {
    let mut list = List::new();
    for i in 0..1_000_000 {
        list.unshift(i);
    }
    assert_eq!(list.peek(), Some(&999_999));
    drop(list);
}
