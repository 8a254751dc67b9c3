use data_structs::linked_list1::List;

#[test]
fn linked_list1_basics() {
    let mut list = List::new();

    assert_eq!(list.pop(), None);

    list.push(1);
    list.push(2);
    list.push(3);

    assert_eq!(list.peek(), Some(&3));
    assert_eq!(list.pop(), Some(3));
    assert_eq!(list.peek(), Some(&2));
    assert_eq!(list.pop(), Some(2));

    list.push(4);
    list.push(5);

    assert_eq!(list.peek(), Some(&5));
    assert_eq!(list.pop(), Some(5));
    assert_eq!(list.peek(), Some(&4));
    assert_eq!(list.pop(), Some(4));

    assert_eq!(list.peek(), Some(&1));
    assert_eq!(list.pop(), Some(1));
    assert_eq!(list.peek(), None);
    assert_eq!(list.pop(), None);
}

#[test]
fn into_iter() {
    let mut list = List::new();
    list.push(1);
    list.push(2);
    list.push(3);

    let mut iter = list.into_iter();
    assert_eq!(iter.next(), Some(3));
    assert_eq!(iter.next(), Some(2));
    assert_eq!(iter.next(), Some(1));
    assert_eq!(iter.next(), None);
}

#[test]
fn linked_list1_iter() {
    let mut list = List::new();
    list.push(1);
    list.push(2);
    list.push(3);

    let mut iter = list.iter();
    assert_eq!(iter.next(), Some(&3));
    assert_eq!(iter.next(), Some(&2));
    assert_eq!(iter.next(), Some(&1));
    assert_eq!(iter.next(), None);
}

#[test]
fn iter_mut() {
    let mut list = List::new();
    list.push(1);
    list.push(2);
    list.push(3);

    let mut iter = list.iter_mut();
    assert_eq!(iter.next(), Some(&mut 3));
    assert_eq!(iter.next(), Some(&mut 2));
    assert_eq!(iter.next(), Some(&mut 1));
    assert_eq!(iter.next(), None);
}

#[test]
fn peek_mut_writes_top() {
    let mut list = List::new();
    assert_eq!(list.peek_mut(), None);
    list.push(1);
    list.push(2);
    if let Some(top) = list.peek_mut() {
        *top = 20;
    }
    assert_eq!(list.pop(), Some(20));
    assert_eq!(list.pop(), Some(1));
}

#[test]
fn iter_mut_writes_through() {
    let mut list = List::new();
    list.push(1);
    list.push(2);
    let mut iter = list.iter_mut();
    while let Some(x) = iter.next() {
        *x *= 10;
    }
    assert_eq!(list.pop(), Some(20));
    assert_eq!(list.pop(), Some(10));
}
