use data_structs::gap_buffer::GapBuffer;

fn chars(s: &str) -> Vec<char> {
    s.chars().collect()
}

#[test]
fn basic() {
    let mut buf = GapBuffer::<char>::new();
    buf.insert_iter(chars("boo "));
    buf.insert_iter(chars("bar"));

    assert_eq!(buf.get(0), Some(&'b'));
    assert_eq!(buf.get(4), Some(&'b'));
    assert_eq!(buf.get(5), Some(&'a'));
    assert_eq!(buf.len(), 7);
    buf.insert('!');
    assert_eq!(buf.len(), 8);

    assert_eq!(buf.space(0), Some(&'b'));
    assert_eq!(buf.space(4), Some(&'b'));
    assert_eq!(buf.space(5), Some(&'a'));
    assert_eq!(buf.space(7), Some(&'!'));

    assert_eq!(buf.space(0), Some(&'b'));
    assert_eq!(buf.space(4), Some(&'b'));
    assert_eq!(buf.space(5), Some(&'a'));
    assert_eq!(buf.space(7), Some(&'!'));

    assert_eq!(buf.position(), 8);
    buf.set_potision(4);

    assert_eq!(buf.position(), 4);
    buf.remove();
    assert_eq!(buf.get(0), Some(&'b'));
    assert_eq!(buf.get(4), Some(&'a'));
    assert_eq!(buf.len(), 7);
}

#[test]
fn scenario_remove_after_cursor() {
    let mut buf = GapBuffer::<char>::new();
    buf.insert_iter(chars("boo "));
    buf.insert_iter(chars("bar"));
    assert_eq!(buf.position(), 7);
    assert_eq!(buf.len(), 7);
    buf.insert('!');
    assert_eq!(buf.len(), 8);
    buf.set_potision(4);
    assert_eq!(buf.position(), 4);
    assert_eq!(buf.remove(), Some('b'));
    assert_eq!(buf.get(0), Some(&'b'));
    assert_eq!(buf.get(4), Some(&'a'));
    assert_eq!(buf.len(), 7);
}

#[test]
fn new_buffer_is_empty() {
    let mut buf = GapBuffer::<u32>::new();
    assert_eq!(buf.len(), 0);
    assert_eq!(buf.capacity(), 0);
    assert_eq!(buf.position(), 0);
    assert_eq!(buf.get(0), None);
    assert_eq!(buf.remove(), None);
}

#[test]
fn growth_doubles_from_four() {
    let mut buf = GapBuffer::<u32>::new();
    buf.insert(1);
    assert_eq!(buf.capacity(), 4);
    for i in 2..=5 {
        buf.insert(i);
    }
    assert_eq!(buf.capacity(), 8);
    assert_eq!(buf.len(), 5);
    for i in 0..5 {
        assert_eq!(buf.get(i), Some(&(i as u32 + 1)));
    }
}

#[test]
fn growth_keeps_order_with_cursor_in_middle() {
    let mut buf = GapBuffer::<u32>::new();
    buf.insert_iter(vec![1, 2, 3, 4]);
    buf.set_potision(2);
    buf.insert(10);
    assert_eq!(buf.capacity(), 8);
    assert_eq!(buf.position(), 3);
    let got: Vec<u32> = (0..buf.len()).map(|i| *buf.get(i).unwrap()).collect();
    assert_eq!(got, vec![1, 2, 10, 3, 4]);
}

#[test]
fn inserts_are_read_back_in_order() {
    let mut buf = GapBuffer::<u32>::new();
    let values: Vec<u32> = (0..37).map(|i| i * 3).collect();
    for v in &values {
        buf.insert(*v);
    }
    assert_eq!(buf.len(), values.len());
    for (i, v) in values.iter().enumerate() {
        assert_eq!(buf.get(i), Some(v));
    }
}

#[test]
fn set_position_keeps_content() {
    let mut buf = GapBuffer::<char>::new();
    buf.insert_iter(chars("abcdef"));
    for p in [0usize, 6, 3, 1, 5, 2, 2] {
        buf.set_potision(p);
        assert_eq!(buf.position(), p);
        let got: String = (0..buf.len()).map(|i| *buf.get(i).unwrap()).collect();
        assert_eq!(got, "abcdef");
    }
}

#[test]
fn insert_then_remove_takes_following_element() {
    let mut buf = GapBuffer::<char>::new();
    buf.insert_iter(chars("xy"));
    buf.set_potision(1);
    buf.insert('z');
    assert_eq!(buf.remove(), Some('y'));
    assert_eq!(buf.len(), 2);
    assert_eq!(buf.position(), 2);
    buf.set_potision(1);
    assert_eq!(buf.remove(), Some('z'));
    assert_eq!(buf.len(), 1);
    assert_eq!(buf.position(), 1);
    assert_eq!(buf.get(0), Some(&'x'));
}

#[test]
fn bounds() {
    let mut buf = GapBuffer::<char>::new();
    buf.insert_iter(chars("abc"));
    assert_eq!(buf.get(3), None);
    assert_eq!(buf.get(100), None);
    assert_eq!(buf.remove(), None);
    assert_eq!(buf.space(3), None);
    assert_eq!(buf.space(4), None);
}

#[test]
fn insert_iter_in_middle() {
    let mut buf = GapBuffer::<char>::new();
    buf.insert_iter(chars("ad"));
    buf.set_potision(1);
    buf.insert_iter(chars("bc"));
    assert_eq!(buf.position(), 3);
    let got: String = (0..buf.len()).map(|i| *buf.get(i).unwrap()).collect();
    assert_eq!(got, "abcd");
}

#[test]
fn get_far_past_the_end() {
    let mut buf = GapBuffer::<u8>::new();
    buf.insert_iter(vec![1, 2, 3]);
    buf.set_potision(1);
    assert_eq!(buf.get(usize::MAX), None);
    assert_eq!(buf.get(usize::MAX - 1), None);
    assert_eq!(buf.get(3), None);
    assert_eq!(buf.get(2), Some(&3));
}

#[test]
fn insert_iter_grows_like_single_inserts() {
    let mut buf = GapBuffer::<u8>::new();
    buf.insert_iter(vec![1, 2, 3, 4, 5]);
    assert_eq!(buf.capacity(), 8);
    assert!(buf.len() <= buf.capacity());
    buf.insert_iter(vec![6, 7, 8, 9]);
    assert_eq!(buf.capacity(), 16);
    assert_eq!(buf.len(), 9);
}
