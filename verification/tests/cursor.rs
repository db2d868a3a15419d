use baml::cursor::SliceReader;

#[test]
fn new_cursor_holds_everything() {
    let rd = SliceReader::new(b"abc");
    assert_eq!(rd.len(), 3);
    assert!(!rd.is_empty());
    assert_eq!(rd.data(), b"abc");
    assert_eq!(rd.position(), 0);
    assert_eq!(rd.head(), Some(b'a'));
}

#[test]
fn empty_cursor() {
    let rd = SliceReader::new(b"");
    assert_eq!(rd.len(), 0);
    assert!(rd.is_empty());
    assert_eq!(rd.head(), None);
    assert_eq!(rd.data(), b"");
}

#[test]
fn head_does_not_consume() {
    let rd = SliceReader::new(b"xy");
    assert_eq!(rd.head(), Some(b'x'));
    assert_eq!(rd.head(), Some(b'x'));
    assert_eq!(rd.len(), 2);
}

#[test]
fn pop_front_takes_a_prefix() {
    let mut rd = SliceReader::new(b"hello world");
    assert_eq!(rd.pop_front(5), b"hello");
    assert_eq!(rd.data(), b" world");
    assert_eq!(rd.position(), 5);
    assert_eq!(rd.pop_front(0), b"");
    assert_eq!(rd.position(), 5);
}

#[test]
fn pop_front_clamps() {
    let mut rd = SliceReader::new(b"abc");
    assert_eq!(rd.pop_front(10), b"abc");
    assert!(rd.is_empty());
    assert_eq!(rd.position(), 3);
    assert_eq!(rd.pop_front(usize::MAX), b"");
}

#[test]
fn pop_front_on_empty_cursor() {
    let mut rd = SliceReader::new(b"");
    assert_eq!(rd.pop_front(0), b"");
    assert_eq!(rd.pop_front(1), b"");
    assert_eq!(rd.pop_front(usize::MAX), b"");
    assert_eq!(rd.position(), 0);
    assert!(rd.is_empty());
}

#[test]
fn pop_front_while_on_empty_cursor() {
    let mut rd = SliceReader::new(b"");
    assert_eq!(rd.pop_front_while(|_| true), b"");
    assert_eq!(rd.pop_front_while(|_| false), b"");
    assert_eq!(rd.position(), 0);
    let mut rd = SliceReader::new(b"ab");
    let _ = rd.pop_front(2);
    assert_eq!(rd.pop_front_while(|_| true), b"");
    assert_eq!(rd.position(), 2);
}

#[test]
fn pop_front_while_takes_the_longest_run() {
    let mut rd = SliceReader::new(b"aaabab");
    assert_eq!(rd.pop_front_while(|c| c == b'a'), b"aaa");
    assert_eq!(rd.data(), b"bab");
    assert_eq!(rd.position(), 3);
    assert_eq!(rd.pop_front_while(|c| c == b'a'), b"");
    assert_eq!(rd.position(), 3);
    assert_eq!(rd.pop_front_while(|_| true), b"bab");
    assert!(rd.is_empty());
}

#[test]
fn pop_back_takes_a_suffix() {
    let mut rd = SliceReader::new(b"hello world");
    assert_eq!(rd.pop_back(5), b"world");
    assert_eq!(rd.data(), b"hello ");
    assert_eq!(rd.position(), 0);
    assert_eq!(rd.pop_back(100), b"hello ");
    assert!(rd.is_empty());
    assert_eq!(rd.pop_back(1), b"");
}

#[test]
fn pop_back_after_pop_front() {
    let mut rd = SliceReader::new(b"[body]");
    assert_eq!(rd.pop_front(1), b"[");
    assert_eq!(rd.pop_back(1), b"]");
    assert_eq!(rd.data(), b"body");
    assert_eq!(rd.position(), 1);
    assert_eq!(rd.pop_front_while(|_| true), b"body");
    assert_eq!(rd.position(), 5);
}

#[test]
fn split_at_leaves_the_cursor() {
    let mut rd = SliceReader::new(b"abcdef");
    let _ = rd.pop_front(1);
    assert_eq!(rd.split_at(2), (&b"bc"[..], &b"def"[..]));
    assert_eq!(rd.split_at(0), (&b""[..], &b"bcdef"[..]));
    assert_eq!(rd.split_at(5), (&b"bcdef"[..], &b""[..]));
    assert_eq!(rd.data(), b"bcdef");
}

#[test]
fn slices_borrow_from_the_buffer() {
    let buffer = b"abcdef".to_vec();
    let front;
    {
        let mut rd = SliceReader::new(&buffer);
        front = rd.pop_front(3);
    }
    assert_eq!(front.as_ptr(), buffer.as_ptr());
    assert_eq!(front, b"abc");
}
