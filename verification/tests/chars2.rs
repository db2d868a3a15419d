use baml::chars2::TChars2;

#[test]
fn test_chars2() {
    let s = &"test";
    let mut iter = s.chars2();
    assert_eq!(iter.next(), Some('t'));
    assert_eq!(iter.remaining(), "est");
}

#[test]
fn walks_to_the_end() {
    let mut iter = "ab".chars2();
    assert_eq!(iter.remaining(), "ab");
    assert_eq!(iter.next(), Some('a'));
    assert_eq!(iter.next(), Some('b'));
    assert_eq!(iter.remaining(), "");
    assert_eq!(iter.next(), None);
    assert_eq!(iter.next(), None);
    assert_eq!(iter.remaining(), "");
}

#[test]
fn empty_string() {
    let mut iter = "".chars2();
    assert_eq!(iter.next(), None);
    assert_eq!(iter.remaining(), "");
    assert_eq!(iter.size_hint(), (0, Some(0)));
}

#[test]
fn characters_of_several_bytes() {
    let mut iter = "é€𝄞x".chars2();
    assert_eq!(iter.size_hint(), (3, Some(10)));
    assert_eq!(iter.next(), Some('é'));
    assert_eq!(iter.remaining(), "€𝄞x");
    assert_eq!(iter.next(), Some('€'));
    assert_eq!(iter.remaining(), "𝄞x");
    assert_eq!(iter.size_hint(), (2, Some(5)));
    assert_eq!(iter.next(), Some('𝄞'));
    assert_eq!(iter.remaining(), "x");
    assert_eq!(iter.size_hint(), (1, Some(1)));
    assert_eq!(iter.next(), Some('x'));
    assert_eq!(iter.next(), None);
}

#[test]
fn size_hint_rounds_up() {
    assert_eq!("a".chars2().size_hint(), (1, Some(1)));
    assert_eq!("abcd".chars2().size_hint(), (1, Some(4)));
    assert_eq!("abcde".chars2().size_hint(), (2, Some(5)));
    assert_eq!("test".chars2().size_hint(), (1, Some(4)));
}

#[test]
fn remaining_borrows_from_the_string() {
    let text = String::from("hello");
    let rest;
    {
        let mut iter = text.as_str().chars2();
        let _ = iter.next();
        rest = iter.remaining();
    }
    assert_eq!(rest, "ello");
    assert_eq!(rest.as_ptr(), text[1..].as_ptr());
}

#[test]
fn a_clone_walks_on_its_own() {
    let mut iter = "xy".chars2();
    let mut copy = iter.clone();
    assert_eq!(iter.next(), Some('x'));
    assert_eq!(copy.remaining(), "xy");
    assert_eq!(copy.next(), Some('x'));
    assert_eq!(copy.clone().next(), Some('y'));
    assert_eq!(iter.remaining(), "y");
}
