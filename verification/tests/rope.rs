use ropes::Rope;

#[test]
fn test_new() {
    let r = Rope::new();
    assert!(r.len() == 0);
    assert!(r.to_string().unwrap() == "");

    let r = Rope::from_string("Hello world!".to_string());
    assert!(r.len() == 12);
    assert!(r.to_string().unwrap() == "Hello world!");
}

#[test]
fn test_from_string() {
    let r: Rope = "Hello world!".parse().unwrap();
    assert!(r.to_string().unwrap() == "Hello world!");
}

#[test]
fn test_slice_empty_rope() {
    let r: Rope = Rope::new();
    let _ = r.full_slice();
}

#[test]
fn test_remove() {
    let mut r: Rope = "Hello world!".parse().unwrap();
    r.remove(0, 10).unwrap();
    assert!(r.to_string().unwrap() == "d!");

    let mut r: Rope = "Hello world!".parse().unwrap();
    r.remove(4, 12).unwrap();
    assert!(r.to_string().unwrap() == "Hell");

    let mut r: Rope = "Hello world!".parse().unwrap();
    r.remove(4, 10).unwrap();
    assert!(r.to_string().unwrap() == "Helld!");
}

#[test]
fn test_insert_copy() {
    let mut r: Rope = "Hello world!".parse().unwrap();
    r.insert_copy(0, "foo").unwrap();
    assert!(r.to_string().unwrap() == "fooHello world!");
    assert!(r.slice(2..8).unwrap().to_string().unwrap() == "oHello");

    let mut r: Rope = "Hello world!".parse().unwrap();
    r.insert_copy(12, "foo").unwrap();
    assert!(r.to_string().unwrap() == "Hello world!foo");
    assert!(r.slice(2..8).unwrap().to_string().unwrap() == "llo wo");

    let mut r: Rope = "Hello world!".parse().unwrap();
    r.insert_copy(5, "foo").unwrap();
    assert!(r.to_string().unwrap() == "Hellofoo world!");
    assert!(r.slice(2..8).unwrap().to_string().unwrap() == "llofoo");
}

#[test]
fn test_push_copy() {
    let mut r: Rope = "Hello world!".parse().unwrap();
    r.push_copy("foo");
    assert!(r.to_string().unwrap() == "Hello world!foo");
    assert!(r.slice(2..8).unwrap().to_string().unwrap() == "llo wo");
}

#[test]
fn test_insert_replace() {
    let mut r: Rope = "hello worl\u{00bb0}!".parse().unwrap();
    r.insert_copy(5, "bb").unwrap();
    assert!(r.to_string().unwrap() == "hellobb worlர!");
    r.replace(0, 'H').unwrap();
    r.replace(15, '~').unwrap();
    r.replace_str(5, "fo\u{00cb0}").unwrap();
    assert!(r.to_string().unwrap() == "Hellofoರrlர~");
    assert!(r.slice(0..10).unwrap().to_string().unwrap() == "Hellofoರ");
    assert!(r.slice(5..10).unwrap().to_string().unwrap() == "foರ");
    assert!(r.slice(10..15).unwrap().to_string().unwrap() == "rlர");

    let expected = "Hellofoರrlர~";
    let mut byte_pos = 0;
    let items = r.chars().collect().unwrap();
    assert!(items.len() == expected.chars().count());
    for ((c, b), e) in items.into_iter().zip(expected.chars()) {
        assert!(c == e);
        assert!(b == byte_pos);
        byte_pos += e.len_utf8();
    }
}

#[test]
fn test_slice_iter_from_start() {
    let mut r: Rope = "Helloworld!".parse().unwrap();
    // insert some data to make sure the rope is split into multiple segments
    r.insert_copy(5, " ").unwrap();

    let mut slice = r.slice(0..4).unwrap();
    assert_eq!(4, slice.len());
    assert_eq!(Some(b'H'), slice.next());
    assert_eq!(Some(b'e'), slice.next());
    assert_eq!(Some(b'l'), slice.next());
    assert_eq!(Some(b'l'), slice.next());
    assert_eq!(None, slice.next());

    let mut slice = r.slice(0..5).unwrap();
    assert_eq!(Some(b'H'), slice.next());
    assert_eq!(Some(b'e'), slice.next());
    assert_eq!(Some(b'l'), slice.next());
    assert_eq!(Some(b'l'), slice.next());
    assert_eq!(Some(b'o'), slice.next());
    assert_eq!(None, slice.next());
}

#[test]
fn test_slice_iter_from_middle() {
    let mut r: Rope = "Helloworld!".parse().unwrap();
    // insert some data to make sure the rope is split into multiple segments
    r.insert_copy(5, " ").unwrap();

    let mut slice = r.slice(3..9).unwrap();
    assert_eq!(Some(b'l'), slice.next());
    assert_eq!(Some(b'o'), slice.next());
    assert_eq!(Some(b' '), slice.next());
    assert_eq!(Some(b'w'), slice.next());
    assert_eq!(Some(b'o'), slice.next());
    assert_eq!(Some(b'r'), slice.next());
    assert_eq!(None, slice.next());
}

#[test]
fn test_slice_without_split() {
    let r: Rope = "Hello world!".parse().unwrap();

    let mut slice = r.slice(3..9).unwrap();
    assert_eq!(Some(b'l'), slice.next());
    assert_eq!(Some(b'o'), slice.next());
    assert_eq!(Some(b' '), slice.next());
    assert_eq!(Some(b'w'), slice.next());
    assert_eq!(Some(b'o'), slice.next());
    assert_eq!(Some(b'r'), slice.next());
    assert_eq!(None, slice.next());
}
