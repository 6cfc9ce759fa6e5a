use ropes::{Rope, RopeError};

fn fragmented() -> Rope {
    // "Hello, wide world!" put together out of order.
    let mut r = Rope::new();
    r.insert_copy(0, "world").unwrap();
    r.insert_copy(0, "Hello").unwrap();
    r.insert_copy(5, ", ").unwrap();
    r.push_copy("!");
    r.insert_copy(7, "wide ").unwrap();
    r
}

#[test]
fn insert_splices_at_every_offset() {
    let base = "Hello world!";
    for start in 0..=base.len() {
        let mut r = Rope::from_string(base.to_string());
        assert_eq!(r.insert(start, "foo".to_string()), Ok(()));
        let mut expected = String::from(&base[..start]);
        expected.push_str("foo");
        expected.push_str(&base[start..]);
        assert_eq!(r.to_string().unwrap(), expected);
        assert_eq!(r.len(), base.len() + 3);
    }
}

#[test]
fn insert_beyond_end_is_refused() {
    let mut r = Rope::from_string("abc".to_string());
    assert_eq!(r.insert(4, "x".to_string()), Err(RopeError::OutOfBounds));
    assert_eq!(r.insert_copy(9, "x"), Err(RopeError::OutOfBounds));
    assert_eq!(r.insert_inner(4, vec![b'x']), Err(RopeError::OutOfBounds));
    assert_eq!(r.to_string().unwrap(), "abc");
    assert_eq!(r.len(), 3);
    let mut e = Rope::new();
    assert_eq!(e.insert(1, "x".to_string()), Err(RopeError::OutOfBounds));
    assert_eq!(e.insert(1, String::new()), Err(RopeError::OutOfBounds));
    assert_eq!(e.len(), 0);
}

#[test]
fn insert_of_nothing_changes_nothing() {
    let mut r = fragmented();
    assert_eq!(r.insert(0, String::new()), Ok(()));
    assert_eq!(r.insert_copy(4, ""), Ok(()));
    assert_eq!(r.insert_inner(18, Vec::new()), Ok(()));
    assert_eq!(r.to_string().unwrap(), "Hello, wide world!");
    assert_eq!(r.len(), 18);
    let mut e = Rope::new();
    assert_eq!(e.insert(0, String::new()), Ok(()));
    assert_eq!(e.len(), 0);
    assert_eq!(e.to_string().unwrap(), "");
}

#[test]
fn insert_inner_takes_raw_bytes() {
    let mut r = Rope::new();
    assert_eq!(r.insert_inner(0, vec![1, 2, 3]), Ok(()));
    assert_eq!(r.insert_inner(1, vec![9, 8]), Ok(()));
    assert_eq!(r.to_bytes(), vec![1, 9, 8, 2, 3]);
    assert_eq!(r.len(), 5);
}

#[test]
fn push_appends() {
    let mut r = Rope::new();
    r.push("ab".to_string());
    r.push_copy("cd");
    r.push(String::new());
    r.push("e".to_string());
    assert_eq!(r.to_string().unwrap(), "abcde");
    assert_eq!(r.len(), 5);
}

#[test]
fn remove_deletes_every_range() {
    let text = "Hello, wide world!";
    for start in 0..=text.len() {
        for end in start..=text.len() {
            let mut r = fragmented();
            assert_eq!(r.remove(start, end), Ok(()));
            let mut expected = String::from(&text[..start]);
            expected.push_str(&text[end..]);
            assert_eq!(r.to_string().unwrap(), expected);
            assert_eq!(r.len(), text.len() - (end - start));
        }
    }
}

#[test]
fn remove_of_nothing_changes_nothing() {
    for k in 0..=18 {
        let mut r = fragmented();
        assert_eq!(r.remove(k, k), Ok(()));
        assert_eq!(r.to_string().unwrap(), "Hello, wide world!");
        assert_eq!(r.len(), 18);
    }
    let mut e = Rope::new();
    assert_eq!(e.remove(0, 0), Ok(()));
    assert_eq!(e.len(), 0);
}

#[test]
fn remove_out_of_bounds_is_refused() {
    let mut r = fragmented();
    assert_eq!(r.remove(3, 2), Err(RopeError::OutOfBounds));
    assert_eq!(r.remove(0, 19), Err(RopeError::OutOfBounds));
    assert_eq!(r.remove(19, 19), Err(RopeError::OutOfBounds));
    assert_eq!(r.remove(20, 19), Err(RopeError::OutOfBounds));
    assert_eq!(r.to_string().unwrap(), "Hello, wide world!");
    let mut e = Rope::new();
    assert_eq!(e.remove(0, 1), Err(RopeError::OutOfBounds));
}

#[test]
fn remove_all_then_reuse() {
    let mut r = fragmented();
    assert_eq!(r.remove(0, 18), Ok(()));
    assert_eq!(r.len(), 0);
    assert_eq!(r.to_string().unwrap(), "");
    assert_eq!(r.full_slice().len(), 0);
    r.insert_copy(0, "again").unwrap();
    assert_eq!(r.to_string().unwrap(), "again");
}

#[test]
fn edits_in_a_row_keep_the_length_right() {
    let mut r = Rope::from_string("0123456789".to_string());
    let mut model = String::from("0123456789");
    let steps: [(usize, usize, &str); 6] =
        [(2, 5, "ab"), (0, 1, "xyz"), (4, 9, ""), (1, 1, "--"), (0, 6, "q"), (0, 1, "end")];
    for (start, end, text) in steps {
        assert_eq!(r.remove(start, end), Ok(()));
        model.replace_range(start..end, "");
        assert_eq!(r.insert_copy(start, text), Ok(()));
        model.insert_str(start, text);
        assert_eq!(r.to_string().unwrap(), model);
        assert_eq!(r.len(), model.len());
    }
}

#[test]
fn replace_overwrites_in_place() {
    let mut r = fragmented();
    assert_eq!(r.replace_str(3, "LO; WIDE"), Ok(()));
    assert_eq!(r.to_string().unwrap(), "HelLO; WIDE world!");
    assert_eq!(r.len(), 18);
    assert_eq!(r.replace(17, '?'), Ok(()));
    assert_eq!(r.to_string().unwrap(), "HelLO; WIDE world?");
    assert_eq!(r.replace_bytes(0, b"hel"), Ok(()));
    assert_eq!(r.to_string().unwrap(), "helLO; WIDE world?");
    assert_eq!(r.replace_str(0, "0123456789abcdefgh"), Ok(()));
    assert_eq!(r.to_string().unwrap(), "0123456789abcdefgh");
}

#[test]
fn replace_of_nothing_changes_nothing() {
    let mut r = fragmented();
    assert_eq!(r.replace_str(0, ""), Ok(()));
    assert_eq!(r.replace_str(18, ""), Ok(()));
    assert_eq!(r.to_string().unwrap(), "Hello, wide world!");
}

#[test]
fn replace_too_wide_is_refused_whole() {
    let mut r = fragmented();
    assert_eq!(r.replace_str(16, "abc"), Err(RopeError::WidthMismatch));
    assert_eq!(r.replace_str(18, "a"), Err(RopeError::WidthMismatch));
    assert_eq!(r.replace(17, '\u{00e9}'), Err(RopeError::WidthMismatch));
    assert_eq!(r.replace_bytes(0, &[0u8; 19]), Err(RopeError::WidthMismatch));
    assert_eq!(r.to_string().unwrap(), "Hello, wide world!");
    assert_eq!(r.len(), 18);
}

#[test]
fn replace_beyond_end_is_refused() {
    let mut r = fragmented();
    assert_eq!(r.replace_str(19, ""), Err(RopeError::OutOfBounds));
    assert_eq!(r.replace_str(19, "a"), Err(RopeError::OutOfBounds));
    assert_eq!(r.replace(40, 'a'), Err(RopeError::OutOfBounds));
    assert_eq!(r.to_string().unwrap(), "Hello, wide world!");
}

#[test]
fn replace_after_remove_leaves_removed_bytes_alone() {
    let mut r = Rope::from_string("abcdefgh".to_string());
    r.remove(2, 6).unwrap();
    assert_eq!(r.replace_str(1, "XY"), Ok(()));
    assert_eq!(r.to_string().unwrap(), "aXYh");
    r.insert_copy(2, "--").unwrap();
    assert_eq!(r.to_string().unwrap(), "aX--Yh");
}

#[test]
fn round_trip() {
    for text in ["", "a", "Hello world!", "h\u{00e9}llo", "\u{0bb0}\u{0cb0}", "a\u{1f600}b", "\u{0}"] {
        let r = Rope::from_string(text.to_string());
        assert_eq!(r.to_string().unwrap(), text);
        assert_eq!(r.len(), text.len());
        assert_eq!(r.to_bytes(), text.as_bytes().to_vec());
        let p: Rope = text.parse().unwrap();
        assert_eq!(p.to_string().unwrap(), text);
    }
}

#[test]
fn to_string_refuses_bytes_that_are_not_text() {
    let mut r = Rope::from_string("h\u{00e9}".to_string());
    assert_eq!(r.len(), 3);
    // Cutting the two-byte character in half leaves a lone leading byte.
    r.remove(2, 3).unwrap();
    assert_eq!(r.to_string(), Err(RopeError::InvalidUtf8));
    assert_eq!(r.to_bytes(), vec![b'h', 0xc3]);
    assert_eq!(r.full_slice().to_string(), Err(RopeError::InvalidUtf8));
    assert_eq!(r.slice(0..1).unwrap().to_string().unwrap(), "h");
    let mut raw = Rope::new();
    raw.insert_inner(0, vec![0xff]).unwrap();
    assert_eq!(raw.to_string(), Err(RopeError::InvalidUtf8));
}

#[test]
fn slice_is_the_byte_range() {
    let text = "Hello, wide world!";
    let r = fragmented();
    for a in 0..=text.len() {
        for b in a..=text.len() {
            let s = r.slice(a..b).unwrap();
            assert_eq!(s.len(), b - a);
            assert_eq!(s.to_bytes(), text.as_bytes()[a..b].to_vec());
            assert_eq!(s.to_string().unwrap(), &text[a..b]);
        }
    }
}

#[test]
fn slice_out_of_bounds_is_refused() {
    let r = fragmented();
    assert_eq!(r.slice(0..19).unwrap_err(), RopeError::OutOfBounds);
    assert_eq!(r.slice(19..19).unwrap_err(), RopeError::OutOfBounds);
    #[allow(clippy::reversed_empty_ranges)]
    let backwards = 5..4;
    assert_eq!(r.slice(backwards).unwrap_err(), RopeError::OutOfBounds);
    let e = Rope::new();
    assert_eq!(e.slice(0..1).unwrap_err(), RopeError::OutOfBounds);
    assert_eq!(e.slice(0..0).unwrap().len(), 0);
}

#[test]
fn slice_bytes_come_one_by_one() {
    let r = fragmented();
    let mut s = r.slice(4..13).unwrap();
    let mut seen = Vec::new();
    let mut left = 9;
    while let Some(b) = s.next() {
        seen.push(b);
        left -= 1;
        assert_eq!(s.len(), left);
    }
    assert_eq!(seen, b"o, wide w".to_vec());
    assert_eq!(s.next(), None);
    assert_eq!(s.len(), 0);
    assert_eq!(s.to_bytes(), Vec::<u8>::new());
}

#[test]
fn slice_can_be_cleared() {
    let r = fragmented();
    let mut s = r.slice(2..9).unwrap();
    assert_eq!(s.next(), Some(b'l'));
    s.clear();
    assert_eq!(s.len(), 0);
    assert_eq!(s.next(), None);
    assert_eq!(s.to_string().unwrap(), "");
}

#[test]
fn full_slice_shows_everything() {
    let r = fragmented();
    let s = r.full_slice();
    assert_eq!(s.len(), 18);
    assert_eq!(s.to_string().unwrap(), "Hello, wide world!");
    let e = Rope::new();
    assert_eq!(e.full_slice().to_bytes(), Vec::<u8>::new());
}

#[test]
fn fragments_do_not_show() {
    let whole = Rope::from_string("Hello, wide world!".to_string());
    let parts = fragmented();
    assert_eq!(whole.to_string(), parts.to_string());
    assert_eq!(whole.len(), parts.len());
    assert_eq!(whole.to_bytes(), parts.to_bytes());
    for a in 0..=18 {
        for b in a..=18 {
            assert_eq!(whole.slice(a..b).unwrap().to_bytes(), parts.slice(a..b).unwrap().to_bytes());
        }
    }
    assert_eq!(whole.chars().collect(), parts.chars().collect());
    let mut w = whole.full_slice();
    let mut p = parts.full_slice();
    loop {
        let (x, y) = (w.next(), p.next());
        assert_eq!(x, y);
        if x.is_none() {
            break;
        }
    }
}
