use compact_strings::{FixedCompactBytestrings, FixedCompactStrings};

fn sample() -> FixedCompactStrings {
    let mut list = FixedCompactStrings::with_capacity(20, 3);
    list.push("One");
    list.push("Two");
    list.push("Three");
    list
}

fn mixed_strs() -> Vec<&'static str> {
    vec!["short", "a long string", "", "€€€", "1234567", "12345678", "日本"]
}

fn collect_fixed_strs(list: &FixedCompactStrings) -> Vec<String> {
    let mut out = Vec::new();
    let mut iter = list.iter();
    while let Some(s) = iter.next() {
        out.push(s.to_string());
    }
    out
}

#[test]
fn fixed_compact_strings_exact_size_iterator() {
    let mut cmpstrs = FixedCompactStrings::new();

    cmpstrs.push("One");
    cmpstrs.push("Two");
    cmpstrs.push("Three");

    let mut iter = cmpstrs.iter();
    assert_eq!(iter.len(), 3);
    let _ = iter.next();
    assert_eq!(iter.len(), 2);
    let _ = iter.next();
    assert_eq!(iter.len(), 1);
    let _ = iter.next();
    assert_eq!(iter.len(), 0);
    let _ = iter.next();
    assert_eq!(iter.len(), 0);
}

#[test]
fn fixed_compact_strings_double_ended_iterator() {
    let mut cmpbytes = FixedCompactStrings::new();

    cmpbytes.push("One");
    cmpbytes.push("Two");
    cmpbytes.push("Three");
    cmpbytes.push("Four");

    let mut iter = cmpbytes.iter();
    assert_eq!(iter.next(), Some("One"));
    assert_eq!(iter.next_back(), Some("Four"));
    assert_eq!(iter.next(), Some("Two"));
    assert_eq!(iter.next_back(), Some("Three"));
    assert_eq!(iter.next(), None);
    assert_eq!(iter.next_back(), None);
}

#[test]
fn fixed_strings_new_is_empty() {
    let list = FixedCompactStrings::new();
    assert_eq!(list.len(), 0);
    assert!(list.is_empty());
    assert_eq!(list.get(0), None);
    assert!(FixedCompactStrings::default().is_empty());
    let list = FixedCompactStrings::with_capacity(20, 3);
    assert!(list.capacity() >= 20);
    assert!(list.capacity_meta() >= 3);
}

#[test]
fn fixed_strings_push_then_get() {
    let list = sample();
    assert_eq!(list.get(0), Some("One"));
    assert_eq!(list.get(1), Some("Two"));
    assert_eq!(list.get(2), Some("Three"));
    assert_eq!(list.get(3), None);
    assert_eq!(list.get_unchecked(1), "Two");
    assert_eq!(list.index(2), "Three");
    assert_eq!(list.buffer_len(), 0);
}

#[test]
fn fixed_strings_inline_boundary() {
    let mut list = FixedCompactStrings::new();
    list.push("1234567");
    assert_eq!(list.buffer_len(), 0);
    assert!(list.is_inline(0));
    list.push("12345678");
    assert_eq!(list.buffer_len(), 8);
    assert!(!list.is_inline(1));
    list.push("€€");
    assert!(list.is_inline(2));
    list.push("€€€");
    assert!(!list.is_inline(3));
    assert_eq!(list.buffer_len(), 17);
    assert_eq!(
        collect_fixed_strs(&list),
        vec!["1234567", "12345678", "€€", "€€€"]
    );
}

#[test]
fn fixed_strings_round_trip() {
    let items = mixed_strs();
    let list = FixedCompactStrings::from_iter(&items);
    assert_eq!(collect_fixed_strs(&list), items);
    for (i, item) in items.iter().enumerate() {
        assert_eq!(list.get(i), Some(*item));
    }
}

#[test]
fn fixed_strings_remove_every_position() {
    for index in 0..7 {
        let mut list = FixedCompactStrings::from_iter(&mixed_strs());
        let mut expected = mixed_strs();
        expected.remove(index);
        list.remove(index);
        assert_eq!(collect_fixed_strs(&list), expected);
        assert_eq!(list.len(), 6);
    }
}

#[test]
fn fixed_strings_clear_shrink_clone() {
    let mut list = FixedCompactStrings::from_iter(&mixed_strs());
    let copy = list.clone();
    assert!(copy == list);
    list.shrink_to(4);
    list.shrink_meta_to(4);
    list.shrink_to_fit();
    list.shrink_meta_to_fit();
    assert!(copy == list);
    list.clear();
    assert!(list.is_empty());
    assert!(copy != list);
    list.extend(&["a fresh start", "x"]);
    assert_eq!(collect_fixed_strs(&list), vec!["a fresh start", "x"]);
}

#[test]
fn fixed_strings_try_from_bytestrings() {
    let mut bytes = FixedCompactBytestrings::new();
    bytes.push(b"a");
    bytes.push(b"b");
    bytes.push("€".as_bytes());
    let list = match FixedCompactStrings::try_from(bytes) {
        Ok(list) => list,
        Err(_) => panic!("valid UTF-8 was refused"),
    };
    assert_eq!(collect_fixed_strs(&list), vec!["a", "b", "€"]);

    let mut bytes = FixedCompactBytestrings::new();
    bytes.push(b"a long and valid element");
    bytes.push(b"\xff");
    match FixedCompactStrings::try_from(bytes) {
        Ok(_) => panic!("invalid UTF-8 was taken"),
        Err(e) => {
            assert_eq!(e.index, 1);
            assert_eq!(e.error.valid_up_to(), 0);
            assert_eq!(e.list.len(), 2);
        }
    }
    let back = FixedCompactBytestrings::from(list);
    assert_eq!(back.get(2), Some("€".as_bytes()));
}

#[test]
fn fixed_strings_iter_skips() {
    let items = mixed_strs();
    let list = FixedCompactStrings::from_iter(&items);
    let mut iter = list.iter();
    assert_eq!(iter.nth(1), Some("a long string"));
    assert_eq!(iter.nth_back(1), Some("12345678"));
    assert_eq!(iter.len(), 3);
    assert_eq!(iter.size_hint(), (3, Some(3)));
    assert_eq!(iter.count(), 3);
    assert_eq!(list.iter().last(), Some("日本"));
    let mut iter = list.iter();
    assert_eq!(iter.nth(7), None);
    assert_eq!(iter.next_back(), None);
}

#[test]
fn fixed_strings_iter_collect() {
    let items = mixed_strs();
    let list = FixedCompactStrings::from_iter(&items);
    assert_eq!(list.iter().collect(), items);
}
