use compact_strings::{CompactBytestrings, CompactStrings};

fn sample() -> CompactStrings {
    let mut list = CompactStrings::with_capacity(20, 3);
    list.push("One");
    list.push("Two");
    list.push("Three");
    list
}

fn collect_strs(list: &CompactStrings) -> Vec<String> {
    let mut out = Vec::new();
    let mut iter = list.iter();
    while let Some(s) = iter.next() {
        out.push(s.to_string());
    }
    out
}

#[test]
fn compact_strings_exact_size_iterator() {
    let mut cmpstrs = CompactStrings::new();

    cmpstrs.push("One");
    cmpstrs.push("Two");
    cmpstrs.push("Three");

    let mut iter = cmpstrs.iter();
    assert_eq!(iter.len(), 3);
    let _ = iter.next();
    assert_eq!(iter.len(), 2);
    let _ = iter.next();
    assert_eq!(iter.len(), 1);
    let _ = iter.next();
    assert_eq!(iter.len(), 0);
    let _ = iter.next();
    assert_eq!(iter.len(), 0);
}

#[test]
fn compact_strings_double_ended_iterator() {
    let mut cmpbytes = CompactStrings::new();

    cmpbytes.push("One");
    cmpbytes.push("Two");
    cmpbytes.push("Three");
    cmpbytes.push("Four");

    let mut iter = cmpbytes.iter();
    assert_eq!(iter.next(), Some("One"));
    assert_eq!(iter.next_back(), Some("Four"));
    assert_eq!(iter.next(), Some("Two"));
    assert_eq!(iter.next_back(), Some("Three"));
    assert_eq!(iter.next(), None);
    assert_eq!(iter.next_back(), None);
}

#[test]
fn strings_new_is_empty() {
    let list = CompactStrings::new();
    assert_eq!(list.len(), 0);
    assert!(list.is_empty());
    assert_eq!(list.get(0), None);
    assert!(CompactStrings::default().is_empty());
}

#[test]
fn strings_with_capacity_reserves() {
    let list = CompactStrings::with_capacity(20, 3);
    assert_eq!(list.len(), 0);
    assert!(list.capacity() >= 20);
    assert!(list.capacity_meta() >= 3);
}

#[test]
fn strings_push_then_get() {
    let list = sample();
    assert_eq!(list.get(0), Some("One"));
    assert_eq!(list.get(1), Some("Two"));
    assert_eq!(list.get(2), Some("Three"));
    assert_eq!(list.get(3), None);
    assert_eq!(list.get_unchecked(2), "Three");
    assert_eq!(list.index(0), "One");
    assert_eq!(list.buffer_len(), 11);
}

#[test]
fn strings_round_trip_with_wide_chars() {
    let items = vec!["", "a", "€", "naïve", "日本語", "\u{10348}"];
    let list = CompactStrings::from_iter(&items);
    assert_eq!(collect_strs(&list), items);
    assert_eq!(list.buffer_len(), 0 + 1 + 3 + 6 + 9 + 4);
}

#[test]
fn strings_remove_and_ignore() {
    let mut list = sample();
    list.remove(1);
    assert_eq!(list.get(0), Some("One"));
    assert_eq!(list.get(1), Some("Three"));
    assert_eq!(list.get(2), None);
    assert_eq!(list.buffer_len(), 8);
    let mut list = sample();
    list.ignore(1);
    assert_eq!(collect_strs(&list), vec!["One", "Three"]);
    assert_eq!(list.buffer_len(), 11);
}

#[test]
fn strings_swap_remove_and_swap_ignore() {
    let mut list = sample();
    list.swap_remove(0);
    assert_eq!(collect_strs(&list), vec!["Three", "Two"]);
    assert_eq!(list.buffer_len(), 8);
    let mut list = sample();
    list.swap_ignore(0);
    assert_eq!(collect_strs(&list), vec!["Three", "Two"]);
    assert_eq!(list.buffer_len(), 11);
}

#[test]
fn strings_clear_then_push() {
    let mut list = sample();
    list.clear();
    assert!(list.is_empty());
    assert_eq!(list.len(), 0);
    list.push("Again");
    assert_eq!(list.get(0), Some("Again"));
}

#[test]
fn strings_shrink_keeps_elements() {
    let mut list = sample();
    list.shrink_to(4);
    list.shrink_meta_to(4);
    list.shrink_to_fit();
    list.shrink_meta_to_fit();
    assert!(list.capacity() >= 11);
    assert!(list.capacity_meta() >= 3);
    assert_eq!(collect_strs(&list), vec!["One", "Two", "Three"]);
}

#[test]
fn strings_equality_clone_extend() {
    let mut list = sample();
    let copy = list.clone();
    assert!(copy == list);
    list.extend(&["Four"]);
    assert!(copy != list);
    assert_eq!(list.get(3), Some("Four"));
}

#[test]
fn strings_try_from_valid_bytestrings() {
    let mut bytes = CompactBytestrings::new();
    bytes.push(b"a");
    bytes.push(b"b");
    bytes.push("€".as_bytes());
    let list = match CompactStrings::try_from(bytes) {
        Ok(list) => list,
        Err(_) => panic!("valid UTF-8 was refused"),
    };
    assert_eq!(collect_strs(&list), vec!["a", "b", "€"]);
}

#[test]
fn strings_try_from_invalid_bytestrings() {
    let mut bytes = CompactBytestrings::new();
    bytes.push(b"ok");
    bytes.push(b"\xff");
    bytes.push(b"ab\xc3");
    match CompactStrings::try_from(bytes) {
        Ok(_) => panic!("invalid UTF-8 was taken"),
        Err(e) => {
            assert_eq!(e.index, 1);
            assert_eq!(e.error.valid_up_to(), 0);
            assert_eq!(e.list.len(), 3);
            assert_eq!(e.list.get(1), Some(b"\xff".as_slice()));
        }
    }
    let mut bytes = CompactBytestrings::new();
    bytes.push(b"ab\xc3");
    match CompactStrings::try_from(bytes) {
        Ok(_) => panic!("invalid UTF-8 was taken"),
        Err(e) => {
            assert_eq!(e.index, 0);
            assert_eq!(e.error.valid_up_to(), 2);
        }
    }
}

#[test]
fn strings_into_bytestrings() {
    let list = sample();
    let bytes = CompactBytestrings::from(list);
    assert_eq!(bytes.len(), 3);
    assert_eq!(bytes.get(2), Some(b"Three".as_slice()));
}

#[test]
fn strings_iter_nth() {
    let list = sample();
    let mut iter = list.iter();
    assert_eq!(iter.nth(2), Some("Three"));
    assert_eq!(iter.next(), None);
    let mut iter = list.iter();
    assert_eq!(iter.nth_back(2), Some("One"));
    assert_eq!(iter.size_hint(), (0, Some(0)));
}

#[test]
fn strings_iter_collect() {
    let list = sample();
    assert_eq!(list.iter().collect(), vec!["One", "Two", "Three"]);
}
