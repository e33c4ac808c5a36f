use compact_strings::CompactBytestrings;

fn sample() -> CompactBytestrings {
    let mut list = CompactBytestrings::with_capacity(20, 3);
    list.push(b"One");
    list.push(b"Two");
    list.push(b"Three");
    list
}

fn collect(list: &CompactBytestrings) -> Vec<Vec<u8>> {
    let mut out = Vec::new();
    let mut iter = list.iter();
    while let Some(bytes) = iter.next() {
        out.push(bytes.to_vec());
    }
    out
}

#[test]
fn compact_bytestrings_exact_size_iterator() {
    let mut cmpbytes = CompactBytestrings::new();

    cmpbytes.push(b"One");
    cmpbytes.push(b"Two");
    cmpbytes.push(b"Three");

    let mut iter = cmpbytes.iter();
    assert_eq!(iter.len(), 3);
    let _ = iter.next();
    assert_eq!(iter.len(), 2);
    let _ = iter.next();
    assert_eq!(iter.len(), 1);
    let _ = iter.next();
    assert_eq!(iter.len(), 0);
    let _ = iter.next();
    assert_eq!(iter.len(), 0);
}

#[test]
fn compact_bytestrings_double_ended_iterator() {
    let mut cmpbytes = CompactBytestrings::new();

    cmpbytes.push(b"One");
    cmpbytes.push(b"Two");
    cmpbytes.push(b"Three");
    cmpbytes.push(b"Four");

    let mut iter = cmpbytes.iter();
    assert_eq!(iter.next(), Some(b"One".as_slice()));
    assert_eq!(iter.next_back(), Some(b"Four".as_slice()));
    assert_eq!(iter.next(), Some(b"Two".as_slice()));
    assert_eq!(iter.next_back(), Some(b"Three".as_slice()));
    assert_eq!(iter.next(), None);
    assert_eq!(iter.next_back(), None);
}

#[test]
fn bytestrings_new_is_empty() {
    let list = CompactBytestrings::new();
    assert_eq!(list.len(), 0);
    assert!(list.is_empty());
    assert_eq!(list.buffer_len(), 0);
    assert_eq!(list.get(0), None);
}

#[test]
fn bytestrings_with_capacity_reserves() {
    let list = CompactBytestrings::with_capacity(20, 3);
    assert_eq!(list.len(), 0);
    assert!(list.capacity() >= 20);
    assert!(list.capacity_meta() >= 3);
}

#[test]
fn bytestrings_push_then_get() {
    let list = sample();
    assert_eq!(list.len(), 3);
    assert!(!list.is_empty());
    assert_eq!(list.get(0), Some(b"One".as_slice()));
    assert_eq!(list.get(1), Some(b"Two".as_slice()));
    assert_eq!(list.get(2), Some(b"Three".as_slice()));
    assert_eq!(list.get(3), None);
    assert_eq!(list.buffer_len(), 11);
}

#[test]
fn bytestrings_round_trip() {
    let items: Vec<&[u8]> = vec![b"", b"a", b"\xff\x00", b"a longer byte string", b""];
    let list = CompactBytestrings::from_iter(&items);
    let got = collect(&list);
    assert_eq!(got.len(), items.len());
    for (g, i) in got.iter().zip(items.iter()) {
        assert_eq!(g.as_slice(), *i);
    }
}

#[test]
fn bytestrings_get_agrees_with_get_unchecked() {
    let list = sample();
    for i in 0..list.len() {
        assert_eq!(list.get(i), Some(list.get_unchecked(i)));
        assert_eq!(list.index(i), list.get_unchecked(i));
    }
}

#[test]
fn bytestrings_remove_middle() {
    let mut list = sample();
    list.remove(1);
    assert_eq!(list.get(0), Some(b"One".as_slice()));
    assert_eq!(list.get(1), Some(b"Three".as_slice()));
    assert_eq!(list.get(2), None);
    assert_eq!(list.len(), 2);
    assert_eq!(list.buffer_len(), 8);
}

#[test]
fn bytestrings_remove_first_and_last() {
    let mut list = sample();
    list.remove(0);
    assert_eq!(collect(&list), vec![b"Two".to_vec(), b"Three".to_vec()]);
    list.remove(1);
    assert_eq!(collect(&list), vec![b"Two".to_vec()]);
    list.remove(0);
    assert!(list.is_empty());
    assert_eq!(list.buffer_len(), 0);
}

#[test]
fn bytestrings_ignore_keeps_bytes() {
    let mut list = sample();
    list.ignore(1);
    assert_eq!(list.get(0), Some(b"One".as_slice()));
    assert_eq!(list.get(1), Some(b"Three".as_slice()));
    assert_eq!(list.get(2), None);
    assert_eq!(list.buffer_len(), 11);
}

#[test]
fn bytestrings_ignore_and_remove_agree() {
    let mut ignored = sample();
    let mut removed = sample();
    ignored.ignore(0);
    removed.remove(0);
    assert_eq!(collect(&ignored), collect(&removed));
    assert!(ignored == removed);
    assert!(ignored.buffer_len() >= removed.buffer_len());
    assert!(ignored.capacity() >= removed.buffer_len());
}

#[test]
fn bytestrings_remove_after_ignore() {
    let mut list = CompactBytestrings::new();
    list.push(b"alpha");
    list.push(b"beta");
    list.push(b"gamma");
    list.push(b"delta");
    list.ignore(1);
    list.remove(0);
    assert_eq!(collect(&list), vec![b"gamma".to_vec(), b"delta".to_vec()]);
    assert_eq!(list.buffer_len(), 14);
    list.remove(1);
    assert_eq!(collect(&list), vec![b"gamma".to_vec()]);
    assert_eq!(list.buffer_len(), 9);
}

#[test]
fn bytestrings_swap_remove() {
    let mut list = sample();
    list.push(b"Four");
    list.swap_remove(0);
    assert_eq!(
        collect(&list),
        vec![b"Four".to_vec(), b"Two".to_vec(), b"Three".to_vec()]
    );
    assert_eq!(list.buffer_len(), 12);
    list.swap_remove(2);
    assert_eq!(collect(&list), vec![b"Four".to_vec(), b"Two".to_vec()]);
    assert_eq!(list.buffer_len(), 7);
}

#[test]
fn bytestrings_swap_ignore() {
    let mut list = sample();
    list.swap_ignore(0);
    assert_eq!(collect(&list), vec![b"Three".to_vec(), b"Two".to_vec()]);
    assert_eq!(list.buffer_len(), 11);
    list.swap_ignore(1);
    assert_eq!(collect(&list), vec![b"Three".to_vec()]);
}

#[test]
fn bytestrings_swap_remove_then_remove() {
    let mut list = CompactBytestrings::new();
    list.push(b"aa");
    list.push(b"bbb");
    list.push(b"cccc");
    list.push(b"ddddd");
    list.swap_remove(1);
    assert_eq!(
        collect(&list),
        vec![b"aa".to_vec(), b"ddddd".to_vec(), b"cccc".to_vec()]
    );
    list.remove(2);
    assert_eq!(collect(&list), vec![b"aa".to_vec(), b"ddddd".to_vec()]);
    list.remove(0);
    assert_eq!(collect(&list), vec![b"ddddd".to_vec()]);
    assert_eq!(list.buffer_len(), 5);
}

#[test]
fn bytestrings_remove_empty_element() {
    let mut list = CompactBytestrings::new();
    list.push(b"ab");
    list.push(b"");
    list.push(b"cd");
    list.remove(1);
    assert_eq!(collect(&list), vec![b"ab".to_vec(), b"cd".to_vec()]);
    list.push(b"");
    list.remove(0);
    assert_eq!(collect(&list), vec![b"cd".to_vec(), b"".to_vec()]);
}

#[test]
fn bytestrings_clear_then_push() {
    let mut list = sample();
    list.clear();
    assert_eq!(list.len(), 0);
    assert!(list.is_empty());
    assert_eq!(list.buffer_len(), 0);
    list.push(b"Again");
    assert_eq!(list.get(0), Some(b"Again".as_slice()));
    assert_eq!(list.len(), 1);
    list.clear();
    list.clear();
    assert!(list.is_empty());
}

#[test]
fn bytestrings_shrink_keeps_elements() {
    let mut list = sample();
    list.shrink_to(4);
    assert!(list.capacity() >= 11);
    list.shrink_meta_to(4);
    assert!(list.capacity_meta() >= 3);
    list.shrink_to_fit();
    list.shrink_meta_to_fit();
    assert!(list.capacity() >= 11);
    assert!(list.capacity_meta() >= 3);
    assert_eq!(
        collect(&list),
        vec![b"One".to_vec(), b"Two".to_vec(), b"Three".to_vec()]
    );
}

#[test]
fn bytestrings_equality_ignores_layout() {
    let mut a = CompactBytestrings::new();
    a.push(b"gone");
    a.push(b"x");
    a.push(b"y");
    a.ignore(0);
    let mut b = CompactBytestrings::new();
    b.push(b"x");
    b.push(b"y");
    assert!(a == b);
    b.push(b"z");
    assert!(a != b);
    a.push(b"w");
    assert!(a != b);
}

#[test]
fn bytestrings_clone_is_equal() {
    let mut list = sample();
    list.ignore(1);
    let copy = list.clone();
    assert!(copy == list);
    assert_eq!(collect(&copy), vec![b"One".to_vec(), b"Three".to_vec()]);
    assert_eq!(copy.buffer_len(), 8);
}

#[test]
fn bytestrings_extend_appends() {
    let mut list = sample();
    let more: Vec<&[u8]> = vec![b"Four", b"Five"];
    list.extend(&more);
    assert_eq!(list.len(), 5);
    assert_eq!(list.get(3), Some(b"Four".as_slice()));
    assert_eq!(list.get(4), Some(b"Five".as_slice()));
}

#[test]
fn bytestrings_default_is_empty() {
    let list = CompactBytestrings::default();
    assert!(list.is_empty());
}

#[test]
fn bytestrings_iter_nth() {
    let list = sample();
    let mut iter = list.iter();
    assert_eq!(iter.nth(1), Some(b"Two".as_slice()));
    assert_eq!(iter.len(), 1);
    assert_eq!(iter.size_hint(), (1, Some(1)));
    assert_eq!(iter.nth(1), None);
    assert_eq!(iter.len(), 0);
    let mut iter = list.iter();
    assert_eq!(iter.nth_back(1), Some(b"Two".as_slice()));
    assert_eq!(iter.next(), Some(b"One".as_slice()));
    assert_eq!(iter.next(), None);
    let mut iter = list.iter();
    assert_eq!(iter.nth_back(3), None);
    assert_eq!(iter.next(), None);
}

#[test]
fn bytestrings_iter_collect() {
    let list = sample();
    let all = list.iter().collect();
    assert_eq!(all, vec![b"One".as_slice(), b"Two".as_slice(), b"Three".as_slice()]);
    let mut iter = list.iter();
    let _ = iter.next();
    assert_eq!(iter.collect(), vec![b"Two".as_slice(), b"Three".as_slice()]);
    assert!(CompactBytestrings::new().iter().collect().is_empty());
}
