use compact_strings::slot::{MAX_OFFSET, WORD_BYTES};
use compact_strings::FixedCompactBytestrings;

fn sample() -> FixedCompactBytestrings {
    let mut list = FixedCompactBytestrings::with_capacity(20, 3);
    list.push(b"One");
    list.push(b"Two");
    list.push(b"Three");
    list
}

fn mixed() -> FixedCompactBytestrings {
    let mut list = FixedCompactBytestrings::new();
    list.push(b"short");
    list.push(b"a long element");
    list.push(b"");
    list.push(b"another long one");
    list.push(b"1234567");
    list.push(b"12345678");
    list.push(b"x");
    list
}

fn mixed_items() -> Vec<Vec<u8>> {
    vec![
        b"short".to_vec(),
        b"a long element".to_vec(),
        b"".to_vec(),
        b"another long one".to_vec(),
        b"1234567".to_vec(),
        b"12345678".to_vec(),
        b"x".to_vec(),
    ]
}

fn collect_fixed(list: &FixedCompactBytestrings) -> Vec<Vec<u8>> {
    let mut out = Vec::new();
    let mut iter = list.iter();
    while let Some(bytes) = iter.next() {
        out.push(bytes.to_vec());
    }
    out
}

#[test]
fn fixed_compact_bytestrings_exact_size_iterator() {
    let mut cmpbytes = FixedCompactBytestrings::new();

    cmpbytes.push(b"One");
    cmpbytes.push(b"Two");
    cmpbytes.push(b"Three");

    let mut iter = cmpbytes.iter();
    assert_eq!(iter.len(), 3);
    let _ = iter.next();
    assert_eq!(iter.len(), 2);
    let _ = iter.next();
    assert_eq!(iter.len(), 1);
    let _ = iter.next();
    assert_eq!(iter.len(), 0);
    let _ = iter.next();
    assert_eq!(iter.len(), 0);
}

#[test]
fn fixed_compact_bytestrings_double_ended_iterator() {
    let mut cmpbytes = FixedCompactBytestrings::new();

    cmpbytes.push(b"One");
    cmpbytes.push(b"Two");
    cmpbytes.push(b"Three");
    cmpbytes.push(b"Four");

    let mut iter = cmpbytes.iter();
    assert_eq!(iter.next(), Some(b"One".as_slice()));
    assert_eq!(iter.next_back(), Some(b"Four".as_slice()));
    assert_eq!(iter.next(), Some(b"Two".as_slice()));
    assert_eq!(iter.next_back(), Some(b"Three".as_slice()));
    assert_eq!(iter.next(), None);
    assert_eq!(iter.next_back(), None);
}

#[test]
fn fixed_bytestrings_constants() {
    assert_eq!(WORD_BYTES, 8);
    assert_eq!(MAX_OFFSET, u64::MAX >> 1);
}

#[test]
fn fixed_bytestrings_new_is_empty() {
    let list = FixedCompactBytestrings::new();
    assert_eq!(list.len(), 0);
    assert!(list.is_empty());
    assert_eq!(list.buffer_len(), 0);
    assert_eq!(list.get(0), None);
    assert!(FixedCompactBytestrings::default().is_empty());
}

#[test]
fn fixed_bytestrings_with_capacity_reserves() {
    let list = FixedCompactBytestrings::with_capacity(20, 3);
    assert_eq!(list.len(), 0);
    assert!(list.capacity() >= 20);
    assert!(list.capacity_meta() >= 3);
}

#[test]
fn fixed_bytestrings_push_then_get() {
    let mut list = sample();
    list.push(b"Seventeen");
    assert_eq!(list.get(0), Some(b"One".as_slice()));
    assert_eq!(list.get(1), Some(b"Two".as_slice()));
    assert_eq!(list.get(2), Some(b"Three".as_slice()));
    assert_eq!(list.get(3), Some(b"Seventeen".as_slice()));
    assert_eq!(list.get(4), None);
    assert_eq!(list.len(), 4);
}

#[test]
fn fixed_bytestrings_inline_boundary() {
    let mut list = FixedCompactBytestrings::new();
    list.push(b"1234567");
    assert_eq!(list.buffer_len(), 0);
    assert!(list.is_inline(0));
    assert_eq!(list.get(0), Some(b"1234567".as_slice()));
    list.push(b"12345678");
    assert_eq!(list.buffer_len(), 8);
    assert!(!list.is_inline(1));
    assert_eq!(list.get(1), Some(b"12345678".as_slice()));
    assert_eq!(list.get(0), Some(b"1234567".as_slice()));
}

#[test]
fn fixed_bytestrings_every_inline_length() {
    let bytes = b"\x80\xff\x00\x8f\x01\x7f\xfe";
    let mut list = FixedCompactBytestrings::new();
    for len in 0..WORD_BYTES {
        list.push(&bytes[..len]);
    }
    assert_eq!(list.buffer_len(), 0);
    for len in 0..WORD_BYTES {
        assert!(list.is_inline(len));
        assert_eq!(list.get(len), Some(&bytes[..len]));
    }
}

#[test]
fn fixed_bytestrings_offsets_that_look_like_tags() {
    // Long elements that begin at offsets whose low byte has the top bit set.
    let mut list = FixedCompactBytestrings::new();
    let mut expected = Vec::new();
    for i in 0..40u8 {
        let item = vec![i; 16];
        list.push(&item);
        expected.push(item);
    }
    assert_eq!(list.buffer_len(), 640);
    assert_eq!(collect_fixed(&list), expected);
    for i in 0..40usize {
        assert!(!list.is_inline(i));
        assert_eq!(list.get(i), Some(expected[i].as_slice()));
    }
    list.remove(7);
    expected.remove(7);
    assert_eq!(collect_fixed(&list), expected);
    assert_eq!(list.buffer_len(), 624);
}

#[test]
fn fixed_bytestrings_round_trip() {
    let list = mixed();
    assert_eq!(collect_fixed(&list), mixed_items());
    assert_eq!(list.buffer_len(), 14 + 16 + 8);
    let items = mixed_items();
    let slices: Vec<&[u8]> = items.iter().map(|v| v.as_slice()).collect();
    let built = FixedCompactBytestrings::from_iter(&slices);
    assert!(built == list);
}

#[test]
fn fixed_bytestrings_get_agrees_with_get_unchecked() {
    let list = mixed();
    for i in 0..list.len() {
        assert_eq!(list.get(i), Some(list.get_unchecked(i)));
        assert_eq!(list.index(i), list.get_unchecked(i));
    }
}

#[test]
fn fixed_bytestrings_remove_middle() {
    let mut list = sample();
    list.remove(1);
    assert_eq!(list.get(0), Some(b"One".as_slice()));
    assert_eq!(list.get(1), Some(b"Three".as_slice()));
    assert_eq!(list.get(2), None);
    assert_eq!(list.len(), 2);
}

#[test]
fn fixed_bytestrings_remove_every_position() {
    for index in 0..7 {
        let mut list = mixed();
        let mut expected = mixed_items();
        let removed = expected.remove(index);
        let before = list.buffer_len();
        list.remove(index);
        assert_eq!(collect_fixed(&list), expected);
        let freed = if removed.len() < WORD_BYTES { 0 } else { removed.len() };
        assert_eq!(list.buffer_len(), before - freed);
        for i in 0..expected.len() {
            assert_eq!(list.get(i), Some(expected[i].as_slice()));
        }
        assert_eq!(list.get(expected.len()), None);
    }
}

#[test]
fn fixed_bytestrings_remove_until_empty() {
    let mut list = mixed();
    let mut expected = mixed_items();
    while !expected.is_empty() {
        let index = expected.len() / 2;
        list.remove(index);
        expected.remove(index);
        assert_eq!(collect_fixed(&list), expected);
    }
    assert!(list.is_empty());
    assert_eq!(list.buffer_len(), 0);
}

#[test]
fn fixed_bytestrings_push_after_remove() {
    let mut list = mixed();
    list.remove(1);
    list.push(b"pushed afterwards");
    let mut expected = mixed_items();
    expected.remove(1);
    expected.push(b"pushed afterwards".to_vec());
    assert_eq!(collect_fixed(&list), expected);
}

#[test]
fn fixed_bytestrings_clear_then_push() {
    let mut list = mixed();
    list.clear();
    assert_eq!(list.len(), 0);
    assert!(list.is_empty());
    assert_eq!(list.buffer_len(), 0);
    list.push(b"a string for the buffer");
    list.push(b"tiny");
    assert_eq!(list.get(0), Some(b"a string for the buffer".as_slice()));
    assert_eq!(list.get(1), Some(b"tiny".as_slice()));
    assert_eq!(list.len(), 2);
}

#[test]
fn fixed_bytestrings_shrink_keeps_elements() {
    let mut list = FixedCompactBytestrings::with_capacity(40, 10);
    list.push(b"Padding One");
    list.push(b"Padding Two");
    list.push(b"Padding Three");
    assert!(list.capacity() >= 40);
    list.shrink_to(30);
    assert!(list.capacity() >= 35);
    list.shrink_to_fit();
    assert!(list.capacity() >= 35);
    list.shrink_meta_to(4);
    assert!(list.capacity_meta() >= 3);
    list.shrink_meta_to_fit();
    assert!(list.capacity_meta() >= 3);
    assert_eq!(list.get(2), Some(b"Padding Three".as_slice()));
    assert_eq!(list.buffer_len(), 35);
}

#[test]
fn fixed_bytestrings_equality_and_clone() {
    let list = mixed();
    let copy = list.clone();
    assert!(copy == list);
    assert_eq!(collect_fixed(&copy), mixed_items());
    let mut other = mixed();
    other.remove(0);
    assert!(other != list);
    other.push(b"y");
    assert!(other != list);
}

#[test]
fn fixed_bytestrings_extend_appends() {
    let mut list = sample();
    let more: Vec<&[u8]> = vec![b"Four", b"a fifth that is long"];
    list.extend(&more);
    assert_eq!(list.len(), 5);
    assert_eq!(list.get(3), Some(b"Four".as_slice()));
    assert_eq!(list.get(4), Some(b"a fifth that is long".as_slice()));
}

#[test]
fn fixed_bytestrings_iter_from_both_ends() {
    let list = mixed();
    let items = mixed_items();
    let mut iter = list.iter();
    assert_eq!(iter.next_back(), Some(items[6].as_slice()));
    assert_eq!(iter.next(), Some(items[0].as_slice()));
    assert_eq!(iter.next_back(), Some(items[5].as_slice()));
    assert_eq!(iter.next(), Some(items[1].as_slice()));
    assert_eq!(iter.len(), 3);
    assert_eq!(iter.next_back(), Some(items[4].as_slice()));
    assert_eq!(iter.next(), Some(items[2].as_slice()));
    assert_eq!(iter.next(), Some(items[3].as_slice()));
    assert_eq!(iter.next(), None);
    assert_eq!(iter.next_back(), None);
}

#[test]
fn fixed_bytestrings_iter_backwards() {
    let list = mixed();
    let mut items = mixed_items();
    let mut iter = list.iter();
    while let Some(bytes) = iter.next_back() {
        assert_eq!(bytes, items.pop().unwrap().as_slice());
    }
    assert!(items.is_empty());
}

#[test]
fn fixed_bytestrings_iter_nth() {
    let list = mixed();
    let items = mixed_items();
    let mut iter = list.iter();
    assert_eq!(iter.nth(1), Some(items[1].as_slice()));
    assert_eq!(iter.nth(1), Some(items[3].as_slice()));
    assert_eq!(iter.len(), 3);
    assert_eq!(iter.size_hint(), (3, Some(3)));
    assert_eq!(iter.nth(3), None);
    assert_eq!(iter.len(), 0);
    assert_eq!(iter.next_back(), None);
}

#[test]
fn fixed_bytestrings_iter_nth_back() {
    let list = mixed();
    let items = mixed_items();
    let mut iter = list.iter();
    assert_eq!(iter.nth_back(1), Some(items[5].as_slice()));
    assert_eq!(iter.nth_back(1), Some(items[3].as_slice()));
    assert_eq!(iter.nth_back(0), Some(items[2].as_slice()));
    assert_eq!(iter.nth_back(0), Some(items[1].as_slice()));
    assert_eq!(iter.next(), Some(items[0].as_slice()));
    assert_eq!(iter.nth_back(0), None);
    let mut iter = list.iter();
    assert_eq!(iter.nth_back(2), Some(items[4].as_slice()));
    assert_eq!(iter.next_back(), Some(items[3].as_slice()));
    let mut iter = list.iter();
    assert_eq!(iter.nth_back(7), None);
    assert_eq!(iter.next(), None);
}

#[test]
fn fixed_bytestrings_iter_count_and_last() {
    let list = mixed();
    assert_eq!(list.iter().count(), 7);
    assert_eq!(list.iter().last(), Some(b"x".as_slice()));
    let mut iter = list.iter();
    let _ = iter.next_back();
    assert_eq!(iter.last(), Some(b"12345678".as_slice()));
    assert_eq!(FixedCompactBytestrings::new().iter().last(), None);
}

#[test]
fn fixed_bytestrings_iter_collect() {
    let list = mixed();
    let items = mixed_items();
    let all = list.iter().collect();
    assert_eq!(all.len(), 7);
    for (got, want) in all.iter().zip(items.iter()) {
        assert_eq!(*got, want.as_slice());
    }
    let mut iter = list.iter();
    let _ = iter.next_back();
    let _ = iter.next();
    assert_eq!(iter.collect().len(), 5);
}
