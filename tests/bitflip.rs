use std::collections::BTreeSet;

use bitflip::{ascii_bytes, ascii_str, bytes, utf8, ByteIterator, StringIterator};

fn all_bytes(mut it: ByteIterator) -> Vec<Vec<u8>> {
    let mut out = Vec::new();
    while let Some(v) = it.next() {
        out.push(v);
    }
    out
}

fn all_strings(mut it: StringIterator) -> Vec<String> {
    let mut out = Vec::new();
    while let Some(s) = it.next() {
        out.push(s);
    }
    out
}

fn byte_set(list: &[&[u8]]) -> BTreeSet<Vec<u8>> {
    list.iter().map(|b| b.to_vec()).collect()
}

fn string_set(list: &[&str]) -> BTreeSet<String> {
    list.iter().map(|s| s.to_string()).collect()
}

const ABC_ASCII: [&str; 21] = [
    "!bc", "Abc", "qbc", "ibc", "ebc", "cbc", "`bc", "a\"c", "aBc", "arc", "ajc", "afc", "a`c",
    "acc", "ab#", "abC", "abs", "abk", "abg", "aba", "abb",
];

#[test]
fn test_ascii_bytes() {
    let results: BTreeSet<Vec<u8>> = all_bytes(ascii_bytes(b"abc")).into_iter().collect();
    let expected = byte_set(&[
        b"!bc", b"Abc", b"qbc", b"ibc", b"ebc", b"cbc", b"`bc", b"a\"c", b"aBc", b"arc", b"ajc",
        b"afc", b"a`c", b"acc", b"ab#", b"abC", b"abs", b"abk", b"abg", b"aba", b"abb",
    ]);
    assert_eq!(results, expected);
}

#[test]
fn test_bytes() {
    let results: BTreeSet<Vec<u8>> = all_bytes(bytes(b"abc")).into_iter().collect();
    let expected = byte_set(&[
        b"!bc", b"Abc", b"qbc", b"ibc", b"ebc", b"cbc", b"`bc", b"a\"c", b"aBc", b"arc", b"ajc",
        b"afc", b"a`c", b"acc", b"ab#", b"abC", b"abs", b"abk", b"abg", b"aba", b"abb",
        b"\xe1bc", b"a\xe2c", b"ab\xe3",
    ]);
    assert_eq!(results, expected);
}

#[test]
fn test_ascii_str() {
    let results: BTreeSet<String> = all_strings(ascii_str("abc")).into_iter().collect();
    assert_eq!(results, string_set(&ABC_ASCII));
}

#[test]
fn test_utf8() {
    let results: BTreeSet<String> = all_strings(utf8("abc")).into_iter().collect();
    assert_eq!(results, string_set(&ABC_ASCII));
}

#[test]
fn ascii_bytes_order_and_count() {
    let out = all_bytes(ascii_bytes(b"abc"));
    assert_eq!(out.len(), 21);
    // byte 0 first, from the least significant bit up
    assert_eq!(out[0], b"`bc".to_vec());
    assert_eq!(out[1], b"cbc".to_vec());
    assert_eq!(out[6], b"!bc".to_vec());
    assert_eq!(out[7], b"acc".to_vec());
    assert_eq!(out[20], b"ab#".to_vec());
    assert!(!out.contains(&b"\xe1bc".to_vec()));
}

#[test]
fn bytes_count_and_high_bits() {
    let out = all_bytes(bytes(b"abc"));
    assert_eq!(out.len(), 24);
    assert_eq!(out[7], b"\xe1bc".to_vec());
    assert_eq!(out[15], b"a\xe2c".to_vec());
    assert_eq!(out[23], b"ab\xe3".to_vec());
    let ascii: BTreeSet<Vec<u8>> = all_bytes(ascii_bytes(b"abc")).into_iter().collect();
    let full: BTreeSet<Vec<u8>> = out.into_iter().collect();
    assert!(ascii.is_subset(&full));
    assert_eq!(full.len() - ascii.len(), 3);
}

#[test]
fn variants_distinct_and_one_bit_apart() {
    let input: &[u8] = &[0x00, 0xff, 0x5a, 0x80];
    for (width, it) in [(7usize, ascii_bytes(input)), (8usize, bytes(input))] {
        let out = all_bytes(it);
        assert_eq!(out.len(), input.len() * width);
        let set: BTreeSet<Vec<u8>> = out.iter().cloned().collect();
        assert_eq!(set.len(), out.len());
        for v in &out {
            assert_eq!(v.len(), input.len());
            let bits: u32 = v.iter().zip(input).map(|(a, b)| (a ^ b).count_ones()).sum();
            assert_eq!(bits, 1);
        }
    }
}

#[test]
fn ascii_width_never_touches_high_bit() {
    let input: &[u8] = &[0x80, 0xff];
    for v in all_bytes(ascii_bytes(input)) {
        assert_eq!(v[0] & 0x80, 0x80);
        assert_eq!(v[1] & 0x80, 0x80);
    }
}

#[test]
fn single_byte_yields_width_variants() {
    assert_eq!(all_bytes(ascii_bytes(b"z")).len(), 7);
    assert_eq!(all_bytes(bytes(b"z")).len(), 8);
}

#[test]
fn empty_input_yields_nothing() {
    assert!(all_bytes(ascii_bytes(b"")).is_empty());
    assert!(all_bytes(bytes(b"")).is_empty());
    assert!(all_strings(ascii_str("")).is_empty());
    assert!(all_strings(utf8("")).is_empty());
}

#[test]
fn exhaustion_is_permanent() {
    let mut b = bytes(b"x");
    for _ in 0..8 {
        assert!(b.next().is_some());
    }
    for _ in 0..5 {
        assert_eq!(b.next(), None);
    }
    let mut s = utf8("x");
    while s.next().is_some() {}
    for _ in 0..5 {
        assert_eq!(s.next(), None);
    }
}

#[test]
fn sessions_are_independent() {
    let alone = all_bytes(bytes(b"hi"));
    let mut a = bytes(b"hi");
    let mut b = bytes(b"hi");
    let mut from_a = Vec::new();
    let mut from_b = Vec::new();
    // drain b twice as fast as a
    loop {
        let x = a.next();
        let y = b.next();
        let z = b.next();
        if let Some(v) = x {
            from_a.push(v);
        }
        from_b.extend(y);
        from_b.extend(z);
        if from_a.len() == alone.len() {
            break;
        }
    }
    assert_eq!(from_a, alone);
    assert_eq!(from_b, alone);
}

#[test]
fn utf8_drops_the_three_high_bit_flips() {
    let out = all_strings(utf8("abc"));
    assert_eq!(out.len(), 21);
    assert_eq!(out, all_strings(ascii_str("abc")));
}

#[test]
fn text_outputs_are_valid_variants_in_order() {
    let input = "h\u{e9}";
    let filtered = all_strings(utf8(input));
    let expected: Vec<String> = all_bytes(bytes(input.as_bytes()))
        .into_iter()
        .filter_map(|v| String::from_utf8(v).ok())
        .collect();
    assert_eq!(filtered, expected);
    assert!(filtered.len() < 8 * input.len());
}

#[test]
fn utf8_rejects_broken_continuation_byte() {
    // U+00E9 is 0xC3 0xA9; flipping bit 6 of 0xA9 gives 0xE9, no longer a continuation byte
    let out = all_strings(utf8("\u{e9}"));
    assert!(!out.iter().any(|s| s.as_bytes() == [0xc3, 0xe9]));
    // flipping bit 7 of 0xA9 gives 0x29, which leaves a lone lead byte
    assert!(!out.iter().any(|s| s.as_bytes() == [0xc3, 0x29]));
    // flipping bit 0 of 0xA9 gives 0xA8, still a valid two-byte sequence
    assert!(out.contains(&"\u{e8}".to_string()));
    for s in &out {
        let b = s.as_bytes();
        assert_eq!(b.len(), 2);
    }
}

#[test]
fn ascii_str_on_multibyte_input() {
    // the high bits stay set, so every variant of a two-byte character stays two bytes long
    let out = all_strings(ascii_str("\u{e9}"));
    assert!(out.contains(&"\u{e8}".to_string()));
    assert!(out.iter().all(|s| s.len() == 2));
}
