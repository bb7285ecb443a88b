use stardict::idx::{read_be32, Idx};
use stardict::result::DictError;
use stardict::syn::Syn;

fn idx_bytes(entries: &[(&[u8], u32, u32)]) -> Vec<u8> {
    let mut v = Vec::new();
    for (w, o, l) in entries {
        v.extend_from_slice(w);
        v.push(0);
        v.extend_from_slice(&o.to_be_bytes());
        v.extend_from_slice(&l.to_be_bytes());
    }
    v
}

fn syn_bytes(entries: &[(&[u8], u32)]) -> Vec<u8> {
    let mut v = Vec::new();
    for (w, t) in entries {
        v.extend_from_slice(w);
        v.push(0);
        v.extend_from_slice(&t.to_be_bytes());
    }
    v
}

fn five() -> Idx {
    let content = idx_bytes(&[(b"a", 0, 1), (b"b", 1, 1), (b"c", 2, 1), (b"d", 3, 1), (b"e", 4, 1)]);
    Idx::open(content, 5, 8).unwrap()
}

#[test]
fn open_holds_declared_count() {
    let idx = five();
    assert_eq!(idx.len(), 5);
}

#[test]
fn open_rejects_count_mismatch() {
    let content = idx_bytes(&[(b"a", 0, 1), (b"b", 1, 1)]);
    assert!(matches!(Idx::open(content, 3, 8), Err(DictError::My(_))));
}

#[test]
fn open_empty_index() {
    let idx = Idx::open(Vec::new(), 0, 8).unwrap();
    assert_eq!(idx.len(), 0);
    assert_eq!(idx.get(b"x"), Err(0));
}

#[test]
fn words_come_back_without_nul() {
    let idx = five();
    for i in 0..5 {
        let w = idx.get_word(i).unwrap();
        assert!(!w.contains(&0));
        assert_eq!(w.len(), 1);
    }
    assert_eq!(idx.get_word(2).unwrap(), b"c".to_vec());
    assert!(matches!(idx.get_word(5), Err(DictError::NotFound(5))));
}

#[test]
fn offset_length_32_bit() {
    let content = idx_bytes(&[(b"apple", 0, 5), (b"banana", 5, 6), (b"cherry", 11, 6)]);
    let idx = Idx::open(content, 3, 8).unwrap();
    assert_eq!(idx.get_offset_length(1).unwrap(), (5, 6));
    assert_eq!(idx.get_offset_length(2).unwrap(), (11, 6));
    assert!(matches!(idx.get_offset_length(3), Err(DictError::NotFound(3))));
}

#[test]
fn offset_length_64_bit() {
    let mut content = Vec::new();
    content.extend_from_slice(b"big");
    content.push(0);
    content.extend_from_slice(&0x0000_0001_0000_0002u64.to_be_bytes());
    content.extend_from_slice(&7u32.to_be_bytes());
    let idx = Idx::open(content, 1, 12).unwrap();
    assert_eq!(idx.get_offset_length(0).unwrap(), (0x1_0000_0002, 7));
}

#[test]
fn truncated_trailer_is_an_io_error() {
    let mut content = idx_bytes(&[(b"a", 0, 1)]);
    content.extend_from_slice(b"b\0\0\0");
    let idx = Idx::open(content, 2, 8).unwrap();
    assert_eq!(idx.get_word(1).unwrap(), b"b".to_vec());
    assert!(matches!(idx.get_offset_length(1), Err(DictError::Io(_))));
}

#[test]
fn get_finds_exact_word() {
    let idx = five();
    assert_eq!(idx.get(b"c"), Ok(2));
    assert_eq!(idx.get(b"a"), Ok(0));
    assert_eq!(idx.get(b"e"), Ok(4));
}

#[test]
fn get_falls_back_to_case_insensitive() {
    let content = idx_bytes(&[(b"Apple", 0, 5), (b"banana", 5, 6)]);
    let idx = Idx::open(content, 2, 8).unwrap();
    assert_eq!(idx.get(b"apple"), Ok(0));
    assert_eq!(idx.get(b"APPLE"), Ok(0));
}

#[test]
fn get_prefers_the_exact_case() {
    let content = idx_bytes(&[(b"Apple", 0, 1), (b"apple", 1, 1), (b"b", 2, 1)]);
    let idx = Idx::open(content, 3, 8).unwrap();
    assert_eq!(idx.get(b"apple"), Ok(1));
    assert_eq!(idx.get(b"Apple"), Ok(0));
}

#[test]
fn get_hints_where_a_word_would_stand() {
    let content = idx_bytes(&[(b"b", 0, 1), (b"d", 1, 1), (b"f", 2, 1)]);
    let idx = Idx::open(content, 3, 8).unwrap();
    assert_eq!(idx.get(b"a"), Err(0));
    assert_eq!(idx.get(b"c"), Err(1));
    assert_eq!(idx.get(b"e"), Err(2));
    assert_eq!(idx.get(b"g"), Err(3));
    assert_eq!(idx.get(b""), Err(0));
}

#[test]
fn hint_is_between_smaller_and_greater() {
    let content = idx_bytes(&[(b"alpha", 0, 1), (b"beta", 1, 1), (b"delta", 2, 1), (b"gamma", 3, 1)]);
    let idx = Idx::open(content, 4, 8).unwrap();
    let k = idx.get(b"charlie").unwrap_err();
    assert_eq!(k, 2);
    let before = idx.get_word(k - 1).unwrap();
    let after = idx.get_word(k).unwrap();
    assert!(Idx::dict_cmp(&before, b"charlie", true) < Idx::dict_cmp(&after, b"charlie", true));
}

#[test]
fn found_word_equals_query_ignoring_case() {
    let content = idx_bytes(&[(b"Alpha", 0, 1), (b"beta", 1, 1)]);
    let idx = Idx::open(content, 2, 8).unwrap();
    let i = idx.get(b"ALPHA").unwrap();
    assert_eq!(Idx::dict_cmp(&idx.get_word(i).unwrap(), b"ALPHA", true), std::cmp::Ordering::Equal);
}

#[test]
fn adjacent_words_ascend_ignoring_case() {
    let content = idx_bytes(&[(b"Apple", 0, 1), (b"apple", 1, 1), (b"Banana", 2, 1), (b"cherry", 3, 1)]);
    let idx = Idx::open(content, 4, 8).unwrap();
    for i in 0..3 {
        let a = idx.get_word(i).unwrap();
        let b = idx.get_word(i + 1).unwrap();
        assert_ne!(Idx::dict_cmp(&a, &b, true), std::cmp::Ordering::Greater);
    }
}

#[test]
fn read_be32_reads_big_endian() {
    assert_eq!(read_be32(&[0x01, 0x02, 0x03, 0x04]), 0x0102_0304);
    assert_eq!(read_be32(&[0xFF, 0xFF, 0xFF, 0xFF]), u32::MAX);
}

#[test]
fn syn_open_get_and_offset() {
    let content = syn_bytes(&[(b"HUE", 1), (b"hue", 0), (b"tint", 3)]);
    let syn = Syn::open(content, 3).unwrap();
    assert_eq!(syn.len(), 3);
    assert_eq!(syn.get_word(2).unwrap(), b"tint".to_vec());
    assert_eq!(syn.get_offset(0), Ok(1));
    assert_eq!(syn.get_offset(2), Ok(3));
    assert_eq!(syn.get_offset(3), Err(3));
    let i = syn.get(b"Hue").unwrap();
    assert!(i <= 1);
    assert_eq!(syn.get(b"a"), Err(0));
    assert_eq!(syn.get(b"zebra"), Err(3));
}

#[test]
fn syn_rejects_count_mismatch() {
    let content = syn_bytes(&[(b"hue", 0)]);
    assert!(matches!(Syn::open(content, 2), Err(DictError::My(_))));
}

#[test]
fn syn_truncated_target_is_not_found() {
    let mut content = syn_bytes(&[(b"a", 0)]);
    content.extend_from_slice(b"b\0\0");
    let syn = Syn::open(content, 2).unwrap();
    assert_eq!(syn.get_offset(1), Err(1));
}
