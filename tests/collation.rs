use std::cmp::Ordering;

use stardict::idx::Idx;

#[test]
fn empty_words_order_first() {
    assert_eq!(Idx::dict_cmp(b"", b"", false), Ordering::Equal);
    assert_eq!(Idx::dict_cmp(b"", b"a", false), Ordering::Less);
    assert_eq!(Idx::dict_cmp(b"a", b"", true), Ordering::Greater);
}

#[test]
fn case_is_a_tie_break() {
    assert_eq!(Idx::dict_cmp(b"Apple", b"apple", true), Ordering::Equal);
    assert_eq!(Idx::dict_cmp(b"Apple", b"apple", false), Ordering::Less);
    assert_eq!(Idx::dict_cmp(b"apple", b"Apple", false), Ordering::Greater);
    assert_eq!(Idx::dict_cmp(b"apple", b"apple", false), Ordering::Equal);
}

#[test]
fn folded_letters_decide_before_case() {
    assert_eq!(Idx::dict_cmp(b"B", b"a", false), Ordering::Greater);
    assert_eq!(Idx::dict_cmp(b"a", b"B", false), Ordering::Less);
    assert_eq!(Idx::dict_cmp(b"ab", b"abc", false), Ordering::Less);
    assert_eq!(Idx::dict_cmp(b"abd", b"ABC", true), Ordering::Greater);
}

#[test]
fn first_case_difference_decides() {
    assert_eq!(Idx::dict_cmp(b"aB", b"Ab", false), Ordering::Greater);
    assert_eq!(Idx::dict_cmp(b"Ab", b"aB", false), Ordering::Less);
}

#[test]
fn high_bytes_are_not_folded() {
    assert_eq!(Idx::dict_cmp(&[0xC0], &[0xE0], true), Ordering::Less);
    assert_eq!(Idx::dict_cmp(b"[", b"a", false), Ordering::Less);
    assert_eq!(Idx::dict_cmp(b"[", b"A", false), Ordering::Less);
}

#[test]
fn to_lower_folds_ascii_only() {
    assert_eq!(stardict::idx::to_lower(b'Q'), b'q');
    assert_eq!(stardict::idx::to_lower(b'q'), b'q');
    assert_eq!(stardict::idx::to_lower(b'@'), b'@');
    assert_eq!(stardict::idx::to_lower(0xC4), 0xC4);
}
