use rusttext::word::{compare, fnv_hash, get_type, EntryType, WordEntry};
use std::cmp::Ordering;

fn data_factory() -> [WordEntry; 3] {
    let word_0 = WordEntry {
        word: String::from("test_0"),
        count: 1,
        entry_type: EntryType::Word,
        subwords: Vec::new(),
    };
    let word_1 = WordEntry {
        word: String::from("test_1"),
        count: 2,
        entry_type: EntryType::Word,
        subwords: Vec::new(),
    };
    let label_0 = WordEntry {
        word: String::from("__label__test"),
        count: 1,
        entry_type: EntryType::Label,
        subwords: Vec::new(),
    };

    return [label_0, word_0, word_1];
}

fn bytes_of(items: &[&str]) -> Vec<Vec<u8>> {
    items.iter().map(|s| s.as_bytes().to_vec()).collect()
}

#[test]
fn test_hash() {
    assert_eq!(fnv_hash(&String::from("rust")), 490716647);
}

#[test]
fn test_get_entry_type() {
    let test_word = String::from("foo");
    let test_label = String::from("__label__foo");
    let label_prefix = String::from("__label__");

    assert_eq!(get_type(&test_label, &label_prefix), EntryType::Label);
    assert_eq!(get_type(&test_word, &label_prefix), EntryType::Word);
}

#[test]
fn test_compare_words_before_labels() {
    let [test_label, test_word, _] = data_factory();
    assert_eq!(compare(&test_word, &test_label), Ordering::Less);
    assert_eq!(compare(&test_label, &test_word), Ordering::Greater);
}

#[test]
fn test_compare_by_count() {
    let [_, test_word, test_more_word] = data_factory();
    assert_eq!(compare(&test_word, &test_more_word), Ordering::Greater);
}

#[test]
fn test_sort_comparator() {
    let mut words = data_factory();
    let [test_label, test_word, test_more_word] = words.clone();
    let sorted_words = [test_more_word, test_word, test_label];

    words.sort_by(compare);

    assert_eq!(words, sorted_words);
}

#[test]
fn test_subwords() {
    let label_prefix = String::from("__label__");
    let test_word = WordEntry::new(&String::from("rust"), &label_prefix);

    let subwords = test_word.parse_subwords(2, 3);
    let expected_subwords = ["ru", "us", "st", "rus", "ust"];
    assert_eq!(subwords, bytes_of(&expected_subwords))
}

#[test]
fn test_subwords_zero_param() {
    let label_prefix = String::from("__label__");
    let test_word = WordEntry::new(&String::from("rust"), &label_prefix);
    let empty: Vec<Vec<u8>> = Vec::new();

    assert_eq!(test_word.parse_subwords(0, 3), empty);
    assert_eq!(test_word.parse_subwords(2, 0), empty);
}

#[test]
fn test_hashed_subwords() {
    let label_prefix = String::from("__label__");
    let mut test_word = WordEntry::new(&String::from("rust"), &label_prefix);
    let expected_hashes = [0, 9, 2, 7, 7];

    test_word.compute_subwords(2, 3, 10);
    assert_eq!(test_word.subwords, expected_hashes);
}

#[test]
fn hash_of_empty_is_offset_basis() {
    assert_eq!(fnv_hash(&String::new()), 2166136261);
}

#[test]
fn hash_of_single_byte() {
    // (2166136261 ^ 0x61) * 16777619 mod 2^32
    assert_eq!(fnv_hash(&String::from("a")), 0xe40c292c);
}

#[test]
fn classify_edge_cases() {
    let label_prefix = String::from("__label__");
    assert_eq!(get_type(&String::from("__label"), &label_prefix), EntryType::Word);
    assert_eq!(get_type(&String::from("__label__"), &label_prefix), EntryType::Label);
    assert_eq!(get_type(&String::from("x__label__"), &label_prefix), EntryType::Word);
    assert_eq!(get_type(&String::from("anything"), &String::new()), EntryType::Label);
}

#[test]
fn new_entry_starts_at_one() {
    let label_prefix = String::from("__label__");
    let e = WordEntry::new(&String::from("__label__x"), &label_prefix);
    assert_eq!(e.word, "__label__x");
    assert_eq!(e.count, 1);
    assert_eq!(e.entry_type, EntryType::Label);
    assert!(e.subwords.is_empty());
}

#[test]
fn compare_equal_counts_is_equal() {
    let [_, a, _] = data_factory();
    let b = WordEntry { word: String::from("other"), ..a.clone() };
    assert_eq!(compare(&a, &b), Ordering::Equal);
}

#[test]
fn sort_word_and_label_scenario() {
    let mk = |w: &str, t: EntryType, c: u32| WordEntry {
        word: String::from(w),
        entry_type: t,
        count: c,
        subwords: Vec::new(),
    };
    let mut v = vec![
        mk("t", EntryType::Label, 1),
        mk("a", EntryType::Word, 1),
        mk("b", EntryType::Word, 2),
    ];
    v.sort_by(compare);
    let order: Vec<&str> = v.iter().map(|e| e.word.as_str()).collect();
    assert_eq!(order, vec!["b", "a", "t"]);
}

#[test]
fn subwords_disabled_for_any_text() {
    let label_prefix = String::from("__label__");
    let mut e = WordEntry::new(&String::from("héllo wörld"), &label_prefix);
    assert!(e.parse_subwords(0, 0).is_empty());
    e.compute_subwords(0, 5, 10);
    assert!(e.subwords.is_empty());
    e.compute_subwords(3, 0, 0);
    assert!(e.subwords.is_empty());
}

#[test]
fn subwords_start_only_at_lead_bytes() {
    let label_prefix = String::from("__label__");
    // "aé" is 0x61 0xC3 0xA9; windows never start at the continuation byte 0xA9.
    let e = WordEntry::new(&String::from("aé"), &label_prefix);
    let expected: Vec<Vec<u8>> = vec![vec![0x61], vec![0xC3], vec![0x61, 0xC3], vec![0xC3, 0xA9]];
    assert_eq!(e.parse_subwords(1, 2), expected);
}

#[test]
fn subwords_wider_than_text() {
    let label_prefix = String::from("__label__");
    let e = WordEntry::new(&String::from("ab"), &label_prefix);
    assert_eq!(e.parse_subwords(2, 100), bytes_of(&["ab"]));
    assert!(e.parse_subwords(3, 5).is_empty());
}

#[test]
fn hashed_subwords_match_hash_of_each_gram() {
    let label_prefix = String::from("__label__");
    let mut e = WordEntry::new(&String::from("rust"), &label_prefix);
    e.compute_subwords(2, 3, 1000);
    let expected: Vec<u32> = ["ru", "us", "st", "rus", "ust"]
        .iter()
        .map(|g| fnv_hash(&String::from(*g)) % 1000)
        .collect();
    assert_eq!(e.subwords, expected);
}
