use rusttext::loader::read_from_iter;
use rusttext::vocabulary::{VocabError, Vocabulary, EMPTY_SLOT};
use rusttext::word::{fnv_hash, EntryType, WordEntry};

fn test_vocab() -> Vocabulary {
    let label_prefix = String::from("__label__");
    let foo = WordEntry::new(&String::from("foo"), &label_prefix);
    let bar = WordEntry::new(&String::from("bar"), &label_prefix);
    let baz = WordEntry::new(&String::from("__label__baz"), &label_prefix);

    Vocabulary {
        words: vec![foo, bar, baz],
        n_tokens: 3,
        n_words: 2,
        n_labels: 1,
        size: 3,
        label_prefix,
        vocab_size: 5,
        word_to_index: vec![-1, 2, 1, 0, -1],
        min_n: 2,
        max_n: 4,
        bucket: 10,
    }
}

fn s(text: &str) -> String {
    String::from(text)
}

#[test]
fn test_hash_lookup() {
    let test_vocab = test_vocab();

    assert_eq!(test_vocab.hash_lookup(&String::from("foo")), Some(3));
    assert_eq!(test_vocab.hash_lookup(&String::from("bar")), Some(2));
    assert_eq!(test_vocab.hash_lookup(&String::from("__label__baz")), Some(1));
}

#[test]
fn test_get_id() {
    let test_vocab = test_vocab();

    assert_eq!(test_vocab.get_id(&String::from("foo")), Some(0));
    assert_eq!(test_vocab.get_id(&String::from("bar")), Some(1));
    assert_eq!(test_vocab.get_id(&String::from("__label__baz")), Some(2));
}

#[test]
fn test_add() {
    let mut test_vocab = test_vocab();
    let test_word = String::from("biff");

    test_vocab.add(&test_word).unwrap();

    assert_eq!(test_vocab.hash_lookup(&test_word), Some(0));
    assert_eq!(test_vocab.get_id(&test_word), Some(3));
    assert_eq!(test_vocab.n_tokens, 4);
}

#[test]
fn new_vocabulary_is_empty() {
    let v = Vocabulary::new(7, 2, 4, 10);
    assert_eq!(v.vocab_size, 7);
    assert_eq!(v.word_to_index, vec![EMPTY_SLOT; 7]);
    assert!(v.words.is_empty());
    assert_eq!((v.n_tokens, v.n_words, v.n_labels, v.size), (0, 0, 0, 0));
    assert_eq!(v.label_prefix, "__label__");
    assert_eq!((v.min_n, v.max_n, v.bucket), (2, 4, 10));
}

#[test]
fn unknown_token_is_absent() {
    let v = test_vocab();
    assert_eq!(v.get_id(&s("qux")), None);
    let slot = v.hash_lookup(&s("qux")).unwrap();
    assert_eq!(v.word_to_index[slot], EMPTY_SLOT);
}

#[test]
fn insertion_growth_new_and_repeat() {
    let mut v = test_vocab();
    v.add(&s("biff")).unwrap();
    assert_eq!(v.size, 4);
    assert_eq!(v.n_words, 3);
    assert_eq!(v.word_to_index[0], 3);
    assert_eq!(v.words[3].count, 1);

    v.add(&s("foo")).unwrap();
    assert_eq!(v.size, 4);
    assert_eq!(v.n_tokens, 5);
    assert_eq!(v.words[0].count, 2);
    assert_eq!(v.words[1].count, 1);
    assert_eq!(v.words[3].count, 1);
    assert_eq!(v.word_to_index, vec![3, 2, 1, 0, -1]);
}

#[test]
fn new_words_get_subwords_and_labels_do_not() {
    let mut v = Vocabulary::new(11, 2, 3, 10);
    v.add(&s("rust")).unwrap();
    v.add(&s("__label__rust")).unwrap();
    let w = &v.words[v.get_id(&s("rust")).unwrap()];
    assert_eq!(w.entry_type, EntryType::Word);
    assert_eq!(w.subwords, vec![0, 9, 2, 7, 7]);
    let l = &v.words[v.get_id(&s("__label__rust")).unwrap()];
    assert_eq!(l.entry_type, EntryType::Label);
    assert!(l.subwords.is_empty());
    assert_eq!((v.n_words, v.n_labels), (1, 1));
}

#[test]
fn collisions_probe_forward_and_wrap() {
    // With three slots "a" and "b" both start at slot 1, "c" at slot 2.
    assert_eq!(fnv_hash(&s("a")) % 3, 1);
    assert_eq!(fnv_hash(&s("b")) % 3, 1);
    assert_eq!(fnv_hash(&s("c")) % 3, 2);
    let mut v = Vocabulary::new(3, 0, 0, 0);
    v.add(&s("a")).unwrap();
    v.add(&s("b")).unwrap();
    v.add(&s("c")).unwrap();
    assert_eq!(v.word_to_index, vec![2, 0, 1]);
    assert_eq!(v.hash_lookup(&s("c")), Some(0));
    assert_eq!(v.get_id(&s("b")), Some(1));
}

#[test]
fn full_table_refuses_new_tokens_only() {
    let mut v = Vocabulary::new(3, 0, 0, 0);
    for t in ["a", "b", "c"] {
        v.add(&s(t)).unwrap();
    }
    assert_eq!(v.add(&s("x")), Err(VocabError::TableFull));
    assert_eq!(v.n_tokens, 3);
    assert_eq!(v.hash_lookup(&s("x")), None);
    assert_eq!(v.get_id(&s("x")), None);
    assert_eq!(v.add(&s("a")), Ok(()));
    assert_eq!(v.n_tokens, 4);
    assert_eq!(v.words[0].count, 2);
}

#[test]
fn zero_capacity_is_always_full() {
    let mut v = Vocabulary::new(0, 0, 0, 0);
    assert_eq!(v.add(&s("a")), Err(VocabError::TableFull));
    assert_eq!(v.get_id(&s("a")), None);
    assert_eq!(v.n_tokens, 0);
}

fn counted_vocab() -> Vocabulary {
    let mut v = Vocabulary::new(16, 0, 0, 0);
    for t in ["__label__t", "a", "b", "b", "c", "c", "c", "__label__u", "__label__u"] {
        v.add(&s(t)).unwrap();
    }
    v
}

#[test]
fn prune_with_zero_thresholds_reorders_only() {
    let mut v = counted_vocab();
    v.threshold(0, 0);
    let order: Vec<&str> = v.words.iter().map(|e| e.word.as_str()).collect();
    assert_eq!(order, vec!["c", "b", "a", "__label__u", "__label__t"]);
    assert_eq!(v.size, 5);
    assert_eq!(v.n_words + v.n_labels, v.size);
    assert_eq!((v.n_words, v.n_labels), (3, 2));
    for (i, e) in v.words.iter().enumerate() {
        assert_eq!(v.get_id(&e.word), Some(i));
    }
}

#[test]
fn prune_drops_rare_entries_per_kind() {
    let mut v = counted_vocab();
    v.threshold(2, 2);
    let order: Vec<&str> = v.words.iter().map(|e| e.word.as_str()).collect();
    assert_eq!(order, vec!["c", "b", "__label__u"]);
    assert_eq!((v.size, v.n_words, v.n_labels), (3, 2, 1));
    assert_eq!(v.get_id(&s("a")), None);
    assert_eq!(v.get_id(&s("__label__t")), None);
    assert_eq!(v.get_id(&s("__label__u")), Some(2));
    assert_eq!(v.word_to_index.iter().filter(|&&x| x >= 0).count(), 3);
}

#[test]
fn token_total_survives_prune() {
    let mut v = counted_vocab();
    assert_eq!(v.n_tokens, 9);
    v.threshold(3, 3);
    assert_eq!(v.n_tokens, 9);
    v.add(&s("a")).unwrap();
    assert_eq!(v.n_tokens, 10);
    assert_eq!(v.get_id(&s("a")), Some(1));
}

#[test]
fn read_from_iter_adds_every_token() {
    let mut v = Vocabulary::new(8, 0, 0, 0);
    let tokens = vec![s("x"), s("y"), s("x"), s("__label__z")];
    assert_eq!(read_from_iter(&mut v, &tokens), Ok(()));
    assert_eq!(v.n_tokens, 4);
    assert_eq!(v.size, 3);
    assert_eq!(v.words[v.get_id(&s("x")).unwrap()].count, 2);
}

#[test]
fn read_from_iter_stops_when_full() {
    let mut v = Vocabulary::new(2, 0, 0, 0);
    let tokens = vec![s("x"), s("y"), s("z"), s("x")];
    assert_eq!(read_from_iter(&mut v, &tokens), Err(VocabError::TableFull));
    assert_eq!(v.n_tokens, 2);
    assert_eq!(v.get_id(&s("z")), None);
}
