//! The vocabulary: a fixed-capacity open-addressing table over token entries.
use crate::word::{
    bucketed, classify, compare, compare_spec, fnv_hash, fnv_spec, subword_grams, subwords_disabled, text_bytes,
    valid_subword_bounds, EntryType, WordEntry,
};
use core::cmp::Ordering;
use vstd::prelude::*;

verus! {

/// The slot value that marks an empty slot.
pub const EMPTY_SLOT: i32 = -1;

/// The largest capacity whose entry indices fit a slot.
pub const MAX_CAPACITY: usize = 2147483647;

#[derive(Debug, PartialEq, Eq, Structural, Clone, Copy)]
pub enum VocabError {
    /// A new token was offered while every slot was taken.
    TableFull,
}

pub struct Vocabulary {
    pub words: Vec<WordEntry>,
    pub word_to_index: Vec<i32>,
    pub vocab_size: usize,
    pub n_tokens: u32,
    pub n_words: u32,
    pub n_labels: u32,
    pub size: u32,
    pub label_prefix: String,
    pub min_n: usize,
    pub max_n: usize,
    pub bucket: u32,
}

/// The slot where probing for `text` starts.
pub open spec fn home(text: Seq<char>, n: nat) -> int {
    (fnv_spec(text_bytes(text)) as nat % n) as int
}

/// The slot reached `d` steps after slot `h`, wrapping at `n` (for `h, d < n`).
pub open spec fn probe_pos(h: int, d: int, n: nat) -> int {
    if h + d < n {
        h + d
    } else {
        h + d - n
    }
}

/// How many steps forward slot `j` lies from slot `h`, wrapping at `n`.
pub open spec fn dist(h: int, j: int, n: nat) -> int {
    if j >= h {
        j - h
    } else {
        j + n - h
    }
}

/// The number of occupied slots.
pub open spec fn count_occupied(slots: Seq<i32>) -> nat
    decreases slots.len(),
{
    if slots.len() == 0 {
        0
    } else {
        count_occupied(slots.drop_last()) + if slots.last() >= 0 {
            1nat
        } else {
            0nat
        }
    }
}

/// The number of entries of kind `k`.
pub open spec fn count_kind(ws: Seq<WordEntry>, k: EntryType) -> nat
    decreases ws.len(),
{
    if ws.len() == 0 {
        0
    } else {
        count_kind(ws.drop_last(), k) + if ws.last().entry_type == k {
            1nat
        } else {
            0nat
        }
    }
}

/// Some entry among the first `size` has this text.
pub open spec fn text_present(ws: Seq<WordEntry>, size: int, w: Seq<char>) -> bool {
    exists|i: int| 0 <= i < size && #[trigger] ws[i].word@ == w
}

/// Some slot holds entry index `i`.
pub open spec fn in_some_slot(slots: Seq<i32>, i: int) -> bool {
    exists|j: int| 0 <= j < slots.len() && #[trigger] slots[j] == i
}

/// Every slot is occupied.
pub open spec fn all_occupied(slots: Seq<i32>) -> bool {
    forall|j: int| 0 <= j < slots.len() ==> #[trigger] slots[j] >= 0
}

/// The slots index the first `size` entries: each entry in exactly one slot, texts
/// unique, every entry reachable from its home slot through occupied slots only,
/// and exactly `size` slots occupied.
pub open spec fn table_ok(slots: Seq<i32>, ws: Seq<WordEntry>, size: int) -> bool {
    let n = slots.len();
    &&& 0 <= size <= ws.len()
    &&& forall|j: int| 0 <= j < n ==> #[trigger] slots[j] == EMPTY_SLOT || 0 <= slots[j] < size
    &&& forall|j1: int, j2: int|
        0 <= j1 < n && 0 <= j2 < n && slots[j1] >= 0 && #[trigger] slots[j1] == #[trigger] slots[j2]
            ==> j1 == j2
    &&& forall|i: int| 0 <= i < size ==> #[trigger] in_some_slot(slots, i)
    &&& forall|i1: int, i2: int|
        0 <= i1 < size && 0 <= i2 < size && i1 != i2 ==> #[trigger] ws[i1].word@ != #[trigger] ws[i2].word@
    &&& forall|j: int, d: int|
        0 <= j < n && slots[j] >= 0 && 0 <= d < dist(home(ws[slots[j] as int].word@, n), j, n)
            ==> #[trigger] slots[probe_pos(home(ws[slots[j] as int].word@, n), d, n)] >= 0
    &&& count_occupied(slots) == size
}

/// Slot `s` is where probing for `w` stops: the first slot from `w`'s home that is
/// empty or holds `w`.
pub open spec fn probe_result(slots: Seq<i32>, ws: Seq<WordEntry>, w: Seq<char>, s: int) -> bool {
    &&& 0 <= s < slots.len()
    &&& slots[s] == EMPTY_SLOT || ws[slots[s] as int].word@ == w
    &&& forall|d: int|
        0 <= d < dist(home(w, slots.len()), s, slots.len()) ==> #[trigger] slots[probe_pos(
            home(w, slots.len()),
            d,
            slots.len(),
        )] >= 0 && ws[slots[probe_pos(home(w, slots.len()), d, slots.len())] as int].word@ != w
}

/// The entry a token creates when first seen.
pub open spec fn fresh_entry(e: WordEntry, w: Seq<char>, v: Vocabulary) -> bool {
    &&& e.word@ == w
    &&& e.count == 1
    &&& e.entry_type == classify(w, v.label_prefix@)
    &&& e.subwords@ == if e.entry_type == EntryType::Word {
        bucketed(subword_grams(text_bytes(w), v.min_n as nat, v.max_n as nat), v.bucket)
    } else {
        Seq::empty()
    }
}

/// The entry with its count raised by one.
pub open spec fn bumped(e: WordEntry) -> WordEntry {
    WordEntry { word: e.word, entry_type: e.entry_type, count: (e.count + 1) as u32, subwords: e.subwords }
}

/// An entry survives a prune when its count reaches its kind's threshold.
pub open spec fn kept(e: WordEntry, word_threshold: u32, label_threshold: u32) -> bool {
    match e.entry_type {
        EntryType::Word => e.count >= word_threshold,
        EntryType::Label => e.count >= label_threshold,
    }
}

/// The entries are in comparator order: words before labels, higher counts first.
pub open spec fn sorted_entries(s: Seq<WordEntry>) -> bool {
    forall|i: int, j: int| 0 <= i < j < s.len() ==> compare_spec(#[trigger] s[i], #[trigger] s[j]) != Ordering::Greater
}

/// Index `i` occurs in `m`.
pub open spec fn in_map(m: Seq<int>, i: int) -> bool {
    exists|k: int| 0 <= k < m.len() && #[trigger] m[k] == i
}

/// `m` places each entry of `out` at a distinct position of `src`, and every entry
/// of `src` that passes the thresholds has its place.
pub open spec fn kept_map(m: Seq<int>, out: Seq<WordEntry>, src: Seq<WordEntry>, wt: u32, lt: u32) -> bool {
    &&& m.len() == out.len()
    &&& forall|k: int| 0 <= k < m.len() ==> 0 <= #[trigger] m[k] < src.len() && out[k] == src[m[k]]
    &&& forall|k1: int, k2: int| 0 <= k1 < m.len() && 0 <= k2 < m.len() && k1 != k2 ==> #[trigger] m[k1] != #[trigger] m[k2]
    &&& forall|i: int| 0 <= i < src.len() && kept(src[i], wt, lt) ==> #[trigger] in_map(m, i)
}

/// `out` holds exactly the entries of `src` that pass the thresholds, in some order.
pub open spec fn kept_permutation(out: Seq<WordEntry>, src: Seq<WordEntry>, wt: u32, lt: u32) -> bool {
    exists|m: Seq<int>| kept_map(m, out, src, wt, lt)
}

/// The configuration is the same in both.
pub open spec fn same_config(a: Vocabulary, b: Vocabulary) -> bool {
    &&& a.vocab_size == b.vocab_size
    &&& a.label_prefix@ == b.label_prefix@
    &&& a.min_n == b.min_n
    &&& a.max_n == b.max_n
    &&& a.bucket == b.bucket
}

impl Vocabulary {
    /// The table's invariant.
    pub open spec fn wf(&self) -> bool {
        &&& self.word_to_index@.len() == self.vocab_size
        &&& self.vocab_size <= MAX_CAPACITY
        &&& self.size as int == self.words@.len()
        &&& table_ok(self.word_to_index@, self.words@, self.size as int)
        &&& self.n_words as nat == count_kind(self.words@, EntryType::Word)
        &&& self.n_labels as nat == count_kind(self.words@, EntryType::Label)
        &&& forall|i: int| 0 <= i < self.words@.len() ==> #[trigger] self.words@[i].count <= self.n_tokens
        &&& valid_subword_bounds(self.min_n, self.max_n)
        &&& self.bucket > 0 || subwords_disabled(self.min_n, self.max_n)
    }

    /// Some entry has this text.
    pub open spec fn contains(&self, w: Seq<char>) -> bool {
        text_present(self.words@, self.words@.len() as int, w)
    }

    /// An empty vocabulary with `vocab_size` slots and the given subword configuration.
    pub fn new(vocab_size: usize, min_n: usize, max_n: usize, bucket: u32) -> (r: Vocabulary)
        requires
            vocab_size <= MAX_CAPACITY,
            valid_subword_bounds(min_n, max_n),
            bucket > 0 || subwords_disabled(min_n, max_n),
        ensures
            r.wf(),
            r.words@.len() == 0,
            r.word_to_index@ == Seq::new(vocab_size as nat, |j: int| EMPTY_SLOT),
            r.vocab_size == vocab_size,
            r.n_tokens == 0,
            r.n_words == 0,
            r.n_labels == 0,
            r.size == 0,
            r.label_prefix@ == "__label__"@,
            r.min_n == min_n,
            r.max_n == max_n,
            r.bucket == bucket,
    {
        let word_to_index = vec![EMPTY_SLOT; vocab_size];
        proof {
            assert(word_to_index@ =~= Seq::new(vocab_size as nat, |j: int| EMPTY_SLOT));
            lemma_count_all_empty(word_to_index@);
        }
        Vocabulary {
            words: Vec::new(),
            word_to_index,
            vocab_size,
            n_tokens: 0,
            n_words: 0,
            n_labels: 0,
            size: 0,
            label_prefix: String::from_str("__label__"),
            min_n,
            max_n,
            bucket,
        }
    }

    /// The slot where probing for `word` stops: empty, or holding `word`'s entry.
    /// `None` when every slot holds another token.
    pub fn hash_lookup(&self, word: &String) -> (r: Option<usize>)
        requires
            self.wf(),
        ensures
            match r {
                Some(s) => probe_result(self.word_to_index@, self.words@, word@, s as int),
                None => all_occupied(self.word_to_index@) && !self.contains(word@),
            },
    {
        find_slot(&self.word_to_index, &self.words, self.size as usize, word)
    }

    /// The index of the entry holding `word`, if there is one.
    pub fn get_id(&self, word: &String) -> (r: Option<usize>)
        requires
            self.wf(),
        ensures
            match r {
                Some(i) => i < self.words@.len() && self.words@[i as int].word@ == word@,
                None => !self.contains(word@),
            },
    {
        match self.hash_lookup(word) {
            None => None,
            Some(s) => {
                let idx = self.word_to_index[s];
                if idx < 0 {
                    proof {
                        lemma_empty_probe_absent(
                            self.word_to_index@,
                            self.words@,
                            self.size as int,
                            word@,
                            s as int,
                        );
                    }
                    None
                } else {
                    Some(idx as usize)
                }
            },
        }
    }

    /// Record one occurrence of `word`: a new entry when it is unseen, one more count
    /// when it is known. Fails, changing nothing, when it is unseen and no slot is free.
    pub fn add(&mut self, word: &String) -> (r: Result<(), VocabError>)
        requires
            old(self).wf(),
            old(self).n_tokens < u32::MAX,
        ensures
            final(self).wf(),
            same_config(*old(self), *final(self)),
            r is Err <==> !old(self).contains(word@) && all_occupied(old(self).word_to_index@),
            r is Err ==> *final(self) == *old(self),
            r is Ok ==> final(self).n_tokens == old(self).n_tokens + 1,
            r is Ok ==> final(self).contains(word@),
            forall|w2: Seq<char>| old(self).contains(w2) ==> #[trigger] final(self).contains(w2),
            r is Ok && old(self).contains(word@) ==> exists|i: int|
                0 <= i < old(self).words@.len() && #[trigger] old(self).words@[i].word@ == word@
                    && final(self).words@ == old(self).words@.update(i, bumped(old(self).words@[i]))
                    && final(self).word_to_index@ == old(self).word_to_index@
                    && final(self).size == old(self).size,
            r is Ok && !old(self).contains(word@) ==> exists|s: int|
                probe_result(old(self).word_to_index@, old(self).words@, word@, s)
                    && old(self).word_to_index@[s] == EMPTY_SLOT
                    && final(self).word_to_index@ == old(self).word_to_index@.update(s, old(self).size as i32)
                    && final(self).words@.len() == old(self).words@.len() + 1
                    && final(self).words@.drop_last() == old(self).words@
                    && fresh_entry(final(self).words@.last(), word@, *old(self))
                    && final(self).size == old(self).size + 1,
    {
        let slot = self.hash_lookup(word);
        let s = match slot {
            None => {
                return Err(VocabError::TableFull);
            },
            Some(s) => s,
        };
        let ghost pre = *self;
        let index = self.word_to_index[s];
        self.n_tokens = self.n_tokens + 1;
        if index < 0 {
            proof {
                lemma_empty_probe_absent(pre.word_to_index@, pre.words@, pre.size as int, word@, s as int);
                lemma_count_kind_le(pre.words@, EntryType::Word);
                lemma_count_kind_le(pre.words@, EntryType::Label);
                lemma_count_bound(pre.word_to_index@);
                lemma_count_fill(pre.word_to_index@, s as int, pre.size as i32);
                if count_occupied(pre.word_to_index@) == pre.word_to_index@.len() {
                    lemma_count_full(pre.word_to_index@, s as int);
                }
            }
            let mut word_entry = WordEntry::new(word, &self.label_prefix);
            if word_entry.entry_type == EntryType::Word {
                word_entry.compute_subwords(self.min_n, self.max_n, self.bucket);
            }
            match word_entry.entry_type {
                EntryType::Word => self.n_words = self.n_words + 1,
                EntryType::Label => self.n_labels = self.n_labels + 1,
            }
            self.words.push(word_entry);
            self.word_to_index.set(s, self.size as i32);
            self.size = self.size + 1;
            proof {
                assert(self.words@.drop_last() =~= pre.words@);
                assert forall|i: int| 0 <= i < pre.size implies #[trigger] self.words@[i] == pre.words@[i] by {
                    assert(self.words@.drop_last()[i] == self.words@[i]);
                }
                lemma_table_insert(pre.word_to_index@, pre.words@, self.words@, pre.size as int, word@, s as int);
                assert(self.words@[pre.size as int].word@ == word@);
                assert forall|w2: Seq<char>| pre.contains(w2) implies #[trigger] self.contains(w2) by {
                    let k = choose|k: int| 0 <= k < pre.words@.len() && #[trigger] pre.words@[k].word@ == w2;
                    assert(self.words@[k] == pre.words@[k]);
                }
            }
        } else {
            let i = index as usize;
            let ghost e = pre.words@[i as int];
            let mut entry = self.words.remove(i);
            entry.count = entry.count + 1;
            self.words.insert(i, entry);
            proof {
                assert(self.words@ =~= pre.words@.update(i as int, bumped(e)));
                lemma_table_same_texts(pre.word_to_index@, pre.words@, self.words@, pre.size as int);
                lemma_count_kind_same_kinds(pre.words@, self.words@, EntryType::Word);
                lemma_count_kind_same_kinds(pre.words@, self.words@, EntryType::Label);
                assert(self.words@[i as int].word@ == word@);
                assert forall|w2: Seq<char>| pre.contains(w2) implies #[trigger] self.contains(w2) by {
                    let k = choose|k: int| 0 <= k < pre.words@.len() && #[trigger] pre.words@[k].word@ == w2;
                    assert(self.words@[k].word@ == w2);
                }
            }
        }
        Ok(())
    }
    /// Prune: order the entries words first, then by falling count; drop the words
    /// counted fewer than `word_threshold` times and the labels counted fewer than
    /// `label_threshold` times; rebuild the table over the survivors, whose ids are
    /// their new positions.
    pub fn threshold(&mut self, word_threshold: u32, label_threshold: u32)
        requires
            old(self).wf(),
        ensures
            final(self).wf(),
            same_config(*old(self), *final(self)),
            final(self).n_tokens == old(self).n_tokens,
            sorted_entries(final(self).words@),
            forall|k: int|
                0 <= k < final(self).words@.len() ==> kept(
                    #[trigger] final(self).words@[k],
                    word_threshold,
                    label_threshold,
                ),
            kept_permutation(final(self).words@, old(self).words@, word_threshold, label_threshold),
            word_threshold == 0 && label_threshold == 0 ==> final(self).words@.len()
                == old(self).words@.len(),
            final(self).n_words + final(self).n_labels == final(self).size,
    {
        let ghost pre = *self;
        let mut taken: Vec<WordEntry> = Vec::new();
        std::mem::swap(&mut taken, &mut self.words);
        let sorted = sort_and_filter(taken, word_threshold, label_threshold);
        let ghost m = choose|m: Seq<int>| kept_map(m, sorted@, pre.words@, word_threshold, label_threshold);
        proof {
            lemma_count_bound(pre.word_to_index@);
            assert forall|i1: int, i2: int|
                0 <= i1 < sorted@.len() && 0 <= i2 < sorted@.len() && i1 != i2 implies #[trigger] sorted@[i1].word@
                != #[trigger] sorted@[i2].word@ by {
                assert(m[i1] != m[i2]);
                assert(sorted@[i1] == pre.words@[m[i1]]);
                assert(sorted@[i2] == pre.words@[m[i2]]);
            }
            assert forall|k: int| 0 <= k < sorted@.len() implies #[trigger] sorted@[k].count <= pre.n_tokens by {
                assert(sorted@[k] == pre.words@[m[k]]);
            }
        }
        self.words = sorted;
        self.word_to_index = vec![EMPTY_SLOT; self.vocab_size];
        self.size = 0;
        self.n_words = 0;
        self.n_labels = 0;
        proof {
            lemma_count_all_empty(self.word_to_index@);
        }
        let mut i: usize = 0;
        while i < self.words.len()
            invariant
                same_config(pre, *self),
                self.n_tokens == pre.n_tokens,
                self.words@ == sorted@,
                self.word_to_index@.len() == self.vocab_size,
                self.vocab_size <= MAX_CAPACITY,
                sorted@.len() <= self.vocab_size,
                i <= sorted@.len(),
                self.size == i,
                table_ok(self.word_to_index@, sorted@, i as int),
                self.n_words as nat == count_kind(sorted@.subrange(0, i as int), EntryType::Word),
                self.n_labels as nat == count_kind(sorted@.subrange(0, i as int), EntryType::Label),
                forall|i1: int, i2: int|
                    0 <= i1 < sorted@.len() && 0 <= i2 < sorted@.len() && i1 != i2 ==> #[trigger] sorted@[i1].word@
                        != #[trigger] sorted@[i2].word@,
            decreases sorted@.len() - i,
        {
            let ghost slots = self.word_to_index@;
            let ghost w = sorted@[i as int].word@;
            let found = find_slot(&self.word_to_index, &self.words, i, &self.words[i].word);
            let s = match found {
                Some(s) => s,
                None => {
                    proof {
                        lemma_count_all_occupied(slots);
                    }
                    return;
                },
            };
            proof {
                if slots[s as int] != EMPTY_SLOT {
                    assert(sorted@[slots[s as int] as int].word@ == w);
                }
                assert(!text_present(sorted@, i as int, w)) by {
                    if text_present(sorted@, i as int, w) {
                        let k = choose|k: int| 0 <= k < i && #[trigger] sorted@[k].word@ == w;
                        assert(sorted@[k].word@ != sorted@[i as int].word@);
                    }
                }
                lemma_table_insert(slots, sorted@, sorted@, i as int, w, s as int);
                let sub = sorted@.subrange(0, i + 1);
                assert(sub.drop_last() =~= sorted@.subrange(0, i as int));
                lemma_count_kind_le(sorted@.subrange(0, i as int), EntryType::Word);
                lemma_count_kind_le(sorted@.subrange(0, i as int), EntryType::Label);
            }
            self.word_to_index.set(s, i as i32);
            match self.words[i].entry_type {
                EntryType::Word => self.n_words = self.n_words + 1,
                EntryType::Label => self.n_labels = self.n_labels + 1,
            }
            self.size = self.size + 1;
            i += 1;
        }
        proof {
            assert(sorted@.subrange(0, sorted@.len() as int) =~= sorted@);
            lemma_count_kind_sum(sorted@);
            if word_threshold == 0 && label_threshold == 0 {
                assert(sorted@.len() == pre.words@.len());
            }
        }
    }
}

/// Selection sort of the entries by `compare`, keeping those that pass the thresholds.
fn sort_and_filter(entries: Vec<WordEntry>, word_threshold: u32, label_threshold: u32) -> (out: Vec<WordEntry>)
    ensures
        sorted_entries(out@),
        forall|k: int| 0 <= k < out@.len() ==> kept(#[trigger] out@[k], word_threshold, label_threshold),
        kept_permutation(out@, entries@, word_threshold, label_threshold),
        out@.len() <= entries@.len(),
        word_threshold == 0 && label_threshold == 0 ==> out@.len() == entries@.len(),
{
    let ghost src = entries@;
    let mut rest = entries;
    let mut out: Vec<WordEntry> = Vec::new();
    let ghost mut rmap: Seq<int> = Seq::new(src.len(), |i: int| i);
    let ghost mut omap: Seq<int> = Seq::empty();
    proof {
        assert forall|i: int| 0 <= i < src.len() && kept(src[i], word_threshold, label_threshold) implies #[trigger] in_map(rmap, i) || in_map(omap, i) by {
            assert(rmap[i] == i);
        }
    }
    while rest.len() > 0
        invariant
            rmap.len() == rest@.len(),
            omap.len() == out@.len(),
            out@.len() + rest@.len() <= src.len(),
            word_threshold == 0 && label_threshold == 0 ==> out@.len() + rest@.len() == src.len(),
            forall|k: int| 0 <= k < rmap.len() ==> 0 <= #[trigger] rmap[k] < src.len() && rest@[k] == src[rmap[k]],
            forall|k: int| 0 <= k < omap.len() ==> 0 <= #[trigger] omap[k] < src.len() && out@[k] == src[omap[k]],
            forall|k1: int, k2: int| 0 <= k1 < rmap.len() && 0 <= k2 < rmap.len() && k1 != k2 ==> #[trigger] rmap[k1] != #[trigger] rmap[k2],
            forall|k1: int, k2: int| 0 <= k1 < omap.len() && 0 <= k2 < omap.len() && k1 != k2 ==> #[trigger] omap[k1] != #[trigger] omap[k2],
            forall|k1: int, k2: int| 0 <= k1 < rmap.len() && 0 <= k2 < omap.len() ==> #[trigger] rmap[k1] != #[trigger] omap[k2],
            forall|i: int| 0 <= i < src.len() && kept(src[i], word_threshold, label_threshold) ==> #[trigger] in_map(rmap, i) || in_map(omap, i),
            sorted_entries(out@),
            forall|a: int, b: int| 0 <= a < out@.len() && 0 <= b < rest@.len() ==> compare_spec(#[trigger] out@[a], #[trigger] rest@[b]) != Ordering::Greater,
            forall|k: int| 0 <= k < out@.len() ==> kept(#[trigger] out@[k], word_threshold, label_threshold),
        decreases rest@.len(),
    {
        let mut best: usize = 0;
        let mut j: usize = 1;
        while j < rest.len()
            invariant
                best < rest@.len(),
                1 <= j <= rest@.len(),
                forall|t: int| 0 <= t < j ==> compare_spec(rest@[best as int], #[trigger] rest@[t]) != Ordering::Greater,
            decreases rest@.len() - j,
        {
            match compare(&rest[j], &rest[best]) {
                Ordering::Less => {
                    proof {
                        assert forall|t: int| 0 <= t < j implies compare_spec(rest@[j as int], #[trigger] rest@[t]) != Ordering::Greater by {
                            lemma_compare_trans(rest@[j as int], rest@[best as int], rest@[t]);
                        }
                    }
                    best = j;
                },
                _ => {},
            }
            j += 1;
        }
        let ghost old_rest = rest@;
        let ghost old_rmap = rmap;
        let ghost old_omap = omap;
        let ghost v = rmap[best as int];
        let e = rest.remove(best);
        proof {
            rmap = rmap.remove(best as int);
            assert forall|k: int| 0 <= k < rmap.len() implies #[trigger] rmap[k] != v by {
                if k < best {
                    assert(old_rmap[k] != old_rmap[best as int]);
                } else {
                    assert(old_rmap[k + 1] != old_rmap[best as int]);
                }
            }
            assert forall|k: int| 0 <= k < rmap.len() implies old_rmap.contains(#[trigger] rmap[k]) by {
                if k < best {
                    assert(old_rmap[k] == rmap[k]);
                } else {
                    assert(old_rmap[k + 1] == rmap[k]);
                }
            }
        }
        let keep = match e.entry_type {
            EntryType::Word => e.count >= word_threshold,
            EntryType::Label => e.count >= label_threshold,
        };
        if keep {
            out.push(e);
            proof {
                omap = omap.push(v);
            }
        }
        proof {
            assert forall|i: int| 0 <= i < src.len() && kept(src[i], word_threshold, label_threshold) implies #[trigger] in_map(rmap, i) || in_map(omap, i) by {
                if i == v {
                    assert(omap[omap.len() - 1] == i);
                } else if in_map(old_rmap, i) {
                    let k = choose|k: int| 0 <= k < old_rmap.len() && #[trigger] old_rmap[k] == i;
                    if k < best {
                        assert(rmap[k] == i);
                    } else {
                        assert(k != best);
                        assert(rmap[k - 1] == i);
                    }
                } else {
                    let k = choose|k: int| 0 <= k < old_omap.len() && #[trigger] old_omap[k] == i;
                    assert(omap[k] == i);
                }
            }
            assert forall|k1: int, k2: int| 0 <= k1 < rmap.len() && 0 <= k2 < omap.len() implies #[trigger] rmap[k1] != #[trigger] omap[k2] by {
                if k2 < old_omap.len() {
                    assert(omap[k2] == old_omap[k2]);
                    assert(old_rmap.contains(rmap[k1]));
                }
            }
            assert forall|k1: int, k2: int| 0 <= k1 < omap.len() && 0 <= k2 < omap.len() && k1 != k2 implies #[trigger] omap[k1] != #[trigger] omap[k2] by {
                if k1 == old_omap.len() as int && k2 < old_omap.len() {
                    assert(omap[k2] == old_omap[k2]);
                } else if k2 == old_omap.len() as int && k1 < old_omap.len() {
                    assert(omap[k1] == old_omap[k1]);
                }
            }
            assert forall|a: int, b: int| 0 <= a < out@.len() && 0 <= b < rest@.len() implies compare_spec(#[trigger] out@[a], #[trigger] rest@[b]) != Ordering::Greater by {
                let ob = if b < best { b } else { b + 1 };
                assert(rest@[b] == old_rest[ob]);
                if a == out@.len() - 1 && keep {
                    assert(compare_spec(old_rest[best as int], old_rest[ob]) != Ordering::Greater);
                }
            }
        }
    }
    proof {
        assert(kept_map(omap, out@, src, word_threshold, label_threshold)) by {
            assert forall|i: int| 0 <= i < src.len() && kept(src[i], word_threshold, label_threshold) implies #[trigger] in_map(omap, i) by {
                if in_map(rmap, i) {
                    let k = choose|k: int| 0 <= k < rmap.len() && #[trigger] rmap[k] == i;
                }
            }
        }
    }
    out
}

/// The comparator's order is transitive.
proof fn lemma_compare_trans(a: WordEntry, b: WordEntry, c: WordEntry)
    requires
        compare_spec(a, b) == Ordering::Less,
        compare_spec(b, c) != Ordering::Greater,
    ensures
        compare_spec(a, c) != Ordering::Greater,
{
}


/// Probe from `word`'s home slot over the first `size` entries of `ws`.
fn find_slot(slots: &Vec<i32>, ws: &Vec<WordEntry>, size: usize, word: &String) -> (r: Option<usize>)
    requires
        table_ok(slots@, ws@, size as int),
    ensures
        match r {
            Some(s) => probe_result(slots@, ws@, word@, s as int),
            None => all_occupied(slots@) && !text_present(ws@, size as int, word@),
        },
{
    let n = slots.len();
    if n == 0 {
        return None;
    }
    let h = (fnv_hash(word) as usize) % n;
    let ghost hs = home(word@, slots@.len());
    assert(h == hs);
    let mut d: usize = 0;
    while d < n
        invariant
            n == slots@.len(),
            hs == home(word@, slots@.len()),
            h == hs,
            0 <= h < n,
            d <= n,
            table_ok(slots@, ws@, size as int),
            forall|dd: int|
                0 <= dd < d ==> #[trigger] slots@[probe_pos(h as int, dd, n as nat)] >= 0
                    && ws@[slots@[probe_pos(h as int, dd, n as nat)] as int].word@ != word@,
        decreases n - d,
    {
        let j = if d < n - h {
            h + d
        } else {
            d - (n - h)
        };
        assert(j == probe_pos(h as int, d as int, n as nat));
        assert(dist(h as int, j as int, n as nat) == d);
        let idx = slots[j];
        if idx < 0 {
            assert(slots@[j as int] == EMPTY_SLOT);
            proof {
                lemma_probe_stop(slots@, ws@, word@, d as int, j as int);
            }
            return Some(j);
        }
        if ws[idx as usize].word == *word {
            proof {
                lemma_probe_stop(slots@, ws@, word@, d as int, j as int);
            }
            return Some(j);
        }
        d += 1;
    }
    proof {
        assert forall|j: int| 0 <= j < n implies #[trigger] slots@[j] >= 0 by {
            let dd = dist(h as int, j, n as nat);
            assert(probe_pos(h as int, dd, n as nat) == j);
        }
        assert forall|i: int| 0 <= i < size implies #[trigger] ws@[i].word@ != word@ by {
            assert(in_some_slot(slots@, i));
            let j = choose|j: int| 0 <= j < n && #[trigger] slots@[j] == i;
            let dd = dist(h as int, j, n as nat);
            assert(probe_pos(h as int, dd, n as nat) == j);
        }
    }
    None
}

/// A slot reached after `d` steps over occupied slots of other texts, that is
/// itself empty or holds the text, is where probing stops.
proof fn lemma_probe_stop(slots: Seq<i32>, ws: Seq<WordEntry>, w: Seq<char>, d: int, j: int)
    requires
        slots.len() > 0,
        0 <= d < slots.len(),
        j == probe_pos(home(w, slots.len()), d, slots.len()),
        0 <= home(w, slots.len()) < slots.len(),
        slots[j] == EMPTY_SLOT || ws[slots[j] as int].word@ == w,
        forall|dd: int|
            0 <= dd < d ==> #[trigger] slots[probe_pos(home(w, slots.len()), dd, slots.len())] >= 0
                && ws[slots[probe_pos(home(w, slots.len()), dd, slots.len())] as int].word@ != w,
    ensures
        probe_result(slots, ws, w, j),
{
    assert(dist(home(w, slots.len()), j, slots.len()) == d);
}

/// Probing that stops at an empty slot means the text is absent.
proof fn lemma_empty_probe_absent(slots: Seq<i32>, ws: Seq<WordEntry>, size: int, w: Seq<char>, s: int)
    requires
        table_ok(slots, ws, size),
        probe_result(slots, ws, w, s),
        slots[s] == EMPTY_SLOT,
    ensures
        !text_present(ws, size, w),
{
    let n = slots.len();
    let h = home(w, n);
    if text_present(ws, size, w) {
        let i = choose|i: int| 0 <= i < size && #[trigger] ws[i].word@ == w;
        assert(in_some_slot(slots, i));
        let j = choose|j: int| 0 <= j < n && #[trigger] slots[j] == i;
        let dj = dist(h, j, n);
        let ds = dist(h, s, n);
        assert(probe_pos(h, dj, n) == j);
        assert(probe_pos(h, ds, n) == s);
        if dj < ds {
            assert(slots[probe_pos(h, dj, n)] >= 0);
        } else if dj > ds {
            assert(slots[probe_pos(h, ds, n)] >= 0);
        }
    }
}

/// A table of empty slots has none occupied.
proof fn lemma_count_all_empty(slots: Seq<i32>)
    requires
        forall|j: int| 0 <= j < slots.len() ==> #[trigger] slots[j] == EMPTY_SLOT,
    ensures
        count_occupied(slots) == 0,
    decreases slots.len(),
{
    if slots.len() > 0 {
        lemma_count_all_empty(slots.drop_last());
    }
}

/// At most every slot is occupied.
proof fn lemma_count_bound(slots: Seq<i32>)
    ensures
        count_occupied(slots) <= slots.len(),
    decreases slots.len(),
{
    if slots.len() > 0 {
        lemma_count_bound(slots.drop_last());
    }
}

/// With every slot counted as occupied, no slot is empty.
proof fn lemma_count_full(slots: Seq<i32>, s: int)
    requires
        count_occupied(slots) == slots.len(),
        0 <= s < slots.len(),
    ensures
        slots[s] >= 0,
    decreases slots.len(),
{
    lemma_count_bound(slots.drop_last());
    if s < slots.len() - 1 {
        lemma_count_full(slots.drop_last(), s);
    }
}

/// Filling an empty slot adds one occupied slot.
proof fn lemma_count_fill(slots: Seq<i32>, s: int, v: i32)
    requires
        0 <= s < slots.len(),
        slots[s] < 0,
        v >= 0,
    ensures
        count_occupied(slots.update(s, v)) == count_occupied(slots) + 1,
    decreases slots.len(),
{
    let u = slots.update(s, v);
    if s < slots.len() - 1 {
        assert(u.drop_last() =~= slots.drop_last().update(s, v));
        lemma_count_fill(slots.drop_last(), s, v);
    } else {
        assert(u.drop_last() =~= slots.drop_last());
    }
}

/// No kind counts more entries than there are.
proof fn lemma_count_kind_le(ws: Seq<WordEntry>, k: EntryType)
    ensures
        count_kind(ws, k) <= ws.len(),
    decreases ws.len(),
{
    if ws.len() > 0 {
        lemma_count_kind_le(ws.drop_last(), k);
    }
}

/// The kind counts depend on the kinds alone.
proof fn lemma_count_kind_same_kinds(a: Seq<WordEntry>, b: Seq<WordEntry>, k: EntryType)
    requires
        a.len() == b.len(),
        forall|i: int| 0 <= i < a.len() ==> #[trigger] a[i].entry_type == b[i].entry_type,
    ensures
        count_kind(a, k) == count_kind(b, k),
    decreases a.len(),
{
    if a.len() > 0 {
        lemma_count_kind_same_kinds(a.drop_last(), b.drop_last(), k);
    }
}

/// The table's invariant depends on the entries' texts alone.
proof fn lemma_table_same_texts(slots: Seq<i32>, a: Seq<WordEntry>, b: Seq<WordEntry>, size: int)
    requires
        table_ok(slots, a, size),
        a.len() == b.len(),
        forall|i: int| 0 <= i < a.len() ==> #[trigger] a[i].word@ == b[i].word@,
    ensures
        table_ok(slots, b, size),
{
    let n = slots.len();
    assert forall|i1: int, i2: int|
        0 <= i1 < size && 0 <= i2 < size && i1 != i2 implies #[trigger] b[i1].word@ != #[trigger] b[i2].word@ by {
        assert(a[i1].word@ == b[i1].word@);
        assert(a[i2].word@ == b[i2].word@);
    }
    assert forall|j: int, d: int|
        0 <= j < n && slots[j] >= 0 && 0 <= d < dist(home(b[slots[j] as int].word@, n), j, n)
            implies #[trigger] slots[probe_pos(home(b[slots[j] as int].word@, n), d, n)] >= 0 by {
        assert(a[slots[j] as int].word@ == b[slots[j] as int].word@);
    }
}

/// Placing entry `size` in the empty slot where probing for its text stopped keeps
/// the invariant.
proof fn lemma_table_insert(
    slots: Seq<i32>,
    ws: Seq<WordEntry>,
    ws2: Seq<WordEntry>,
    size: int,
    w: Seq<char>,
    s: int,
)
    requires
        table_ok(slots, ws, size),
        size < i32::MAX,
        probe_result(slots, ws, w, s),
        slots[s] == EMPTY_SLOT,
        !text_present(ws, size, w),
        size < ws2.len(),
        forall|i: int| 0 <= i < size ==> #[trigger] ws2[i] == ws[i],
        ws2[size].word@ == w,
    ensures
        table_ok(slots.update(s, size as i32), ws2, size + 1),
{
    let n = slots.len();
    let s2 = slots.update(s, size as i32);
    assert forall|j1: int, j2: int|
        0 <= j1 < n && 0 <= j2 < n && s2[j1] >= 0 && #[trigger] s2[j1] == #[trigger] s2[j2] implies j1 == j2 by {
        if j1 != s && j2 != s {
            assert(slots[j1] == slots[j2]);
        }
    }
    assert forall|i: int| 0 <= i < size + 1 implies #[trigger] in_some_slot(s2, i) by {
        if i == size {
            assert(s2[s] == i);
        } else {
            assert(in_some_slot(slots, i));
            let j = choose|j: int| 0 <= j < n && #[trigger] slots[j] == i;
            assert(s2[j] == i);
        }
    }
    assert forall|i1: int, i2: int|
        0 <= i1 < size + 1 && 0 <= i2 < size + 1 && i1 != i2 implies #[trigger] ws2[i1].word@
        != #[trigger] ws2[i2].word@ by {
        if i1 < size && i2 < size {
            assert(ws2[i1] == ws[i1]);
            assert(ws2[i2] == ws[i2]);
        } else if i1 == size {
            assert(ws2[i2] == ws[i2]);
            assert(ws[i2].word@ != w);
        } else {
            assert(ws2[i1] == ws[i1]);
            assert(ws[i1].word@ != w);
        }
    }
    assert forall|j: int, d: int|
        0 <= j < n && s2[j] >= 0 && 0 <= d < dist(home(ws2[s2[j] as int].word@, n), j, n)
            implies #[trigger] s2[probe_pos(home(ws2[s2[j] as int].word@, n), d, n)] >= 0 by {
        if j == s {
            let h = home(w, n);
            assert(slots[probe_pos(h, d, n)] >= 0);
        } else {
            assert(ws2[slots[j] as int] == ws[slots[j] as int]);
            let h = home(ws[slots[j] as int].word@, n);
            assert(slots[probe_pos(h, d, n)] >= 0);
        }
    }
    lemma_count_fill(slots, s, size as i32);
}

/// With every slot occupied, all of them are counted.
proof fn lemma_count_all_occupied(slots: Seq<i32>)
    requires
        all_occupied(slots),
    ensures
        count_occupied(slots) == slots.len(),
    decreases slots.len(),
{
    if slots.len() > 0 {
        assert(slots[slots.len() - 1] >= 0);
        lemma_count_all_occupied(slots.drop_last());
    }
}

/// Every entry is a word or a label.
proof fn lemma_count_kind_sum(ws: Seq<WordEntry>)
    ensures
        count_kind(ws, EntryType::Word) + count_kind(ws, EntryType::Label) == ws.len(),
    decreases ws.len(),
{
    if ws.len() > 0 {
        lemma_count_kind_sum(ws.drop_last());
    }
}

} // verus!
