//! Token entries: classification, FNV-1a hashing and subword n-gram buckets.
use core::cmp::Ordering;
use vstd::prelude::*;
use vstd::slice::{slice_subrange, slice_to_vec};
use vstd::utf8::encode_utf8;

verus! {

/// FNV-1a 32-bit offset basis.
pub const FNV_OFFSET: u32 = 2166136261;

/// FNV-1a 32-bit prime.
pub const FNV_PRIME: u32 = 16777619;

/// The UTF-8 encoding of a token's text.
pub open spec fn text_bytes(s: Seq<char>) -> Seq<u8> {
    encode_utf8(s)
}

/// One FNV-1a round: xor the byte in, then multiply with 32-bit wraparound.
pub open spec fn fnv_step(h: u32, b: u8) -> u32 {
    (h ^ (b as u32)).wrapping_mul(FNV_PRIME)
}

/// FNV-1a over a byte string.
pub open spec fn fnv_spec(bytes: Seq<u8>) -> u32
    decreases bytes.len(),
{
    if bytes.len() == 0 {
        FNV_OFFSET
    } else {
        fnv_step(fnv_spec(bytes.drop_last()), bytes.last())
    }
}

/// A byte that may start an n-gram window: not a UTF-8 continuation byte.
pub open spec fn is_lead_byte(b: u8) -> bool {
    (b & 0xC0u8) != 0x80u8
}

/// The windows of `w` bytes that start at a lead byte before offset `k`, in offset order.
pub open spec fn windows_before(b: Seq<u8>, w: nat, k: nat) -> Seq<Seq<u8>>
    decreases k,
{
    if k == 0 {
        Seq::empty()
    } else {
        let i = (k - 1) as nat;
        let prev = windows_before(b, w, i);
        if i < b.len() && is_lead_byte(b[i as int]) && i + w <= b.len() {
            prev.push(b.subrange(i as int, (i + w) as int))
        } else {
            prev
        }
    }
}

/// The windows of every width from `min_n` up to, not including, `w_end`, width by width.
pub open spec fn grams_below(b: Seq<u8>, min_n: nat, w_end: nat) -> Seq<Seq<u8>>
    decreases w_end,
{
    if w_end <= min_n {
        Seq::empty()
    } else {
        grams_below(b, min_n, (w_end - 1) as nat) + windows_before(b, (w_end - 1) as nat, b.len())
    }
}

/// The candidate subwords of a token: nothing when either bound is zero.
pub open spec fn subword_grams(b: Seq<u8>, min_n: nat, max_n: nat) -> Seq<Seq<u8>> {
    if min_n == 0 || max_n == 0 {
        Seq::empty()
    } else {
        grams_below(b, min_n, max_n + 1)
    }
}

/// The bucket of one subword: its hash reduced modulo the bucket count.
pub open spec fn bucket_of(g: Seq<u8>, bucket: u32) -> u32 {
    fnv_spec(g) % bucket
}

/// Each candidate subword hashed and reduced to a bucket.
pub open spec fn bucketed(grams: Seq<Seq<u8>>, bucket: u32) -> Seq<u32> {
    grams.map_values(|g: Seq<u8>| bucket_of(g, bucket))
}

/// Subword bounds that describe a usable configuration.
pub open spec fn valid_subword_bounds(min_n: usize, max_n: usize) -> bool {
    min_n == 0 || max_n == 0 || min_n < max_n
}

/// Whether subword extraction is switched off.
pub open spec fn subwords_disabled(min_n: usize, max_n: usize) -> bool {
    min_n == 0 || max_n == 0
}

#[derive(Debug, PartialOrd, Ord, PartialEq, Eq, Structural, Clone, Copy)]
pub enum EntryType {
    Word,
    Label,
}

#[derive(Debug, PartialEq, Eq, Clone)]
pub struct WordEntry {
    pub word: String,
    pub entry_type: EntryType,
    pub count: u32,
    pub subwords: Vec<u32>,
}

/// `p` is a byte prefix of `s`.
pub open spec fn is_byte_prefix(p: Seq<u8>, s: Seq<u8>) -> bool {
    p.len() <= s.len() && s.subrange(0, p.len() as int) == p
}

/// Label exactly when the text starts with the label prefix, byte for byte.
pub open spec fn classify(text: Seq<char>, prefix: Seq<char>) -> EntryType {
    if is_byte_prefix(text_bytes(prefix), text_bytes(text)) {
        EntryType::Label
    } else {
        EntryType::Word
    }
}

/// The order of entries: words before labels, then higher counts first.
pub open spec fn compare_spec(left: WordEntry, right: WordEntry) -> Ordering {
    if left.entry_type == right.entry_type {
        if left.count > right.count {
            Ordering::Less
        } else if left.count < right.count {
            Ordering::Greater
        } else {
            Ordering::Equal
        }
    } else if left.entry_type == EntryType::Word {
        Ordering::Less
    } else {
        Ordering::Greater
    }
}

impl WordEntry {
    /// A fresh entry seen once, classified by the prefix, with no subwords yet.
    pub fn new(word: &String, label_prefix: &String) -> (r: WordEntry)
        ensures
            r.word@ == word@,
            r.entry_type == classify(word@, label_prefix@),
            r.count == 1,
            r.subwords@ == Seq::<u32>::empty(),
    {
        let entry_type = get_type(word, label_prefix);
        WordEntry { word: word.clone(), count: 1, entry_type, subwords: Vec::new() }
    }

    /// The candidate subwords of the entry's text, as byte strings.
    pub fn parse_subwords(&self, min_n: usize, max_n: usize) -> (r: Vec<Vec<u8>>)
        requires
            valid_subword_bounds(min_n, max_n),
        ensures
            subwords_disabled(min_n, max_n) ==> r@.len() == 0,
            r@.len() == subword_grams(text_bytes(self.word@), min_n as nat, max_n as nat).len(),
            forall|k: int|
                0 <= k < r@.len() ==> #[trigger] r@[k]@ == subword_grams(
                    text_bytes(self.word@),
                    min_n as nat,
                    max_n as nat,
                )[k],
    {
        let mut subwords: Vec<Vec<u8>> = Vec::new();
        if min_n == 0 || max_n == 0 {
            return subwords;
        }
        let b = self.word.as_str().as_bytes();
        let ghost bs = text_bytes(self.word@);
        let mut width: usize = min_n;
        let mut more = width <= b.len();
        let ghost mut upto: nat = min_n as nat;
        while more
            invariant
                b@ == bs,
                1 <= min_n <= width <= max_n,
                min_n <= upto <= max_n + 1,
                more ==> upto == width && width <= b@.len(),
                !more ==> upto == max_n + 1 || upto > b@.len() || (upto == min_n && min_n > b@.len()),
                subwords@.len() == grams_below(bs, min_n as nat, upto).len(),
                forall|k: int|
                    0 <= k < subwords@.len() ==> #[trigger] subwords@[k]@ == grams_below(
                        bs,
                        min_n as nat,
                        upto,
                    )[k],
            decreases max_n + 1 - upto,
        {
            let ghost before = subwords@;
            let mut i: usize = 0;
            while i < b.len()
                invariant
                    b@ == bs,
                    i <= b@.len(),
                    1 <= width <= b@.len(),
                    min_n <= width,
                    subwords@.len() == before.len() + windows_before(bs, width as nat, i as nat).len(),
                    forall|k: int| 0 <= k < before.len() ==> #[trigger] subwords@[k] == before[k],
                    forall|k: int|
                        0 <= k < windows_before(bs, width as nat, i as nat).len() ==> #[trigger] subwords@[before.len() + k]@
                            == windows_before(bs, width as nat, i as nat)[k],
                decreases b@.len() - i,
            {
                let letter = b[i];
                if (letter & 0xC0) != 0x80 && width <= b.len() - i {
                    let piece = slice_to_vec(slice_subrange(b, i, i + width));
                    subwords.push(piece);
                }
                i += 1;
            }
            proof {
                let g0 = grams_below(bs, min_n as nat, width as nat);
                let g1 = grams_below(bs, min_n as nat, (width + 1) as nat);
                let ws = windows_before(bs, width as nat, bs.len());
                assert(g1 == g0 + ws);
                assert forall|k: int| 0 <= k < subwords@.len() implies #[trigger] subwords@[k]@ == g1[k] by {
                    if k >= before.len() {
                        let j = k - before.len();
                        assert(subwords@[before.len() + j]@ == ws[j]);
                    }
                }
                upto = (width + 1) as nat;
            }
            if width < max_n && width < b.len() {
                width += 1;
            } else {
                more = false;
            }
        }
        proof {
            lemma_grams_past_len(bs, min_n as nat, upto, (max_n + 1) as nat);
        }
        subwords
    }

    /// Fill in the bucket of every candidate subword, in candidate order.
    pub fn compute_subwords(&mut self, min_n: usize, max_n: usize, bucket: u32)
        requires
            valid_subword_bounds(min_n, max_n),
            bucket > 0 || subwords_disabled(min_n, max_n),
        ensures
            final(self).word == old(self).word,
            final(self).entry_type == old(self).entry_type,
            final(self).count == old(self).count,
            subwords_disabled(min_n, max_n) ==> final(self).subwords@.len() == 0,
            final(self).subwords@ == bucketed(
                subword_grams(text_bytes(old(self).word@), min_n as nat, max_n as nat),
                bucket,
            ),
    {
        let subword_chars = self.parse_subwords(min_n, max_n);
        let ghost grams = subword_grams(text_bytes(self.word@), min_n as nat, max_n as nat);
        let mut hashed_subwords: Vec<u32> = Vec::new();
        let mut k: usize = 0;
        while k < subword_chars.len()
            invariant
                k <= subword_chars@.len(),
                subword_chars@.len() == grams.len(),
                bucket > 0 || grams.len() == 0,
                forall|j: int| 0 <= j < subword_chars@.len() ==> #[trigger] subword_chars@[j]@ == grams[j],
                hashed_subwords@ == bucketed(grams, bucket).subrange(0, k as int),
            decreases subword_chars@.len() - k,
        {
            let h = fnv_bytes(subword_chars[k].as_slice());
            hashed_subwords.push(h % bucket);
            proof {
                assert(subword_chars@[k as int]@ == grams[k as int]);
                assert(hashed_subwords@ =~= bucketed(grams, bucket).subrange(0, k + 1));
            }
            k += 1;
        }
        proof {
            assert(bucketed(grams, bucket).len() == grams.len());
            assert(hashed_subwords@ =~= bucketed(grams, bucket));
        }
        self.subwords = hashed_subwords;
    }
}

/// Widths past the text's length contribute no windows.
proof fn lemma_wide_windows_empty(b: Seq<u8>, w: nat, k: nat)
    requires
        w > b.len(),
    ensures
        windows_before(b, w, k).len() == 0,
    decreases k,
{
    if k > 0 {
        lemma_wide_windows_empty(b, w, (k - 1) as nat);
    }
}

/// Stopping the widths at the text's length gives all the grams up to `w_end`.
proof fn lemma_grams_past_len(b: Seq<u8>, min_n: nat, stop: nat, w_end: nat)
    requires
        min_n <= stop <= w_end,
        stop == w_end || stop > b.len() || stop == min_n && min_n > b.len(),
    ensures
        grams_below(b, min_n, w_end) == grams_below(b, min_n, stop),
    decreases w_end,
{
    if w_end > stop {
        lemma_grams_past_len(b, min_n, stop, (w_end - 1) as nat);
        lemma_wide_windows_empty(b, (w_end - 1) as nat, b.len());
        assert(grams_below(b, min_n, w_end) =~= grams_below(b, min_n, (w_end - 1) as nat));
    }
}

/// Label when the text starts with the prefix, byte for byte; Word otherwise.
pub fn get_type(word: &String, label_prefix: &String) -> (r: EntryType)
    ensures
        r == classify(word@, label_prefix@),
{
    let w = word.as_str().as_bytes();
    let p = label_prefix.as_str().as_bytes();
    if p.len() > w.len() {
        return EntryType::Word;
    }
    let mut i: usize = 0;
    while i < p.len()
        invariant
            w@ == text_bytes(word@),
            p@ == text_bytes(label_prefix@),
            i <= p@.len() <= w@.len(),
            forall|k: int| 0 <= k < i ==> w@[k] == p@[k],
        decreases p@.len() - i,
    {
        if w[i] != p[i] {
            assert(w@.subrange(0, p@.len() as int)[i as int] != p@[i as int]);
            return EntryType::Word;
        }
        i += 1;
    }
    assert(w@.subrange(0, p@.len() as int) =~= p@);
    EntryType::Label
}

/// FNV-1a, 32-bit, over a byte string.
pub fn fnv_bytes(bytes: &[u8]) -> (h: u32)
    ensures
        h == fnv_spec(bytes@),
{
    let mut h: u32 = FNV_OFFSET;
    let mut i: usize = 0;
    while i < bytes.len()
        invariant
            i <= bytes@.len(),
            h == fnv_spec(bytes@.subrange(0, i as int)),
        decreases bytes@.len() - i,
    {
        h = h ^ (bytes[i] as u32);
        h = h.wrapping_mul(FNV_PRIME);
        assert(bytes@.subrange(0, i + 1).drop_last() =~= bytes@.subrange(0, i as int));
        i += 1;
    }
    assert(bytes@.subrange(0, bytes@.len() as int) =~= bytes@);
    h
}

/// FNV-1a, 32-bit, over the UTF-8 bytes of a token.
pub fn fnv_hash(word: &String) -> (h: u32)
    ensures
        h == fnv_spec(text_bytes(word@)),
{
    fnv_bytes(word.as_str().as_bytes())
}

/// Orders words before labels, and within a kind higher counts first.
pub fn compare(left: &WordEntry, right: &WordEntry) -> (r: Ordering)
    ensures
        r == compare_spec(*left, *right),
{
    if left.entry_type == right.entry_type {
        if left.count > right.count {
            Ordering::Less
        } else if left.count < right.count {
            Ordering::Greater
        } else {
            Ordering::Equal
        }
    } else {
        match left.entry_type {
            EntryType::Word => Ordering::Less,
            EntryType::Label => Ordering::Greater,
        }
    }
}

} // verus!
