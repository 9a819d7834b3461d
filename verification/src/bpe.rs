//! Pure-Rust byte-level BPE tokenizer, used as a fallback when the gigatoken
//! C-ABI library is not available.
//!
//! Each input byte starts as the id of the one-byte token holding it; then,
//! while any adjacent pair of ids has a merge, the earliest (lowest-rank)
//! applicable merge is applied, at its leftmost position.
use vstd::prelude::*;
use crate::gguf::Vocab;
use crate::index::{absent, first_id, is_first_index, lemma_first_id};
use crate::textutil::{append_bytes, byte_strings, clone_byte_strings};

verus! {

// ---------------------------------------------------------------------------
// The algorithm, as spec functions.
// ---------------------------------------------------------------------------

/// The id of the one-byte token holding `b` (its lowest id), or 0 when the
/// vocabulary has none.
pub open spec fn byte_id(texts: Seq<Seq<u8>>, b: u8) -> u32 {
    match first_id(texts, seq![b]) {
        Some(i) => i,
        None => 0,
    }
}

/// The ids the encoder starts from: one per input byte.
pub open spec fn initial_ids(texts: Seq<Seq<u8>>, text: Seq<u8>) -> Seq<u32> {
    text.map_values(|b: u8| byte_id(texts, b))
}

/// The merge `(left, right, merged)` that a vocabulary merge resolves to:
/// the ids of its two sides and of their concatenation, when all three are
/// token texts.
pub open spec fn resolve_merge(texts: Seq<Seq<u8>>, m: (Seq<u8>, Seq<u8>)) -> Option<
    (u32, u32, u32),
> {
    match (first_id(texts, m.0), first_id(texts, m.1), first_id(texts, m.0 + m.1)) {
        (Some(a), Some(b), Some(c)) => Some((a, b, c)),
        _ => None,
    }
}

/// The resolvable merges of a vocabulary, in rank order.
pub open spec fn resolve_merges(texts: Seq<Seq<u8>>, merges: Seq<(Seq<u8>, Seq<u8>)>) -> Seq<
    (u32, u32, u32),
>
    decreases merges.len(),
{
    if merges.len() == 0 {
        seq![]
    } else {
        let prev = resolve_merges(texts, merges.drop_last());
        match resolve_merge(texts, merges.last()) {
            Some(t) => prev.push(t),
            None => prev,
        }
    }
}

/// The index of the first merge at or after `k` that joins `a` and `b`.
pub open spec fn first_merge_from(merges: Seq<(u32, u32, u32)>, a: u32, b: u32, k: int) -> Option<
    int,
>
    decreases merges.len() - k,
{
    if k < 0 || k >= merges.len() {
        None
    } else if merges[k].0 == a && merges[k].1 == b {
        Some(k)
    } else {
        first_merge_from(merges, a, b, k + 1)
    }
}

/// The index of the first merge that joins `a` and `b`.
pub open spec fn first_merge(merges: Seq<(u32, u32, u32)>, a: u32, b: u32) -> Option<int> {
    first_merge_from(merges, a, b, 0)
}

/// The (position, merge index) chosen among the pairs starting before `n`:
/// the pair whose first merge has the lowest rank, the leftmost on a tie.
pub open spec fn best_upto(ids: Seq<u32>, merges: Seq<(u32, u32, u32)>, n: int) -> Option<
    (int, int),
>
    decreases n,
{
    if n <= 0 {
        None
    } else {
        let prev = best_upto(ids, merges, n - 1);
        match first_merge(merges, ids[n - 1], ids[n]) {
            None => prev,
            Some(m) => match prev {
                None => Some((n - 1, m)),
                Some((bi, bm)) => if m < bm {
                    Some((n - 1, m))
                } else {
                    prev
                },
            },
        }
    }
}

/// The merge applied next to `ids`, if any pair can merge.
pub open spec fn best_merge(ids: Seq<u32>, merges: Seq<(u32, u32, u32)>) -> Option<(int, int)> {
    best_upto(ids, merges, ids.len() - 1)
}

/// `ids` with the pair at `i` replaced by `t`.
pub open spec fn merge_at(ids: Seq<u32>, i: int, t: u32) -> Seq<u32> {
    ids.subrange(0, i).push(t) + ids.subrange(i + 2, ids.len() as int)
}

/// Apply merges until no adjacent pair can merge.
pub open spec fn bpe_merge(merges: Seq<(u32, u32, u32)>, ids: Seq<u32>) -> Seq<u32>
    decreases ids.len(),
{
    match best_merge(ids, merges) {
        Some((i, m)) => if 0 <= i && i + 2 <= ids.len() && 0 <= m < merges.len() {
            bpe_merge(merges, merge_at(ids, i, merges[m].2))
        } else {
            ids
        },
        None => ids,
    }
}

/// The ids of `text` under a vocabulary's texts and resolved merges.
pub open spec fn bpe_encode(texts: Seq<Seq<u8>>, merges: Seq<(u32, u32, u32)>, text: Seq<u8>) -> Seq<
    u32,
> {
    bpe_merge(merges, initial_ids(texts, text))
}

/// No adjacent pair of `ids` has a merge.
pub open spec fn merge_free(merges: Seq<(u32, u32, u32)>, ids: Seq<u32>) -> bool {
    forall|i: int| 0 <= i < ids.len() - 1 ==> #[trigger] first_merge(merges, ids[i], ids[i + 1]) is None
}

// ---------------------------------------------------------------------------
// Facts about the spec functions.
// ---------------------------------------------------------------------------

proof fn lemma_first_merge_from(merges: Seq<(u32, u32, u32)>, a: u32, b: u32, k: int)
    requires
        0 <= k,
    ensures
        first_merge_from(merges, a, b, k) matches Some(m) ==> k <= m < merges.len()
            && merges[m].0 == a && merges[m].1 == b,
    decreases merges.len() - k,
{
    if k < merges.len() && !(merges[k].0 == a && merges[k].1 == b) {
        lemma_first_merge_from(merges, a, b, k + 1);
    }
}

proof fn lemma_best_upto(ids: Seq<u32>, merges: Seq<(u32, u32, u32)>, n: int)
    requires
        n < ids.len(),
    ensures
        best_upto(ids, merges, n) matches Some((i, m)) ==> 0 <= i < n && 0 <= m < merges.len()
            && first_merge(merges, ids[i], ids[i + 1]) == Some(m),
        best_upto(ids, merges, n) is None <==> forall|i: int|
            0 <= i < n ==> #[trigger] first_merge(merges, ids[i], ids[i + 1]) is None,
    decreases n,
{
    if n > 0 {
        lemma_best_upto(ids, merges, n - 1);
        lemma_first_merge_from(merges, ids[n - 1], ids[n], 0);

    }
}

/// The merge-applied ids admit no further merge.
pub proof fn lemma_bpe_merge_free(merges: Seq<(u32, u32, u32)>, ids: Seq<u32>)
    ensures
        merge_free(merges, bpe_merge(merges, ids)),
    decreases ids.len(),
{
    lemma_best_upto(ids, merges, ids.len() - 1);
    match best_merge(ids, merges) {
        Some((i, m)) => {
            lemma_bpe_merge_free(merges, merge_at(ids, i, merges[m].2));
        },
        None => {
            assert forall|i: int| 0 <= i < ids.len() - 1 implies #[trigger] first_merge(
                merges,
                ids[i],
                ids[i + 1],
            ) is None by {}
        },
    }
}

/// Merging never lengthens the ids, and never empties a non-empty list.
pub proof fn lemma_bpe_merge_len(merges: Seq<(u32, u32, u32)>, ids: Seq<u32>)
    ensures
        bpe_merge(merges, ids).len() <= ids.len(),
        ids.len() > 0 ==> bpe_merge(merges, ids).len() > 0,
    decreases ids.len(),
{
    lemma_best_upto(ids, merges, ids.len() - 1);
    match best_merge(ids, merges) {
        Some((i, m)) => {
            lemma_bpe_merge_len(merges, merge_at(ids, i, merges[m].2));
        },
        None => {},
    }
}

/// Ids that admit no merge are left unchanged.
pub proof fn lemma_bpe_merge_fixed(merges: Seq<(u32, u32, u32)>, ids: Seq<u32>)
    requires
        merge_free(merges, ids),
    ensures
        bpe_merge(merges, ids) == ids,
{
    lemma_best_upto(ids, merges, ids.len() - 1);
    if best_merge(ids, merges) is Some {
        let (i, m) = best_merge(ids, merges).unwrap();
        assert(first_merge(merges, ids[i], ids[i + 1]) is None);
    }
}

/// Encoding is idempotent on its own output: merging the merged ids again
/// changes nothing.
pub proof fn lemma_bpe_merge_idempotent(merges: Seq<(u32, u32, u32)>, ids: Seq<u32>)
    ensures
        bpe_merge(merges, bpe_merge(merges, ids)) == bpe_merge(merges, ids),
{
    lemma_bpe_merge_free(merges, ids);
    lemma_bpe_merge_fixed(merges, bpe_merge(merges, ids));
}

/// Without merges, encoding maps each byte to its byte-token id.
pub proof fn lemma_bpe_no_merges(texts: Seq<Seq<u8>>, text: Seq<u8>)
    ensures
        bpe_encode(texts, seq![], text) == initial_ids(texts, text),
{
    let ids = initial_ids(texts, text);
    assert forall|i: int| 0 <= i < ids.len() - 1 implies #[trigger] first_merge(
        seq![],
        ids[i],
        ids[i + 1],
    ) is None by {}
    lemma_bpe_merge_fixed(seq![], ids);
}

// ---------------------------------------------------------------------------
// Encoding loses nothing.
// ---------------------------------------------------------------------------

/// The bytes that `ids` stand for: their token texts, concatenated.
pub open spec fn detokenize(texts: Seq<Seq<u8>>, ids: Seq<u32>) -> Seq<u8>
    decreases ids.len(),
{
    if ids.len() == 0 {
        seq![]
    } else {
        detokenize(texts, ids.drop_last()) + texts[ids.last() as int]
    }
}

/// Each merge joins two tokens into the token spelled by their two texts.
pub open spec fn merges_consistent(texts: Seq<Seq<u8>>, merges: Seq<(u32, u32, u32)>) -> bool {
    forall|k: int|
        0 <= k < merges.len() ==> {
            &&& (#[trigger] merges[k]).0 < texts.len()
            &&& merges[k].1 < texts.len()
            &&& merges[k].2 < texts.len()
            &&& texts[merges[k].2 as int] == texts[merges[k].0 as int] + texts[merges[k].1 as int]
        }
}

proof fn lemma_detokenize_concat(texts: Seq<Seq<u8>>, a: Seq<u32>, b: Seq<u32>)
    ensures
        detokenize(texts, a + b) == detokenize(texts, a) + detokenize(texts, b),
    decreases b.len(),
{
    if b.len() == 0 {
        assert(a + b =~= a);
        assert(detokenize(texts, a) + seq![] =~= detokenize(texts, a));
    } else {
        assert((a + b).drop_last() =~= a + b.drop_last());
        lemma_detokenize_concat(texts, a, b.drop_last());
        assert(detokenize(texts, a) + detokenize(texts, b.drop_last()) + texts[b.last() as int]
            =~= detokenize(texts, a) + (detokenize(texts, b.drop_last()) + texts[b.last() as int]));
    }
}

proof fn lemma_detokenize_merge_step(
    texts: Seq<Seq<u8>>,
    merges: Seq<(u32, u32, u32)>,
    ids: Seq<u32>,
    i: int,
    m: int,
)
    requires
        merges_consistent(texts, merges),
        0 <= i,
        i + 2 <= ids.len(),
        0 <= m < merges.len(),
        merges[m].0 == ids[i],
        merges[m].1 == ids[i + 1],
    ensures
        detokenize(texts, merge_at(ids, i, merges[m].2)) == detokenize(texts, ids),
{
    let pre = ids.subrange(0, i);
    let post = ids.subrange(i + 2, ids.len() as int);
    let t = merges[m].2;
    assert(ids =~= pre + seq![ids[i], ids[i + 1]] + post);
    assert(merge_at(ids, i, t) =~= pre + seq![t] + post);
    lemma_detokenize_concat(texts, pre + seq![ids[i], ids[i + 1]], post);
    lemma_detokenize_concat(texts, pre, seq![ids[i], ids[i + 1]]);
    lemma_detokenize_concat(texts, pre + seq![t], post);
    lemma_detokenize_concat(texts, pre, seq![t]);
    assert(seq![ids[i], ids[i + 1]].drop_last() =~= seq![ids[i]]);
    assert(seq![ids[i]].drop_last() =~= Seq::<u32>::empty());
    assert(seq![t].drop_last() =~= Seq::<u32>::empty());
    let e = Seq::<u32>::empty();
    assert(detokenize(texts, e) == Seq::<u8>::empty());
    assert(detokenize(texts, seq![ids[i]]) == detokenize(texts, e) + texts[ids[i] as int]);
    assert(detokenize(texts, seq![ids[i]]) =~= texts[ids[i] as int]);
    assert(detokenize(texts, seq![ids[i], ids[i + 1]]) == detokenize(texts, seq![ids[i]])
        + texts[ids[i + 1] as int]);
    assert(detokenize(texts, seq![t]) == detokenize(texts, e) + texts[t as int]);
    assert(detokenize(texts, seq![t]) =~= texts[t as int]);
}

/// With consistent merges, merging never changes the bytes the ids spell.
pub proof fn lemma_bpe_merge_preserves_bytes(
    texts: Seq<Seq<u8>>,
    merges: Seq<(u32, u32, u32)>,
    ids: Seq<u32>,
)
    requires
        merges_consistent(texts, merges),
    ensures
        detokenize(texts, bpe_merge(merges, ids)) == detokenize(texts, ids),
    decreases ids.len(),
{
    lemma_best_upto(ids, merges, ids.len() - 1);
    match best_merge(ids, merges) {
        Some((i, m)) => {
            lemma_first_merge_from(merges, ids[i], ids[i + 1], 0);
            lemma_detokenize_merge_step(texts, merges, ids, i, m);
            lemma_bpe_merge_preserves_bytes(texts, merges, merge_at(ids, i, merges[m].2));
        },
        None => {},
    }
}

/// The merges resolved from a vocabulary are consistent with its texts.
pub proof fn lemma_resolve_merges_consistent(
    texts: Seq<Seq<u8>>,
    vmerges: Seq<(Seq<u8>, Seq<u8>)>,
)
    requires
        texts.len() <= 0x1_0000_0000,
    ensures
        merges_consistent(texts, resolve_merges(texts, vmerges)),
    decreases vmerges.len(),
{
    if vmerges.len() > 0 {
        lemma_resolve_merges_consistent(texts, vmerges.drop_last());
        let m = vmerges.last();
        lemma_first_id(texts, m.0);
        lemma_first_id(texts, m.1);
        lemma_first_id(texts, m.0 + m.1);
        let prev = resolve_merges(texts, vmerges.drop_last());
        let cur = resolve_merges(texts, vmerges);
        assert forall|k: int| 0 <= k < cur.len() implies {
            &&& (#[trigger] cur[k]).0 < texts.len()
            &&& cur[k].1 < texts.len()
            &&& cur[k].2 < texts.len()
            &&& texts[cur[k].2 as int] == texts[cur[k].0 as int] + texts[cur[k].1 as int]
        } by {
            if k < prev.len() {
                assert(cur[k] == prev[k]);
            }
        }
    }
}

/// Every byte of `text` has a one-byte token.
pub open spec fn bytes_covered(texts: Seq<Seq<u8>>, text: Seq<u8>) -> bool {
    forall|j: int| 0 <= j < text.len() ==> texts.contains(seq![#[trigger] text[j]])
}

/// Encoding is lossless: when every byte of `text` has a one-byte token, the
/// token texts of its ids spell `text` again.
pub proof fn lemma_bpe_lossless(
    texts: Seq<Seq<u8>>,
    vmerges: Seq<(Seq<u8>, Seq<u8>)>,
    text: Seq<u8>,
)
    requires
        texts.len() <= 0x1_0000_0000,
        bytes_covered(texts, text),
    ensures
        detokenize(texts, bpe_encode(texts, resolve_merges(texts, vmerges), text)) == text,
{
    lemma_resolve_merges_consistent(texts, vmerges);
    lemma_bpe_merge_preserves_bytes(texts, resolve_merges(texts, vmerges), initial_ids(texts, text));
    lemma_initial_ids_spell(texts, text);
}

proof fn lemma_initial_ids_spell(texts: Seq<Seq<u8>>, text: Seq<u8>)
    requires
        texts.len() <= 0x1_0000_0000,
        bytes_covered(texts, text),
    ensures
        detokenize(texts, initial_ids(texts, text)) == text,
    decreases text.len(),
{
    if text.len() > 0 {
        let pre = text.drop_last();
        assert forall|j: int| 0 <= j < pre.len() implies texts.contains(seq![#[trigger] pre[j]]) by {
            assert(pre[j] == text[j]);
        }
        lemma_initial_ids_spell(texts, pre);
        assert(initial_ids(texts, text).drop_last() =~= initial_ids(texts, pre));
        let b = text.last();
        assert(texts.contains(seq![text[text.len() - 1]]));
        lemma_first_id(texts, seq![b]);
        assert(!crate::index::absent(texts, seq![b]));
        assert(texts[byte_id(texts, b) as int] == seq![b]);
        assert(text =~= pre + seq![b]);
    }
}

/// A vocabulary merge resolves to ids: both sides and their concatenation
/// are token texts.
pub open spec fn resolvable(texts: Seq<Seq<u8>>, m: (Seq<u8>, Seq<u8>)) -> bool {
    texts.contains(m.0) && texts.contains(m.1) && texts.contains(m.0 + m.1)
}

proof fn lemma_first_id_some_iff_contains(texts: Seq<Seq<u8>>, t: Seq<u8>)
    requires
        texts.len() <= 0x1_0000_0000,
    ensures
        first_id(texts, t) is Some <==> texts.contains(t),
{
    lemma_first_id(texts, t);
    if texts.contains(t) {
        let i = choose|i: int| 0 <= i < texts.len() && texts[i] == t;
        assert(!absent(texts, t));
    }
}

/// Merges that do not resolve to token ids are dropped and have no effect:
/// keeping only the resolvable merges (in order) resolves to the same table,
/// and so encodes every text the same way.
pub proof fn lemma_unresolvable_merges_dropped(
    texts: Seq<Seq<u8>>,
    vmerges: Seq<(Seq<u8>, Seq<u8>)>,
)
    requires
        texts.len() <= 0x1_0000_0000,
    ensures
        resolve_merges(texts, vmerges.filter(|m: (Seq<u8>, Seq<u8>)| resolvable(texts, m)))
            == resolve_merges(texts, vmerges),
        forall|text: Seq<u8>|
            bpe_encode(
                texts,
                resolve_merges(texts, vmerges.filter(|m: (Seq<u8>, Seq<u8>)| resolvable(texts, m))),
                text,
            ) == #[trigger] bpe_encode(texts, resolve_merges(texts, vmerges), text),
    decreases vmerges.len(),
{
    let pred = |m: (Seq<u8>, Seq<u8>)| resolvable(texts, m);
    reveal_with_fuel(Seq::<_>::filter, 1);
    if vmerges.len() > 0 {
        lemma_unresolvable_merges_dropped(texts, vmerges.drop_last());
        let m = vmerges.last();
        lemma_first_id_some_iff_contains(texts, m.0);
        lemma_first_id_some_iff_contains(texts, m.1);
        lemma_first_id_some_iff_contains(texts, m.0 + m.1);
        let sub = vmerges.drop_last().filter(pred);
        if pred(m) {
            assert(vmerges.filter(pred) == sub.push(m));
            assert(sub.push(m).drop_last() =~= sub);
        } else {
            assert(vmerges.filter(pred) == sub);
        }
    } else {
        assert(vmerges.filter(pred) == vmerges);
    }
}

// ---------------------------------------------------------------------------
// The tokenizer.
// ---------------------------------------------------------------------------

/// A byte-level BPE tokenizer over a vocabulary's token texts and merges.
pub struct BpeTokenizer {
    /// id -> raw token bytes.
    tokens: Vec<Vec<u8>>,
    /// merge list each as (left_id, right_id, merged_id), ordered by rank.
    merges: Vec<(u32, u32, u32)>,
    /// byte -> the lowest id of the one-byte token holding it.
    byte_ids: Vec<Option<u32>>,
}

impl BpeTokenizer {
    #[verifier::type_invariant]
    spec fn inv(self) -> bool {
        &&& self.tokens@.len() <= 0x1_0000_0000
        &&& merges_consistent(byte_strings(self.tokens@), self.merges@)
        &&& self.byte_ids@.len() == 256
        &&& forall|b: u8| #[trigger] self.byte_ids@[b as int] == first_id(
            byte_strings(self.tokens@),
            seq![b],
        )
    }

    /// The token texts, by id.
    pub closed spec fn texts(self) -> Seq<Seq<u8>> {
        byte_strings(self.tokens@)
    }

    /// The merges, in rank order.
    pub closed spec fn merge_table(self) -> Seq<(u32, u32, u32)> {
        self.merges@
    }

    /// Build from a parsed GGUF vocab (ids are `u32`, so it holds at most
    /// 2^32 tokens).
    pub fn new(vocab: &Vocab) -> (t: BpeTokenizer)
        requires
            vocab.tokens@.len() <= 0x1_0000_0000,
        ensures
            t.texts() == vocab@.tokens,
            t.merge_table() == resolve_merges(vocab@.tokens, vocab@.merges),
    {
        let text_to_id = vocab.text_to_id();
        let ghost texts = vocab@.tokens;
        let ghost vmerges = vocab@.merges;
        let mut merges: Vec<(u32, u32, u32)> = Vec::new();
        let mut rank: usize = 0;
        while rank < vocab.merges.len()
            invariant
                0 <= rank <= vocab.merges@.len(),
                texts == vocab@.tokens,
                vmerges == vocab@.merges,
                text_to_id.texts() == texts,
                merges@ == resolve_merges(texts, vmerges.subrange(0, rank as int)),
            decreases vocab.merges@.len() - rank,
        {
            let left = &vocab.merges[rank].0;
            let right = &vocab.merges[rank].1;
            let li = text_to_id.get(left.as_slice());
            let ri = text_to_id.get(right.as_slice());
            let mut merged = vstd::slice::slice_to_vec(left.as_slice());
            append_bytes(&mut merged, right.as_slice());
            let mi = text_to_id.get(merged.as_slice());
            proof {
                let pre = vmerges.subrange(0, rank + 1);
                assert(pre.drop_last() =~= vmerges.subrange(0, rank as int));
                assert(pre.last() == vmerges[rank as int]);
                assert(vmerges[rank as int] == (left@, right@));
            }
            match (li, ri, mi) {
                (Some(li), Some(ri), Some(mi)) => {
                    merges.push((li, ri, mi));
                },
                _ => {},
            }
            rank = rank + 1;
        }
        assert(vmerges.subrange(0, vocab.merges@.len() as int) =~= vmerges);

        // Byte tokens: ids whose text is a single byte.
        let mut byte_ids: Vec<Option<u32>> = Vec::new();
        while byte_ids.len() < 256
            invariant
                byte_ids@.len() <= 256,
                forall|j: int| 0 <= j < byte_ids@.len() ==> byte_ids@[j] is None,
            decreases 256 - byte_ids@.len(),
        {
            byte_ids.push(None);
        }
        let n = vocab.tokens.len();
        let mut i: usize = 0;
        while i < n
            invariant
                0 <= i <= n,
                n == vocab.tokens@.len(),
                n <= 0x1_0000_0000,
                texts == vocab@.tokens,
                byte_ids@.len() == 256,
                forall|b: u8|
                    match #[trigger] byte_ids@[b as int] {
                        Some(k) => is_first_index(texts.subrange(0, i as int), seq![b], k as int),
                        None => absent(texts.subrange(0, i as int), seq![b]),
                    },
            decreases n - i,
        {
            let ghost t0 = texts.subrange(0, i as int);
            let ghost t1 = texts.subrange(0, i + 1);
            assert(t1[i as int] == vocab.tokens@[i as int]@);
            if vocab.tokens[i].len() == 1 {
                let b = vocab.tokens[i][0];
                if byte_ids[b as usize].is_none() {
                    byte_ids[b as usize] = Some(i as u32);
                }
                proof {
                    assert(t1[i as int] =~= seq![b]);
                }
            }
            proof {
                assert forall|c: u8|
                    match #[trigger] byte_ids@[c as int] {
                        Some(k) => is_first_index(t1, seq![c], k as int),
                        None => absent(t1, seq![c]),
                    } by {
                    assert forall|j: int| 0 <= j < i implies t1[j] == t0[j] by {}
                    if t1[i as int] != seq![c] {
                        assert(t1[i as int].len() != 1 || t1[i as int][0] != c);
                    }
                }
            }
            i = i + 1;
        }
        proof {
            assert(texts.subrange(0, n as int) =~= texts);
            assert forall|b: u8| #[trigger] byte_ids@[b as int] == first_id(texts, seq![b]) by {
                lemma_first_id(texts, seq![b]);
            }
            lemma_resolve_merges_consistent(texts, vmerges);
        }
        let tokens = clone_byte_strings(&vocab.tokens);
        BpeTokenizer { tokens, merges, byte_ids }
    }

    /// Number of vocab entries.
    pub fn vocab_size(&self) -> (n: usize)
        ensures
            n == self.texts().len(),
    {
        self.tokens.len()
    }

    /// The index of the first merge that joins `a` and `b`.
    fn first_merge_exec(&self, a: u32, b: u32) -> (res: Option<usize>)
        ensures
            res matches Some(k) ==> first_merge(self.merge_table(), a, b) == Some(k as int),
            res is None ==> first_merge(self.merge_table(), a, b) is None,
    {
        let ghost m = self.merges@;
        let mut k: usize = 0;
        while k < self.merges.len()
            invariant
                0 <= k <= m.len(),
                m == self.merges@,
                first_merge_from(m, a, b, 0) == first_merge_from(m, a, b, k as int),
            decreases m.len() - k,
        {
            if self.merges[k].0 == a && self.merges[k].1 == b {
                return Some(k);
            }
            k = k + 1;
        }
        None
    }

    /// Encode raw bytes (already unicode-transcoded) into token ids.
    ///
    /// This is the core byte-level BPE: start with each byte as an id, then
    /// greedily apply the best merge pair that appears.
    pub fn encode(&self, text: &[u8]) -> (res: Vec<u32>)
        ensures
            res@ == bpe_encode(self.texts(), self.merge_table(), text@),
            bytes_covered(self.texts(), text@) ==> detokenize(self.texts(), res@) == text@,
    {
        proof {
            use_type_invariant(self);
        }
        let ghost texts = self.texts();
        let ghost mt = self.merge_table();
        // Map each byte to a token id via the byte token table.
        let mut ids: Vec<u32> = Vec::new();
        let mut j: usize = 0;
        while j < text.len()
            invariant
                0 <= j <= text@.len(),
                ids@ == initial_ids(texts, text@.subrange(0, j as int)),
                self.byte_ids@.len() == 256,
                texts == self.texts(),
                forall|b: u8| #[trigger] self.byte_ids@[b as int] == first_id(texts, seq![b]),
            decreases text@.len() - j,
        {
            let b = text[j];
            let id = match self.byte_ids[b as usize] {
                Some(i) => i,
                None => 0,
            };
            ids.push(id);
            j = j + 1;
            assert(ids@ =~= initial_ids(texts, text@.subrange(0, j as int)));
        }
        assert(text@.subrange(0, text@.len() as int) =~= text@);
        let ghost target = bpe_encode(texts, mt, text@);

        // Repeatedly apply the best applicable merge.
        loop
            invariant
                bpe_merge(mt, ids@) == target,
                mt == self.merge_table(),
            ensures
                ids@ == target,
            decreases ids@.len(),
        {
            let mut best: Option<(usize, usize)> = None;
            let mut i: usize = 0;
            while ids.len() > 0 && i < ids.len() - 1
                invariant
                    ids@.len() == 0 ==> i == 0,
                    ids@.len() > 0 ==> i <= ids@.len() - 1,
                    mt == self.merge_table(),
                    (match best {
                        Some((p, m)) => Some((p as int, m as int)),
                        None => None,
                    }) == best_upto(ids@, mt, i as int),
                decreases ids@.len() - i,
            {
                proof {
                    lemma_best_upto(ids@, mt, i as int);
                    lemma_first_merge_from(mt, ids@[i as int], ids@[i + 1], 0);
                }
                match self.first_merge_exec(ids[i], ids[i + 1]) {
                    Some(m) => {
                        match best {
                            None => {
                                best = Some((i, m));
                            },
                            Some((_, bm)) => {
                                // lowest rank wins (merges are in rank order)
                                if m < bm {
                                    best = Some((i, m));
                                }
                            },
                        }
                    },
                    None => {},
                }
                i = i + 1;
            }
            proof {
                lemma_best_upto(ids@, mt, ids@.len() - 1);
            }
            match best {
                Some((p, m)) => {
                    let ghost before = ids@;
                    let merged = self.merges[m].2;
                    ids[p] = merged;
                    ids.remove(p + 1);
                    assert(ids@ =~= merge_at(before, p as int, mt[m as int].2));
                },
                None => {
                    break;
                },
            }
        }
        proof {
            if bytes_covered(texts, text@) {
                lemma_bpe_merge_preserves_bytes(texts, mt, initial_ids(texts, text@));
                lemma_initial_ids_spell(texts, text@);
            }
        }
        ids
    }
}

} // verus!
